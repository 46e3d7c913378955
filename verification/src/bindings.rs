//! What every language binding shows of a run: the labels of its trace as
//! plain texts and numbers, its report, and what the reply of a foreign
//! callable means.
use vstd::prelude::*;
use vstd::utf8::*;

use crate::ctx::{LabelView, TraceLabel};
use crate::fault::{Fault, FaultView};
use crate::runtime::RunReport;
use crate::sha256;
use crate::text;
use crate::value::Value;

verus! {

/// The name of a label's kind.
pub open spec fn kind_name(l: LabelView) -> Seq<char> {
    match l {
        LabelView::Oracle { .. } => "oracle"@,
        LabelView::Effect { .. } => "effect"@,
        LabelView::Recv { .. } => "recv"@,
        LabelView::Clock { .. } => "clock"@,
        LabelView::Done { .. } => "done"@,
    }
}

/// The cursor of a label; the largest number for the end of the run.
pub open spec fn cursor_of(l: LabelView) -> nat {
    match l {
        LabelView::Oracle { cursor, .. } => cursor,
        LabelView::Effect { cursor, .. } => cursor,
        LabelView::Recv { cursor, .. } => cursor,
        LabelView::Clock { cursor, .. } => cursor,
        LabelView::Done { .. } => u64::MAX as nat,
    }
}

/// A label in words.
pub open spec fn summary(l: LabelView) -> Seq<char> {
    match l {
        LabelView::Oracle { outcome, .. } => text::lossy_text(outcome),
        LabelView::Effect { name, result, .. } => name + " -> "@ + text::lossy_text(result),
        LabelView::Recv { channel, value, .. } => channel + " ? "@ + text::lossy_text(value),
        LabelView::Clock { nanos, .. } => text::decimal(nanos as nat),
        LabelView::Done { output } => text::lossy_text(output),
    }
}

/// The name of a label's kind.
pub fn label_kind(l: &TraceLabel) -> (r: &'static str)
    ensures
        r@ == kind_name(l@),
{
    match l {
        TraceLabel::Oracle { .. } => "oracle",
        TraceLabel::Effect { .. } => "effect",
        TraceLabel::Recv { .. } => "recv",
        TraceLabel::Clock { .. } => "clock",
        TraceLabel::Done { .. } => "done",
    }
}

/// The cursor of a label; the largest number for the end of the run.
pub fn label_cursor(l: &TraceLabel) -> (r: u64)
    ensures
        r == cursor_of(l@),
{
    match l {
        TraceLabel::Oracle { cursor, .. } => *cursor,
        TraceLabel::Effect { cursor, .. } => *cursor,
        TraceLabel::Recv { cursor, .. } => *cursor,
        TraceLabel::Clock { cursor, .. } => *cursor,
        TraceLabel::Done { .. } => u64::MAX,
    }
}

/// A label in words.
pub fn label_summary(l: &TraceLabel) -> (r: String)
    ensures
        r@ == summary(l@),
{
    match l {
        TraceLabel::Oracle { outcome, .. } => outcome.as_str(),
        TraceLabel::Effect { name, result, .. } => name.clone().concat(" -> ").concat(
            result.as_str().as_str(),
        ),
        TraceLabel::Recv { channel, value, .. } => channel.clone().concat(" ? ").concat(
            value.as_str().as_str(),
        ),
        TraceLabel::Clock { nanos, .. } => text::decimal_text(*nanos),
        TraceLabel::Done { output } => output.as_str(),
    }
}

/// A run's report in texts and numbers.
pub struct PlainReport {
    pub run_id: String,
    pub output: String,
    pub journal_len: u64,
    pub replayed_steps: u64,
    pub fresh_steps: u64,
    /// Hex head of the tamper-evident hash chain; none for an empty run.
    pub chain_head: Option<String>,
    /// Cursor, kind and summary of every label of the observable trace.
    pub trace: Vec<(u64, String, String)>,
}

/// Is the row what is shown of the label?
pub open spec fn shows(row: (u64, String, String), l: TraceLabel) -> bool {
    &&& row.0 == cursor_of(l@)
    &&& row.1@ == kind_name(l@)
    &&& row.2@ == summary(l@)
}

/// The report in texts and numbers.
pub fn convert_report(r: RunReport) -> (p: PlainReport)
    ensures
        p.run_id == r.run_id,
        p.output@ == text::lossy_text(r.output@),
        p.journal_len == r.journal_len,
        p.replayed_steps == r.replayed_steps,
        p.fresh_steps == r.fresh_steps,
        match p.chain_head {
            Some(h) => r.chain_head matches Some(d) && h@ == sha256::hex_spec(d@),
            None => r.chain_head is None,
        },
        p.trace@.len() == r.trace@.len(),
        forall|i: int| 0 <= i < r.trace@.len() ==> shows(#[trigger] p.trace@[i], r.trace@[i]),
{
    let mut trace: Vec<(u64, String, String)> = Vec::new();
    let mut i: usize = 0;
    while i < r.trace.len()
        invariant
            i <= r.trace@.len(),
            trace@.len() == i,
            forall|k: int| 0 <= k < i ==> shows(#[trigger] trace@[k], r.trace@[k]),
        decreases r.trace@.len() - i,
    {
        let l = &r.trace[i];
        trace.push((label_cursor(l), label_kind(l).to_owned(), label_summary(l)));
        i += 1;
    }
    PlainReport {
        output: r.output.as_str(),
        chain_head: match &r.chain_head {
            Some(h) => Some(sha256::hex(h)),
            None => None,
        },
        run_id: r.run_id,
        journal_len: r.journal_len,
        replayed_steps: r.replayed_steps,
        fresh_steps: r.fresh_steps,
        trace,
    }
}

/// How a Python callable answered.
pub enum Reply {
    /// It returned this string.
    Text(String),
    /// It returned something else; why it is no string.
    NotText(String),
    /// It raised this.
    Raised(String),
}

/// What a callable's answer amounts to: the value it returned, or a message
/// that names the callable.
pub open spec fn reply_result(role: Seq<char>, reply: Reply) -> Result<Seq<u8>, Seq<char>> {
    match reply {
        Reply::Text(s) => Ok(encode_utf8(s@)),
        Reply::NotText(e) => Err("python "@ + role + " must return str: "@ + e@),
        Reply::Raised(e) => Err("python "@ + role + " raised: "@ + e@),
    }
}

fn reply_value(role: &str, reply: Reply) -> (r: Result<Value, String>)
    ensures
        match r {
            Ok(v) => reply_result(role@, reply) == Ok::<Seq<u8>, Seq<char>>(v@),
            Err(e) => reply_result(role@, reply) == Err::<Seq<u8>, Seq<char>>(e@),
        },
{
    match reply {
        Reply::Text(s) => Ok(Value::from(s)),
        Reply::NotText(e) => Err(
            "python ".to_owned().concat(role).concat(" must return str: ").concat(e.as_str()),
        ),
        Reply::Raised(e) => Err(
            "python ".to_owned().concat(role).concat(" raised: ").concat(e.as_str()),
        ),
    }
}

/// What an oracle that answered with `reply` has drawn.
pub fn oracle_reply(reply: Reply) -> (r: Result<Value, Fault>)
    ensures
        match r {
            Ok(v) => reply_result("oracle"@, reply) == Ok::<Seq<u8>, Seq<char>>(v@),
            Err(f) => reply_result("oracle"@, reply) matches Err(m) && f@ == FaultView::OracleErr(
                m,
            ),
        },
{
    match reply_value("oracle", reply) {
        Ok(v) => Ok(v),
        Err(m) => Err(Fault::OracleErr(m)),
    }
}

/// What an effect that answered with `reply` has done.
pub fn effect_reply(reply: Reply) -> (r: Result<Value, Fault>)
    ensures
        match r {
            Ok(v) => reply_result("effect"@, reply) == Ok::<Seq<u8>, Seq<char>>(v@),
            Err(f) => reply_result("effect"@, reply) matches Err(m) && f@ == FaultView::ToolErr(m),
        },
{
    match reply_value("effect", reply) {
        Ok(v) => Ok(v),
        Err(m) => Err(Fault::ToolErr(m)),
    }
}

/// What an agent that answered with `reply` has returned.
pub fn agent_reply(reply: Reply) -> (r: Result<Value, Fault>)
    ensures
        match r {
            Ok(v) => reply_result("agent"@, reply) == Ok::<Seq<u8>, Seq<char>>(v@),
            Err(f) => reply_result("agent"@, reply) matches Err(m) && f@ == FaultView::ToolErr(m),
        },
{
    match reply_value("agent", reply) {
        Ok(v) => Ok(v),
        Err(m) => Err(Fault::ToolErr(m)),
    }
}

/// The provenance of a callable, by its name.
pub fn callable_provenance(name: Option<&str>) -> (r: String)
    ensures
        r@ == (match name {
            Some(n) => "python:"@ + n@,
            None => "python-oracle"@,
        }),
{
    match name {
        Some(n) => "python:".to_owned().concat(n),
        None => "python-oracle".to_owned(),
    }
}

} // verus!
