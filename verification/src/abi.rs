//! The rules of the C ABI: status codes, which strings cross the boundary and
//! how, and which fault a failed callback stands for.
//!
//! A nullable pointer is an `Option` here, and a C string its bytes without
//! the terminating NUL.
//!
//! A call on the context that faults records its fault. An agent callback that
//! then fails propagates the recorded fault, so that a budget fault stays a
//! budget fault instead of collapsing into a tool error; an agent that fails
//! on its own reports a tool fault with its own message.
use vstd::prelude::*;
use vstd::utf8::*;

use crate::bindings;
use crate::ctx::{LabelView, TraceLabel};
use crate::fault::{Fault, FaultView};
use crate::journal::Cursor;
use crate::runtime::RunReport;
use crate::sha256;
use crate::text;
use crate::value::Value;

verus! {

pub const PRAG_OK: i32 = 0;

pub const PRAG_ERR_ORACLE: i32 = 1;

pub const PRAG_ERR_TOOL: i32 = 2;

pub const PRAG_ERR_TIMEOUT: i32 = 3;

pub const PRAG_ERR_BUDGET: i32 = 4;

pub const PRAG_ERR_CONTRACT: i32 = 5;

pub const PRAG_ERR_CAPABILITY: i32 = 6;

pub const PRAG_ERR_ESCALATED: i32 = 7;

pub const PRAG_ERR_DESYNC: i32 = 8;

pub const PRAG_ERR_REPLAY_EXHAUSTED: i32 = 9;

pub const PRAG_ERR_IO: i32 = 10;

pub const PRAG_ERR_INVALID: i32 = 11;

pub const PRAG_ERR_PANIC: i32 = 12;

pub const PRAG_ERR_TAMPERED: i32 = 13;

pub const PRAG_TRACE_ORACLE: i32 = 0;

pub const PRAG_TRACE_EFFECT: i32 = 1;

pub const PRAG_TRACE_RECV: i32 = 2;

pub const PRAG_TRACE_CLOCK: i32 = 3;

pub const PRAG_TRACE_DONE: i32 = 4;

/// The status code of a fault.
pub open spec fn code_of(f: FaultView) -> i32 {
    match f {
        FaultView::OracleErr(_) => PRAG_ERR_ORACLE,
        FaultView::ToolErr(_) => PRAG_ERR_TOOL,
        FaultView::Timeout => PRAG_ERR_TIMEOUT,
        FaultView::BudgetExhausted => PRAG_ERR_BUDGET,
        FaultView::ContractViol(_) => PRAG_ERR_CONTRACT,
        FaultView::CapabilityDenied(_) => PRAG_ERR_CAPABILITY,
        FaultView::Escalated(_) => PRAG_ERR_ESCALATED,
        FaultView::JournalDesync { .. } => PRAG_ERR_DESYNC,
        FaultView::ReplayExhausted { .. } => PRAG_ERR_REPLAY_EXHAUSTED,
        FaultView::Io(_) => PRAG_ERR_IO,
    }
}

/// The status code of a fault.
pub fn fault_code(f: &Fault) -> (r: i32)
    ensures
        r == code_of(f@),
{
    match f {
        Fault::OracleErr(_) => PRAG_ERR_ORACLE,
        Fault::ToolErr(_) => PRAG_ERR_TOOL,
        Fault::Timeout => PRAG_ERR_TIMEOUT,
        Fault::BudgetExhausted => PRAG_ERR_BUDGET,
        Fault::ContractViol(_) => PRAG_ERR_CONTRACT,
        Fault::CapabilityDenied(_) => PRAG_ERR_CAPABILITY,
        Fault::Escalated(_) => PRAG_ERR_ESCALATED,
        Fault::JournalDesync { .. } => PRAG_ERR_DESYNC,
        Fault::ReplayExhausted { .. } => PRAG_ERR_REPLAY_EXHAUSTED,
        Fault::Io(_) => PRAG_ERR_IO,
    }
}

/// A fault never reads as success, nor as one of the codes that stand for a
/// misuse of the boundary, a panic or a broken chain.
pub proof fn law_fault_codes_are_failures(f: FaultView)
    ensures
        PRAG_OK < code_of(f) < PRAG_ERR_INVALID,
{
}

/// Faults of different tags have different codes: the code tells which fault
/// crossed the boundary.
pub proof fn law_codes_tell_faults_apart(a: FaultView, b: FaultView)
    requires
        code_of(a) == code_of(b),
    ensures
        match a {
            FaultView::OracleErr(_) => b is OracleErr,
            FaultView::ToolErr(_) => b is ToolErr,
            FaultView::Timeout => b is Timeout,
            FaultView::BudgetExhausted => b is BudgetExhausted,
            FaultView::ContractViol(_) => b is ContractViol,
            FaultView::CapabilityDenied(_) => b is CapabilityDenied,
            FaultView::Escalated(_) => b is Escalated,
            FaultView::JournalDesync { .. } => b is JournalDesync,
            FaultView::ReplayExhausted { .. } => b is ReplayExhausted,
            FaultView::Io(_) => b is Io,
        },
{
}

/// `s` as it leaves the library: a NUL would end it early, so a replacement
/// character stands in its place.
pub open spec fn crossing(s: Seq<char>) -> Seq<char> {
    s.map_values(
        |c: char|
            if c == '\0' {
                '\u{FFFD}'
            } else {
                c
            },
    )
}

/// `s` as it leaves the library.
pub fn out_text(s: &str) -> (r: String)
    ensures
        r@ == crossing(s@),
{
    let mut out = String::new();
    assert(crossing(s@.take(0)) =~= out@);
    for c in it: s.chars()
        invariant
            it.seq() == s@,
            out@ == crossing(s@.take(it.index() as int)),
    {
        let ghost k = it.index() as int;
        assert(s@[k] == c);
        if c == '\0' {
            out.push('\u{FFFD}');
        } else {
            out.push(c);
        }
        assert(out@ =~= crossing(s@.take(k + 1)));
    }
    assert(s@.take(s@.len() as int) =~= s@);
    out
}

/// No string that leaves the library holds a NUL, and one that held none
/// leaves unchanged.
pub proof fn law_crossing_has_no_nul(s: Seq<char>)
    ensures
        forall|i: int| 0 <= i < s.len() ==> #[trigger] crossing(s)[i] != '\0',
        (forall|i: int| 0 <= i < s.len() ==> #[trigger] s[i] != '\0') ==> crossing(s) == s,
{
    if forall|i: int| 0 <= i < s.len() ==> #[trigger] s[i] != '\0' {
        assert(crossing(s) =~= s);
    }
}

/// What a string that enters the library says: it must be there, and be valid
/// UTF-8.
pub open spec fn entering(s: Option<Seq<u8>>, what: Seq<char>) -> Result<Seq<char>, Seq<char>> {
    match s {
        None => Err(what + " is NULL"@),
        Some(bytes) => if valid_utf8(bytes) {
            Ok(decode_utf8(bytes))
        } else {
            Err(what + " is not valid UTF-8"@)
        },
    }
}

/// The bytes behind a nullable pointer.
pub open spec fn opt_bytes(s: Option<&[u8]>) -> Option<Seq<u8>> {
    match s {
        Some(b) => Some(b@),
        None => None,
    }
}

fn to_vec(bytes: &[u8]) -> (r: Vec<u8>)
    ensures
        r@ == bytes@,
{
    let mut out: Vec<u8> = Vec::new();
    let mut i: usize = 0;
    while i < bytes.len()
        invariant
            i <= bytes@.len(),
            out@ == bytes@.take(i as int),
        decreases bytes@.len() - i,
    {
        out.push(bytes[i]);
        assert(out@ =~= bytes@.take(i + 1));
        i += 1;
    }
    assert(bytes@.take(bytes@.len() as int) =~= bytes@);
    out
}

/// Reads a string that enters the library.
pub fn in_text(s: Option<&[u8]>, what: &str) -> (r: Result<String, String>)
    ensures
        match r {
            Ok(t) => entering(opt_bytes(s), what@) == Ok::<Seq<char>, Seq<char>>(t@),
            Err(e) => entering(opt_bytes(s), what@) == Err::<Seq<char>, Seq<char>>(e@),
        },
{
    match s {
        None => Err(what.to_owned().concat(" is NULL")),
        Some(bytes) => match text::utf8_string(to_vec(bytes)) {
            Some(t) => Ok(t),
            None => Err(what.to_owned().concat(" is not valid UTF-8")),
        },
    }
}

/// The message that a failed callback left, or `fallback`.
pub open spec fn callback_message(err: Option<Seq<u8>>, fallback: Seq<char>) -> Seq<char> {
    match err {
        Some(bytes) => text::lossy_text(bytes),
        None => fallback,
    }
}

fn message_of(err: Option<&[u8]>, fallback: &str) -> (r: String)
    ensures
        r@ == callback_message(opt_bytes(err), fallback@),
{
    match err {
        Some(bytes) => text::lossy(bytes),
        None => fallback.to_owned(),
    }
}

/// The value that a callback returned.
pub open spec fn callback_value(out: Seq<u8>) -> Seq<u8> {
    encode_utf8(text::lossy_text(out))
}

/// What an oracle callback has drawn, by the string it returned and the
/// message it left. A message beside a string is discarded.
pub fn oracle_outcome(out: Option<&[u8]>, err: Option<&[u8]>) -> (r: Result<Value, Fault>)
    ensures
        match r {
            Ok(v) => out matches Some(b) && v@ == callback_value(b@),
            Err(f) => out is None && f@ == FaultView::OracleErr(
                callback_message(opt_bytes(err), "oracle callback failed"@),
            ),
        },
{
    match out {
        Some(bytes) => Ok(Value::from(text::lossy(bytes))),
        None => Err(Fault::OracleErr(message_of(err, "oracle callback failed"))),
    }
}

/// What an effect callback has done, by the string it returned and the message
/// it left.
pub fn effect_outcome(out: Option<&[u8]>, err: Option<&[u8]>) -> (r: Result<Value, Fault>)
    ensures
        match r {
            Ok(v) => out matches Some(b) && v@ == callback_value(b@),
            Err(f) => out is None && f@ == FaultView::ToolErr(
                callback_message(opt_bytes(err), "effect callback failed"@),
            ),
        },
{
    match out {
        Some(bytes) => Ok(Value::from(text::lossy(bytes))),
        None => Err(Fault::ToolErr(message_of(err, "effect callback failed"))),
    }
}

/// The outcome of a call: its status code and its message.
pub struct Status {
    pub code: i32,
    pub message: Option<String>,
}

/// Does the status report the fault?
pub open spec fn reports_fault(s: Status, f: FaultView) -> bool {
    s.code == code_of(f) && (s.message matches Some(m) && m@ == f.message())
}

/// Does the status report a misuse of the boundary?
pub open spec fn reports_misuse(s: Status, message: Seq<char>) -> bool {
    s.code == PRAG_ERR_INVALID && (s.message matches Some(m) && m@ == message)
}

/// Does the status report success?
pub open spec fn reports_success(s: Status) -> bool {
    s.code == PRAG_OK && s.message is None
}

fn success() -> (r: Status)
    ensures
        reports_success(r),
{
    Status { code: PRAG_OK, message: None }
}

fn failure(f: &Fault) -> (r: Status)
    ensures
        reports_fault(r, f@),
{
    Status { code: fault_code(f), message: Some(f.to_string()) }
}

fn misuse(message: String) -> (r: Status)
    ensures
        reports_misuse(r, message@),
{
    Status { code: PRAG_ERR_INVALID, message: Some(message) }
}

/// What an agent callback holds: the context of its attempt, while that lasts,
/// and the last fault that a call on it hit.
pub struct PragCtx {
    /// False once the attempt is over: a reference that is kept around fails
    /// loudly.
    pub open: bool,
    /// The fault of the last call, cleared by the next call that succeeds.
    pub pending: Option<Fault>,
}

/// Why a call on the context is refused, if it is.
pub open spec fn refused(ctx: Option<&PragCtx>) -> Option<Seq<char>> {
    match ctx {
        None => Some("ctx is NULL"@),
        Some(c) => if c.open {
            None
        } else {
            Some("ctx used outside its run"@)
        },
    }
}

/// May a call on the context go ahead?
pub fn prag_ctx_ready(ctx: Option<&PragCtx>) -> (r: Result<(), String>)
    ensures
        match r {
            Ok(()) => refused(ctx) is None,
            Err(m) => refused(ctx) == Some(m@),
        },
{
    match ctx {
        None => Err("ctx is NULL".to_owned()),
        Some(c) => if c.open {
            Ok(())
        } else {
            Err("ctx used outside its run".to_owned())
        },
    }
}

/// 1 while steps are served from the journal, 0 while they are recorded, -1 if
/// the context is invalid.
pub fn prag_ctx_is_replaying(ctx: Option<&PragCtx>, replaying: bool) -> (r: i32)
    ensures
        r == (if refused(ctx) is Some {
            -1i32
        } else if replaying {
            1i32
        } else {
            0i32
        }),
{
    match prag_ctx_ready(ctx) {
        Err(_) => -1,
        Ok(()) => if replaying {
            1
        } else {
            0
        },
    }
}

impl PragCtx {
    /// The state of a fresh attempt.
    pub fn new() -> (r: Self)
        ensures
            r.open && r.pending is None,
    {
        PragCtx { open: true, pending: None }
    }

    /// Takes note of how a call that returns a string went: what the caller
    /// gets, or the message of the fault.
    pub fn value_call(&mut self, result: Result<Value, Fault>) -> (r: Result<String, String>)
        ensures
            final(self).open == old(self).open,
            match result {
                Ok(v) => final(self).pending is None && (r matches Ok(s) && s@ == text::lossy_text(
                    v@,
                )),
                Err(f) => final(self).pending == Some(f) && (r matches Err(m) && m@
                    == f@.message()),
            },
    {
        match result {
            Ok(v) => {
                self.pending = None;
                Ok(v.as_str())
            },
            Err(f) => {
                let m = f.to_string();
                self.pending = Some(f);
                Err(m)
            },
        }
    }

    /// Takes note of how a clock read went.
    pub fn clock_call(&mut self, result: Result<u64, Fault>) -> (r: Result<u64, Status>)
        ensures
            final(self).open == old(self).open,
            match result {
                Ok(n) => final(self).pending is None && r == Ok::<u64, Status>(n),
                Err(f) => final(self).pending == Some(f) && (r matches Err(s) && reports_fault(
                    s,
                    f@,
                )),
            },
    {
        match result {
            Ok(n) => {
                self.pending = None;
                Ok(n)
            },
            Err(f) => {
                let s = failure(&f);
                self.pending = Some(f);
                Err(s)
            },
        }
    }

    /// Takes note of how a contract went.
    pub fn contract_call(&mut self, result: Result<(), Fault>) -> (r: Status)
        ensures
            final(self).open == old(self).open,
            match result {
                Ok(()) => final(self).pending is None && reports_success(r),
                Err(f) => final(self).pending == Some(f) && reports_fault(r, f@),
            },
    {
        match result {
            Ok(()) => {
                self.pending = None;
                success()
            },
            Err(f) => {
                let s = failure(&f);
                self.pending = Some(f);
                s
            },
        }
    }

    /// Ends the attempt: what the agent returned, by the string its callback
    /// returned and the message it left. A fault that is still pending goes
    /// before the message.
    pub fn finish(&mut self, out: Option<&[u8]>, err: Option<&[u8]>) -> (r: Result<Value, Fault>)
        ensures
            !final(self).open,
            match r {
                Ok(v) => out matches Some(b) && v@ == callback_value(b@),
                Err(f) => out is None && (match old(self).pending {
                    Some(p) => f == p,
                    None => f@ == FaultView::ToolErr(
                        callback_message(opt_bytes(err), "agent callback failed"@),
                    ),
                }),
            },
    {
        self.open = false;
        match out {
            Some(bytes) => Ok(Value::from(text::lossy(bytes))),
            None => match self.pending.take() {
                Some(fault) => Err(fault),
                None => Err(Fault::ToolErr(message_of(err, "agent callback failed"))),
            },
        }
    }
}

/// Asserts an agent contract. The message is read before the context, which
/// may be missing, is looked at.
pub fn prag_ctx_contract(ctx: &mut Option<PragCtx>, holds: bool, msg: Option<&[u8]>) -> (r: Status)
    ensures
        match (entering(opt_bytes(msg), "msg"@), *old(ctx)) {
            (Err(m), _) => reports_misuse(r, m) && *final(ctx) == *old(ctx),
            (Ok(_), None) => reports_misuse(r, "ctx is NULL"@) && *final(ctx) is None,
            (Ok(m), Some(c)) => if !c.open {
                reports_misuse(r, "ctx used outside its run"@) && *final(ctx) == *old(ctx)
            } else if holds {
                reports_success(r) && *final(ctx) == Some(PragCtx { open: true, pending: None })
            } else {
                reports_fault(r, FaultView::ContractViol(m)) && (*final(ctx) matches Some(d)
                    && d.open && (d.pending matches Some(f) && f@ == FaultView::ContractViol(m)))
            },
        },
{
    let msg = match in_text(msg, "msg") {
        Ok(m) => m,
        Err(m) => {
            return misuse(m);
        },
    };
    match ctx {
        None => misuse("ctx is NULL".to_owned()),
        Some(c) => if !c.open {
            misuse("ctx used outside its run".to_owned())
        } else {
            let result: Result<(), Fault> = if holds {
                Ok(())
            } else {
                Err(Fault::ContractViol(msg))
            };
            c.contract_call(result)
        },
    }
}

/// A run that is asked for across the boundary: its id, if there is a runtime
/// and the id can be read.
pub fn prag_run_id(has_runtime: bool, run_id: Option<&[u8]>) -> (r: Result<String, Status>)
    ensures
        match r {
            Ok(id) => has_runtime && entering(opt_bytes(run_id), "run_id"@) == Ok::<
                Seq<char>,
                Seq<char>,
            >(id@),
            Err(s) => if !has_runtime {
                reports_misuse(s, "runtime is NULL"@)
            } else {
                entering(opt_bytes(run_id), "run_id"@) matches Err(m) && reports_misuse(s, m)
            },
        },
{
    if !has_runtime {
        return Err(misuse("runtime is NULL".to_owned()));
    }
    match in_text(run_id, "run_id") {
        Ok(id) => Ok(id),
        Err(m) => Err(misuse(m)),
    }
}

/// How an attempt went: its report and status. No result at all means that it
/// panicked.
pub fn prag_run_status(result: Option<Result<RunReport, Fault>>) -> (r: (
    Option<PragReport>,
    Status,
))
    ensures
        match result {
            Some(Ok(report)) => r.0 == Some(PragReport { inner: report }) && reports_success(r.1),
            Some(Err(f)) => r.0 is None && reports_fault(r.1, f@),
            None => r.0 is None && r.1.code == PRAG_ERR_PANIC && (r.1.message matches Some(m) && m@
                == "runtime panicked"@),
        },
{
    match result {
        Some(Ok(report)) => (Some(PragReport { inner: report }), success()),
        Some(Err(f)) => (None, failure(&f)),
        None => (
            None,
            Status { code: PRAG_ERR_PANIC, message: Some("runtime panicked".to_owned()) },
        ),
    }
}

/// How the walk along a chain went: the first tampered entry, if there is one,
/// and the status.
pub fn prag_verify_status(result: Result<Result<(), Cursor>, Fault>) -> (r: (
    Option<Cursor>,
    Status,
))
    ensures
        match result {
            Ok(Ok(())) => r.0 is None && reports_success(r.1),
            Ok(Err(c)) => r.0 == Some(c) && r.1.code == PRAG_ERR_TAMPERED && (
            r.1.message matches Some(m) && m@ == "hash chain broken at cursor "@ + text::decimal(
                c as nat,
            )),
            Err(f) => r.0 is None && reports_fault(r.1, f@),
        },
{
    match result {
        Ok(Ok(())) => (None, success()),
        Ok(Err(c)) => (
            Some(c),
            Status {
                code: PRAG_ERR_TAMPERED,
                message: Some(
                    "hash chain broken at cursor ".to_owned().concat(
                        text::decimal_text(c).as_str(),
                    ),
                ),
            },
        ),
        Err(f) => (None, failure(&f)),
    }
}

/// What is delivered to the inbox of a run: run, channel and value. Nothing,
/// if there is no runtime or one of them cannot be read.
pub fn prag_message(
    has_runtime: bool,
    run_id: Option<&[u8]>,
    channel: Option<&[u8]>,
    value: Option<&[u8]>,
) -> (r: Option<(String, String, String)>)
    ensures
        match r {
            Some(m) => {
                &&& has_runtime
                &&& entering(opt_bytes(run_id), "run_id"@) == Ok::<Seq<char>, Seq<char>>(m.0@)
                &&& entering(opt_bytes(channel), "channel"@) == Ok::<Seq<char>, Seq<char>>(m.1@)
                &&& entering(opt_bytes(value), "value"@) == Ok::<Seq<char>, Seq<char>>(m.2@)
            },
            None => !has_runtime || entering(opt_bytes(run_id), "run_id"@) is Err || entering(
                opt_bytes(channel),
                "channel"@,
            ) is Err || entering(opt_bytes(value), "value"@) is Err,
        },
{
    if !has_runtime {
        return None;
    }
    match (in_text(run_id, "run_id"), in_text(channel, "channel"), in_text(value, "value")) {
        (Ok(r), Ok(c), Ok(v)) => Some((r, c, v)),
        _ => None,
    }
}

/// The result of driving one run to completion.
pub struct PragReport {
    pub inner: RunReport,
}

/// The agent's output.
pub fn prag_report_output(r: Option<&PragReport>) -> (s: Option<String>)
    ensures
        match r {
            Some(p) => s matches Some(t) && t@ == text::lossy_text(p.inner.output@),
            None => s is None,
        },
{
    match r {
        Some(p) => Some(p.inner.output.as_str()),
        None => None,
    }
}

/// The run id.
pub fn prag_report_run_id(r: Option<&PragReport>) -> (s: Option<String>)
    ensures
        match r {
            Some(p) => s matches Some(t) && t@ == p.inner.run_id@,
            None => s is None,
        },
{
    match r {
        Some(p) => Some(p.inner.run_id.clone()),
        None => None,
    }
}

/// Hex head of the tamper-evident hash chain; none for an empty run.
pub fn prag_report_chain_head(r: Option<&PragReport>) -> (s: Option<String>)
    ensures
        match r {
            Some(p) => match p.inner.chain_head {
                Some(d) => s matches Some(t) && t@ == sha256::hex_spec(d@),
                None => s is None,
            },
            None => s is None,
        },
{
    match r {
        Some(p) => match &p.inner.chain_head {
            Some(d) => Some(sha256::hex(d)),
            None => None,
        },
        None => None,
    }
}

/// The length of the journal.
pub fn prag_report_journal_len(r: Option<&PragReport>) -> (n: u64)
    ensures
        n == (match r {
            Some(p) => p.inner.journal_len,
            None => 0u64,
        }),
{
    match r {
        Some(p) => p.inner.journal_len,
        None => 0,
    }
}

/// Steps served from the journal this attempt.
pub fn prag_report_replayed_steps(r: Option<&PragReport>) -> (n: u64)
    ensures
        n == (match r {
            Some(p) => p.inner.replayed_steps,
            None => 0u64,
        }),
{
    match r {
        Some(p) => p.inner.replayed_steps,
        None => 0,
    }
}

/// Model calls recorded fresh this attempt.
pub fn prag_report_fresh_steps(r: Option<&PragReport>) -> (n: u64)
    ensures
        n == (match r {
            Some(p) => p.inner.fresh_steps,
            None => 0u64,
        }),
{
    match r {
        Some(p) => p.inner.fresh_steps,
        None => 0,
    }
}

/// Number of labels in the observable trace.
pub fn prag_report_trace_len(r: Option<&PragReport>) -> (n: u64)
    ensures
        n == (match r {
            Some(p) => p.inner.trace@.len(),
            None => 0nat,
        }),
{
    match r {
        Some(p) => p.inner.trace.len() as u64,
        None => 0,
    }
}

/// The label with this index, if there is one.
pub open spec fn label_at(r: Option<&PragReport>, i: u64) -> Option<LabelView> {
    match r {
        Some(p) => if i < p.inner.trace@.len() {
            Some(p.inner.trace@[i as int]@)
        } else {
            None
        },
        None => None,
    }
}

fn find_label(r: Option<&PragReport>, i: u64) -> (l: Option<&TraceLabel>)
    ensures
        match l {
            Some(t) => label_at(r, i) == Some(t@),
            None => label_at(r, i) is None,
        },
{
    match r {
        Some(p) => if i < p.inner.trace.len() as u64 {
            Some(&p.inner.trace[i as usize])
        } else {
            None
        },
        None => None,
    }
}

/// The code of a label's kind.
pub open spec fn kind_code(l: LabelView) -> i32 {
    match l {
        LabelView::Oracle { .. } => PRAG_TRACE_ORACLE,
        LabelView::Effect { .. } => PRAG_TRACE_EFFECT,
        LabelView::Recv { .. } => PRAG_TRACE_RECV,
        LabelView::Clock { .. } => PRAG_TRACE_CLOCK,
        LabelView::Done { .. } => PRAG_TRACE_DONE,
    }
}

/// The code of the kind of label `i`, or -1 out of range.
pub fn prag_report_trace_kind(r: Option<&PragReport>, i: u64) -> (k: i32)
    ensures
        k == (match label_at(r, i) {
            Some(l) => kind_code(l),
            None => -1i32,
        }),
{
    match find_label(r, i) {
        Some(TraceLabel::Oracle { .. }) => PRAG_TRACE_ORACLE,
        Some(TraceLabel::Effect { .. }) => PRAG_TRACE_EFFECT,
        Some(TraceLabel::Recv { .. }) => PRAG_TRACE_RECV,
        Some(TraceLabel::Clock { .. }) => PRAG_TRACE_CLOCK,
        Some(TraceLabel::Done { .. }) => PRAG_TRACE_DONE,
        None => -1,
    }
}

/// The journal cursor of label `i`; the largest number for the end of the run
/// and out of range.
pub fn prag_report_trace_cursor(r: Option<&PragReport>, i: u64) -> (c: u64)
    ensures
        c == (match label_at(r, i) {
            Some(l) => bindings::cursor_of(l),
            None => u64::MAX as nat,
        }),
{
    match find_label(r, i) {
        Some(l) => bindings::label_cursor(l),
        None => u64::MAX,
    }
}

/// Label `i` in words, if it is in range.
pub fn prag_report_trace_summary(r: Option<&PragReport>, i: u64) -> (s: Option<String>)
    ensures
        match label_at(r, i) {
            Some(l) => s matches Some(t) && t@ == bindings::summary(l),
            None => s is None,
        },
{
    match find_label(r, i) {
        Some(l) => Some(bindings::label_summary(l)),
        None => None,
    }
}

/// Only a NUL is replaced in a string that leaves the library, and nothing is
/// added or dropped.
pub proof fn law_crossing_replaces_nuls_only(s: Seq<char>, i: int)
    ensures
        crossing(s).len() == s.len(),
        0 <= i < s.len() && s[i] != '\0' ==> crossing(s)[i] == s[i],
        0 <= i < s.len() && s[i] == '\0' ==> crossing(s)[i] == '\u{FFFD}',
{
}

} // verus!
