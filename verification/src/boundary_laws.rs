//! What crosses the boundary to other languages, told by what goes in and what
//! comes out.
use vstd::prelude::*;
use vstd::utf8::*;

use crate::abi;
use crate::abi::{PragCtx, PragReport, Status};
use crate::bindings;
use crate::bindings::{PlainReport, Reply};
use crate::ctx::TraceLabel;
use crate::fault::Fault;
use crate::journal::Cursor;
use crate::runtime::RunReport;
use crate::sha256;
use crate::text;
use crate::value::Value;

verus! {

/// The published status code of every fault.
pub proof fn law_published_fault_codes(f: &Fault, code: i32)
    requires
        call_ensures(abi::fault_code, (f,), code),
    ensures
        f is OracleErr <==> code == 1,
        f is ToolErr <==> code == 2,
        f is Timeout <==> code == 3,
        f is BudgetExhausted <==> code == 4,
        f is ContractViol <==> code == 5,
        f is CapabilityDenied <==> code == 6,
        f is Escalated <==> code == 7,
        f is JournalDesync <==> code == 8,
        f is ReplayExhausted <==> code == 9,
        f is Io <==> code == 10,
{
}

/// The published codes of the kinds of labels, and what an index beyond the
/// trace, or no report at all, is answered.
pub proof fn law_published_label_codes(r: Option<&PragReport>, i: u64, kind: i32, cursor: u64)
    requires
        call_ensures(abi::prag_report_trace_kind, (r, i), kind),
        call_ensures(abi::prag_report_trace_cursor, (r, i), cursor),
    ensures
        r is None || i >= r->0.inner.trace@.len() ==> kind == -1 && cursor == u64::MAX,
        r matches Some(p) ==> i < p.inner.trace@.len() ==> match p.inner.trace@[i as int] {
            TraceLabel::Oracle { cursor: c, .. } => kind == 0 && cursor == c,
            TraceLabel::Effect { cursor: c, .. } => kind == 1 && cursor == c,
            TraceLabel::Recv { cursor: c, .. } => kind == 2 && cursor == c,
            TraceLabel::Clock { cursor: c, .. } => kind == 3 && cursor == c,
            TraceLabel::Done { .. } => kind == 4 && cursor == u64::MAX,
        },
{
}

/// What a label says in words: the outcome of a draw, the name and the result
/// of an effect, the channel and the value of a receive, the time of a clock
/// read, the output of the run. Its kind and its cursor are shown beside it.
pub proof fn law_label_is_shown(l: &TraceLabel, kind: &'static str, cursor: u64, words: String)
    requires
        call_ensures(bindings::label_kind, (l,), kind),
        call_ensures(bindings::label_cursor, (l,), cursor),
        call_ensures(bindings::label_summary, (l,), words),
    ensures
        match *l {
            TraceLabel::Oracle { cursor: c, outcome } => kind@ == "oracle"@ && cursor == c && words@
                == text::lossy_text(outcome@),
            TraceLabel::Effect { cursor: c, name, result } => kind@ == "effect"@ && cursor == c
                && name@.is_prefix_of(words@) && text::lossy_text(result@).is_suffix_of(words@)
                && words@.len() == name@.len() + 4 + text::lossy_text(result@).len(),
            TraceLabel::Recv { cursor: c, channel, value } => kind@ == "recv"@ && cursor == c
                && channel@.is_prefix_of(words@) && text::lossy_text(value@).is_suffix_of(words@)
                && words@.len() == channel@.len() + 3 + text::lossy_text(value@).len(),
            TraceLabel::Clock { cursor: c, nanos } => kind@ == "clock"@ && cursor == c && words@
                == text::decimal(nanos as nat),
            TraceLabel::Done { output } => kind@ == "done"@ && cursor == u64::MAX && words@
                == text::lossy_text(output@),
        },
{
    reveal_strlit(" -> ");
    reveal_strlit(" ? ");
    match *l {
        TraceLabel::Effect { cursor: c, name, result } => {
            let t = text::lossy_text(result@);
            let s = name@ + " -> "@ + t;
            assert(s.take(name@.len() as int) =~= name@);
            assert(s.skip(s.len() - t.len()) =~= t);
        },
        TraceLabel::Recv { cursor: c, channel, value } => {
            let t = text::lossy_text(value@);
            let s = channel@ + " ? "@ + t;
            assert(s.take(channel@.len() as int) =~= channel@);
            assert(s.skip(s.len() - t.len()) =~= t);
        },
        _ => {},
    }
}

/// A converted report tells what the report tells: the same run, the text of
/// the output, the same counts, the head of the chain in hexadecimal, and every
/// label of the trace, in order.
pub proof fn law_report_is_converted_whole(
    r: RunReport,
    p: PlainReport,
    i: int,
    kind: &'static str,
    cursor: u64,
    words: String,
)
    requires
        call_ensures(bindings::convert_report, (r,), p),
        0 <= i < r.trace@.len() ==> call_ensures(bindings::label_kind, (&r.trace@[i],), kind)
            && call_ensures(bindings::label_cursor, (&r.trace@[i],), cursor) && call_ensures(
            bindings::label_summary,
            (&r.trace@[i],),
            words,
        ),
    ensures
        p.run_id@ == r.run_id@,
        p.output@ == text::lossy_text(r.output@),
        p.journal_len == r.journal_len,
        p.replayed_steps == r.replayed_steps,
        p.fresh_steps == r.fresh_steps,
        p.chain_head is Some <==> r.chain_head is Some,
        r.chain_head matches Some(d) ==> p.chain_head->0@ == sha256::hex_spec(d@),
        p.trace@.len() == r.trace@.len(),
        0 <= i < r.trace@.len() ==> p.trace@[i].0 == cursor && p.trace@[i].1@ == kind@
            && p.trace@[i].2@ == words@,
{
    if 0 <= i < r.trace@.len() {
        assert(bindings::shows(p.trace@[i], r.trace@[i]));
    }
}

/// What a report tells across the boundary is what it holds, and a missing
/// report tells nothing.
pub proof fn law_report_is_read_as_it_is(
    r: Option<&PragReport>,
    output: Option<String>,
    run_id: Option<String>,
    head: Option<String>,
    len: u64,
    replayed: u64,
    fresh: u64,
    labels: u64,
)
    requires
        call_ensures(abi::prag_report_output, (r,), output),
        call_ensures(abi::prag_report_run_id, (r,), run_id),
        call_ensures(abi::prag_report_chain_head, (r,), head),
        call_ensures(abi::prag_report_journal_len, (r,), len),
        call_ensures(abi::prag_report_replayed_steps, (r,), replayed),
        call_ensures(abi::prag_report_fresh_steps, (r,), fresh),
        call_ensures(abi::prag_report_trace_len, (r,), labels),
    ensures
        match r {
            Some(p) => {
                &&& output is Some && output->0@ == text::lossy_text(p.inner.output@)
                &&& run_id is Some && run_id->0@ == p.inner.run_id@
                &&& head is Some <==> p.inner.chain_head is Some
                &&& p.inner.chain_head matches Some(d) ==> head->0@ == sha256::hex_spec(d@)
                &&& len == p.inner.journal_len
                &&& replayed == p.inner.replayed_steps
                &&& fresh == p.inner.fresh_steps
                &&& labels == p.inner.trace@.len()
            },
            None => output is None && run_id is None && head is None && len == 0 && replayed == 0
                && fresh == 0 && labels == 0,
        },
{
}

/// The fault that a call on the context hit is what a failed agent callback
/// stands for, whatever message the callback leaves: it is neither lost nor
/// replaced.
pub proof fn law_pending_fault_is_propagated(
    a: PragCtx,
    b: PragCtx,
    c: PragCtx,
    fault: Fault,
    told: Result<String, String>,
    err: Option<&[u8]>,
    ended: Result<Value, Fault>,
)
    requires
        exists|x: &mut PragCtx| #[trigger]
            call_ensures(PragCtx::value_call, (x, Err::<Value, Fault>(fault)), told) && *x == a
                && *final(x) == b,
        exists|y: &mut PragCtx| #[trigger]
            call_ensures(PragCtx::finish, (y, None::<&[u8]>, err), ended) && *y == b && *final(y)
                == c,
    ensures
        told is Err,
        ended == Err::<Value, Fault>(fault),
        !c.open,
{
    let x = choose|x: &mut PragCtx| #[trigger]
        call_ensures(PragCtx::value_call, (x, Err::<Value, Fault>(fault)), told) && *x == a
            && *final(x) == b;
    assert(call_ensures(PragCtx::value_call, (x, Err::<Value, Fault>(fault)), told));
    let y = choose|y: &mut PragCtx| #[trigger]
        call_ensures(PragCtx::finish, (y, None::<&[u8]>, err), ended) && *y == b && *final(y) == c;
    assert(call_ensures(PragCtx::finish, (y, None::<&[u8]>, err), ended));
}

/// A call that succeeds clears the fault of an earlier one: an agent callback
/// that fails afterwards reports a tool fault with the message that it left.
pub proof fn law_success_clears_the_pending_fault(
    a: PragCtx,
    b: PragCtx,
    value: Value,
    told: Result<String, String>,
    err: Option<&[u8]>,
    ended: Result<Value, Fault>,
)
    requires
        exists|x: &mut PragCtx| #[trigger]
            call_ensures(PragCtx::value_call, (x, Ok::<Value, Fault>(value)), told) && *x == a
                && *final(x) == b,
        exists|y: &mut PragCtx| #[trigger]
            call_ensures(PragCtx::finish, (y, None::<&[u8]>, err), ended) && *y == b,
    ensures
        told matches Ok(s) && s@ == text::lossy_text(value@),
        b.open == a.open,
        ended matches Err(Fault::ToolErr(m)) && m@ == (match err {
            Some(bytes) => text::lossy_text(bytes@),
            None => "agent callback failed"@,
        }),
{
    let x = choose|x: &mut PragCtx| #[trigger]
        call_ensures(PragCtx::value_call, (x, Ok::<Value, Fault>(value)), told) && *x == a
            && *final(x) == b;
    assert(call_ensures(PragCtx::value_call, (x, Ok::<Value, Fault>(value)), told));
    let y = choose|y: &mut PragCtx| #[trigger]
        call_ensures(PragCtx::finish, (y, None::<&[u8]>, err), ended) && *y == b;
    assert(call_ensures(PragCtx::finish, (y, None::<&[u8]>, err), ended));
    assert(ended->Err_0@ is ToolErr);
}

/// What an agent callback returns is the output of the attempt, even if a fault
/// is still pending.
pub proof fn law_returned_text_is_the_output(
    a: PragCtx,
    bytes: &[u8],
    err: Option<&[u8]>,
    ended: Result<Value, Fault>,
)
    requires
        exists|y: &mut PragCtx| #[trigger]
            call_ensures(PragCtx::finish, (y, Some(bytes), err), ended) && *y == a,
    ensures
        ended matches Ok(v) && v@ == encode_utf8(text::lossy_text(bytes@)),
{
    let y = choose|y: &mut PragCtx| #[trigger]
        call_ensures(PragCtx::finish, (y, Some(bytes), err), ended) && *y == a;
    assert(call_ensures(PragCtx::finish, (y, Some(bytes), err), ended));
}

/// A call on the context goes ahead if and only if there is one and its attempt
/// is not over.
pub proof fn law_context_is_usable_during_its_run(
    c: Option<&PragCtx>,
    r: Result<(), String>,
    replaying: bool,
    answer: i32,
)
    requires
        call_ensures(abi::prag_ctx_ready, (c,), r),
        call_ensures(abi::prag_ctx_is_replaying, (c, replaying), answer),
    ensures
        r is Ok <==> c is Some && c->0.open,
        r is Ok ==> (answer == 1 <==> replaying) && (answer == 0 <==> !replaying),
        r is Err ==> answer == -1,
{
}

/// A string that an oracle or an effect callback returned is its outcome. A
/// callback that returned none has failed: the oracle's is a fault of the
/// model, the effect's one of the tool, with the message that was left.
pub proof fn law_callbacks_succeed_or_fail(
    out: Option<&[u8]>,
    err: Option<&[u8]>,
    drawn: Result<Value, Fault>,
    done: Result<Value, Fault>,
)
    requires
        call_ensures(abi::oracle_outcome, (out, err), drawn),
        call_ensures(abi::effect_outcome, (out, err), done),
    ensures
        match out {
            Some(b) => (drawn matches Ok(v) && v@ == encode_utf8(text::lossy_text(b@))) && (
            done matches Ok(v) && v@ == encode_utf8(text::lossy_text(b@))),
            None => (drawn matches Err(Fault::OracleErr(m)) && (err matches Some(b) ==> m@
                == text::lossy_text(b@)) && (err is None ==> m@ == "oracle callback failed"@)) && (
            done matches Err(Fault::ToolErr(m)) && (err matches Some(b) ==> m@ == text::lossy_text(
                b@,
            )) && (err is None ==> m@ == "effect callback failed"@)),
        },
{
    if out is None {
        assert(drawn->Err_0@ is OracleErr);
        assert(done->Err_0@ is ToolErr);
    }
}

/// A string enters the library if and only if it is there and is valid UTF-8,
/// and means what it encodes; why it does not enter names it.
pub proof fn law_valid_text_enters(s: Option<&[u8]>, what: &str, r: Result<String, String>)
    requires
        call_ensures(abi::in_text, (s, what), r),
    ensures
        r is Ok <==> s is Some && valid_utf8(s->0@),
        r matches Ok(t) ==> t@ == decode_utf8(s->0@),
        r matches Err(e) ==> what@.is_prefix_of(e@),
{
    if let Err(e) = r {
        assert((what@ + " is NULL"@).take(what@.len() as int) =~= what@);
        assert((what@ + " is not valid UTF-8"@).take(what@.len() as int) =~= what@);
    }
}

/// The status of an attempt: nothing but success is 0, a fault is told by its
/// code and its message and gives no report, and a panic has a code of its own.
pub proof fn law_run_status(
    result: Option<Result<RunReport, Fault>>,
    r: (Option<PragReport>, Status),
    code: i32,
)
    requires
        call_ensures(abi::prag_run_status, (result,), r),
        result matches Some(Err(f)) ==> call_ensures(abi::fault_code, (&f,), code),
    ensures
        r.1.code == 0 <==> (result is Some && result->0 is Ok),
        r.0 is Some <==> r.1.code == 0,
        result matches Some(Ok(report)) ==> r.0->0.inner == report && r.1.message is None,
        result matches Some(Err(f)) ==> r.1.code == code && (r.1.message matches Some(m) && m@
            == f@.message()),
        result is None ==> r.1.code == 12,
{
}

/// The status of a walk along a chain: 0 for an intact one, the tampered entry
/// and a code of its own for a broken one, and the fault's code for a journal
/// that is not there.
pub proof fn law_verify_status(
    result: Result<Result<(), Cursor>, Fault>,
    r: (Option<Cursor>, Status),
    code: i32,
)
    requires
        call_ensures(abi::prag_verify_status, (result,), r),
        result matches Err(f) ==> call_ensures(abi::fault_code, (&f,), code),
    ensures
        r.1.code == 0 <==> (result matches Ok(x) && x is Ok),
        result matches Ok(Err(c)) ==> r.0 == Some(c) && r.1.code == 13 && (r.1.message matches Some(
            m,
        ) && text::decimal(c as nat).is_suffix_of(m@)),
        result is Err ==> r.0 is None && r.1.code == code,
        r.0 is Some ==> result is Ok && result->Ok_0 is Err,
{
    if let Ok(Err(c)) = result {
        let n = text::decimal(c as nat);
        let m = "hash chain broken at cursor "@ + n;
        assert(m.skip(m.len() - n.len()) =~= n);
    }
}

/// A contract that holds leaves no mark; one that does not is a fault with its
/// message, which stays pending. Nothing is looked at without a message, and
/// nothing is noted without a context that is in use.
pub proof fn law_contract_is_checked(
    a: Option<PragCtx>,
    b: Option<PragCtx>,
    holds: bool,
    msg: Option<&[u8]>,
    r: Status,
)
    requires
        exists|x: &mut Option<PragCtx>| #[trigger]
            call_ensures(abi::prag_ctx_contract, (x, holds, msg), r) && *x == a && *final(x) == b,
    ensures
        ({
            let readable = msg is Some && valid_utf8(msg->0@);
            let usable = a is Some && a->0.open;
            &&& r.code == 0 <==> readable && usable && holds
            &&& !readable || !usable ==> r.code == 11 && b == a
            &&& readable && usable && !holds ==> r.code == 5 && (b matches Some(c) && c.open && (
            c.pending matches Some(Fault::ContractViol(m)) && m@ == decode_utf8(msg->0@)))
            &&& readable && usable && holds ==> (b matches Some(c) && c.open && c.pending is None)
        }),
{
    let x = choose|x: &mut Option<PragCtx>| #[trigger]
        call_ensures(abi::prag_ctx_contract, (x, holds, msg), r) && *x == a && *final(x) == b;
    assert(call_ensures(abi::prag_ctx_contract, (x, holds, msg), r));
    if let Some(c) = b {
        if let Some(f) = c.pending {
            assert(f@ is ContractViol ==> f is ContractViol);
        }
    }
}

/// A run id and a message are taken if and only if there is a runtime and every
/// string can be read, and each part is what its own string says.
pub proof fn law_messages_are_taken_whole(
    has_runtime: bool,
    run_id: Option<&[u8]>,
    channel: Option<&[u8]>,
    value: Option<&[u8]>,
    id: Result<String, Status>,
    m: Option<(String, String, String)>,
)
    requires
        call_ensures(abi::prag_run_id, (has_runtime, run_id), id),
        call_ensures(abi::prag_message, (has_runtime, run_id, channel, value), m),
    ensures
        id is Ok <==> has_runtime && run_id is Some && valid_utf8(run_id->0@),
        id matches Ok(s) ==> s@ == decode_utf8(run_id->0@),
        id matches Err(s) ==> s.code == 11,
        m is Some <==> has_runtime && run_id is Some && valid_utf8(run_id->0@) && channel is Some
            && valid_utf8(channel->0@) && value is Some && valid_utf8(value->0@),
        m matches Some(x) ==> x.0@ == decode_utf8(run_id->0@) && x.1@ == decode_utf8(channel->0@)
            && x.2@ == decode_utf8(value->0@),
{
}

/// A callable that returned a string has drawn, done or returned it; one that
/// raised, or returned something else, has failed with what it raised: the
/// oracle as a model, the effect and the agent as a tool.
pub proof fn law_callable_replies(
    reply: Reply,
    drawn: Result<Value, Fault>,
    done: Result<Value, Fault>,
    ended: Result<Value, Fault>,
)
    requires
        call_ensures(bindings::oracle_reply, (reply,), drawn),
        call_ensures(bindings::effect_reply, (reply,), done),
        call_ensures(bindings::agent_reply, (reply,), ended),
    ensures
        match reply {
            Reply::Text(s) => (drawn matches Ok(v) && v@ == encode_utf8(s@)) && (done matches Ok(v)
                && v@ == encode_utf8(s@)) && (ended matches Ok(v) && v@ == encode_utf8(s@)),
            Reply::NotText(e) | Reply::Raised(e) => (drawn matches Err(Fault::OracleErr(m))
                && e@.is_suffix_of(m@) && text::holds(m@, "oracle"@)) && (done matches Err(
                Fault::ToolErr(m),
            ) && e@.is_suffix_of(m@) && text::holds(m@, "effect"@)) && (ended matches Err(
                Fault::ToolErr(m),
            ) && e@.is_suffix_of(m@) && text::holds(m@, "agent"@)),
        },
{
    if reply !is Text {
        lemma_reply("oracle"@, reply);
        lemma_reply("effect"@, reply);
        lemma_reply("agent"@, reply);
        assert(drawn->Err_0@ is OracleErr);
        assert(done->Err_0@ is ToolErr);
        assert(ended->Err_0@ is ToolErr);
    }
}

proof fn lemma_reply(role: Seq<char>, reply: Reply)
    requires
        reply !is Text,
    ensures
        bindings::reply_result(role, reply) matches Err(m) && text::holds(m, role) && (match reply {
            Reply::NotText(e) | Reply::Raised(e) => e@.is_suffix_of(m),
            Reply::Text(s) => true,
        }),
{
    let m = bindings::reply_result(role, reply)->Err_0;
    text::lemma_holds_itself(role);
    text::lemma_holds_in_sum("python "@, role, role);
    match reply {
        Reply::NotText(e) => {
            text::lemma_holds_in_sum("python "@ + role, " must return str: "@, role);
            text::lemma_holds_in_sum("python "@ + role + " must return str: "@, e@, role);
            assert(m.skip(m.len() - e@.len()) =~= e@);
        },
        Reply::Raised(e) => {
            text::lemma_holds_in_sum("python "@ + role, " raised: "@, role);
            text::lemma_holds_in_sum("python "@ + role + " raised: "@, e@, role);
            assert(m.skip(m.len() - e@.len()) =~= e@);
        },
        _ => {},
    }
}

/// The message of a fault tells its kind first and then all that the fault
/// holds: its own message comes last, and so does that of the fault that was
/// escalated; a desync tells where it is, what was asked for and what was
/// found.
pub proof fn law_fault_message_tells_the_fault(f: &Fault, m: String)
    requires
        call_ensures(Fault::to_string, (f,), m),
    ensures
        match *f {
            Fault::OracleErr(s) => m@ == "oracle error: "@ + s@,
            Fault::ToolErr(s) => m@ == "tool error: "@ + s@,
            Fault::Timeout => m@ == "timeout"@,
            Fault::BudgetExhausted => m@ == "budget exhausted"@,
            Fault::ContractViol(s) => m@ == "contract violated: "@ + s@,
            Fault::CapabilityDenied(s) => m@ == "capability denied: "@ + s@,
            Fault::Escalated(inner) => m@ == "escalated: "@ + inner@.message(),
            Fault::JournalDesync { cursor, expected, found } => found@.is_suffix_of(m@)
                && text::holds(m@, ": program asked for "@ + expected@) && text::holds(
                m@,
                "journal desync at cursor "@ + text::decimal(cursor as nat),
            ),
            Fault::ReplayExhausted { cursor } => text::holds(
                m@,
                "replay exhausted at cursor "@ + text::decimal(cursor as nat),
            ),
            Fault::Io(s) => m@ == "io error: "@ + s@,
        },
{
    match *f {
        Fault::JournalDesync { cursor, expected, found } => {
            let at = "journal desync at cursor "@ + text::decimal(cursor as nat);
            let asked = ": program asked for "@ + expected@;
            let has = ", journal holds "@;
            text::lemma_regroup(at, ": program asked for "@, expected@);
            text::lemma_holds_itself(at);
            text::lemma_holds_itself(asked);
            text::lemma_holds_in_sum(at, asked, at);
            text::lemma_holds_in_sum(at, asked, asked);
            text::lemma_holds_in_sum(at + asked, has, at);
            text::lemma_holds_in_sum(at + asked, has, asked);
            text::lemma_holds_in_sum(at + asked + has, found@, at);
            text::lemma_holds_in_sum(at + asked + has, found@, asked);
            lemma_ends_in(at + asked + has, found@);
        },
        Fault::ReplayExhausted { cursor } => {
            let at = "replay exhausted at cursor "@ + text::decimal(cursor as nat);
            text::lemma_holds_itself(at);
            text::lemma_holds_in_sum(at, ": recorded run ended here"@, at);
        },
        _ => {},
    }
}

proof fn lemma_ends_in(before: Seq<char>, s: Seq<char>)
    ensures
        s.is_suffix_of(before + s),
{
    let m = before + s;
    assert(m.skip(m.len() - s.len()) =~= s);
}

/// The provenance of a callable names it, if it has a name; two callables of
/// different names have different provenances.
pub proof fn law_callables_are_told_apart(a: &str, b: &str, x: String, y: String)
    requires
        call_ensures(bindings::callable_provenance, (Some(a),), x),
        call_ensures(bindings::callable_provenance, (Some(b),), y),
    ensures
        a@.is_suffix_of(x@),
        a@ != b@ ==> x@ != y@,
{
    lemma_ends_in("python:"@, a@);
    if x@ == y@ {
        assert(a@ =~= x@.skip("python:"@.len() as int));
        assert(b@ =~= y@.skip("python:"@.len() as int));
    }
}

} // verus!
