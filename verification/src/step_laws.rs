//! What each step of a run does, told by the journal before and after it.
//!
//! At the end of the journal a step consults the world and records what it
//! gave; on a recorded entry it answers what the entry says and records
//! nothing; on an entry of something else it is refused.
use vstd::prelude::*;

use crate::ctx;
use crate::ctx::{Ctx, CtxView, LabelView};
use crate::event::EventView;
use crate::fault::{Fault, FaultView};
use crate::oracle::Oracle;
use crate::replay_laws;
use crate::replay_laws::{Answer, Request, World};
use crate::store::StoreView;
use crate::value::Value;

verus! {

/// Has the run read all that its journal holds, and may it record?
pub open spec fn may_record(c: CtxView) -> bool {
    c.pos == c.journal.entries.len() && !c.strict
}

/// Do the two states agree but for the journal, the read cursor, the trace and
/// the counters?
pub open spec fn same_run(a: CtxView, b: CtxView) -> bool {
    a.inbox == b.inbox && a.strict == b.strict && a.caps == b.caps
}

/// Has exactly `events` been recorded between the two states, and does the read
/// cursor stand behind them?
pub open spec fn recorded(a: CtxView, b: CtxView, events: Seq<EventView>) -> bool {
    &&& b.journal.events() == a.journal.events() + events
    &&& b.pos == b.journal.events().len()
    &&& b.replayed == a.replayed
    &&& b.journal.key == a.journal.key
    &&& b.journal.durable == a.journal.durable
}

/// Have the next `n` entries been read between the two states, and nothing been
/// recorded?
pub open spec fn consumed(a: CtxView, b: CtxView, n: nat) -> bool {
    &&& b.journal == a.journal
    &&& b.pos == a.pos + n
    &&& b.replayed == a.replayed + n
    &&& b.fresh == a.fresh
}

/// Is the answer a desync at `cursor`?
pub open spec fn is_desync(a: Answer, cursor: nat) -> bool {
    a matches Answer::Fault(FaultView::JournalDesync { cursor: c, .. }) && c == cursor as u64
}

/// Is the answer a desync at `cursor` that tells what was asked for, and quotes
/// `found` as what the journal holds?
pub open spec fn is_mismatch(a: Answer, cursor: nat, asked: Seq<char>, found: EventView) -> bool {
    a matches Answer::Fault(FaultView::JournalDesync { cursor: c, expected, found: f }) && c
        == cursor as u64 && expected == asked && f == found.quoted()
}

proof fn lemma_recorded(c: CtxView, e: EventView)
    ensures
        c.recorded(e).journal.events() == c.journal.events().push(e),
{
    assert(c.recorded(e).journal.events() =~= c.journal.events().push(e));
}

/// At the end of the journal an effect that the run may perform is announced,
/// performed and committed: the intent is journaled, then the result of
/// performing it, and that result is the answer. If performing it fails, the
/// intent is all that is journaled, and the fault is the answer. No list of
/// grants lets every name through; a list lets its own names through.
pub proof fn law_granted_effect_is_performed(
    c: CtxView,
    granted: Option<Set<Seq<char>>>,
    name: Seq<char>,
    arg: Seq<u8>,
    world: World,
    n: nat,
)
    requires
        may_record(c),
        c.caps == granted,
        granted matches Some(set) ==> set.contains(name),
    ensures
        ({
            let (d, a) = replay_laws::step(c, Request::Effect { name, arg }, world, n);
            let intent = EventView::EffectIntent { name, arg };
            &&& same_run(c, d) && d.fresh == c.fresh && d.budget == c.budget
            &&& match (world.perform)(n) {
                Ok(v) => {
                    &&& recorded(c, d, seq![intent, EventView::EffectCommit { name, result: v }])
                    &&& a == Answer::Value(v)
                    &&& d.trace == c.trace.push(
                        LabelView::Effect {
                            cursor: c.journal.events().len() + 1,
                            name,
                            result: v,
                        },
                    )
                },
                Err(f) => {
                    &&& recorded(c, d, seq![intent])
                    &&& a == Answer::Fault(f)
                    &&& d.trace == c.trace
                },
            }
        }),
{
    let intent = EventView::EffectIntent { name, arg };
    lemma_recorded(c, intent);
    let d = c.recorded(intent);
    assert(c.journal.events().push(intent) =~= c.journal.events() + seq![intent]);
    if let Ok(v) = (world.perform)(n) {
        let commit = EventView::EffectCommit { name, result: v };
        lemma_recorded(d, commit);
        assert(c.journal.events().push(intent).push(commit) =~= c.journal.events() + seq![
            intent,
            commit,
        ]);
    }
}

/// An effect whose name is not among the grants is denied by its name, wherever
/// the run stands, and leaves no mark: the world is not consulted and not even
/// the intent is journaled.
pub proof fn law_ungranted_effect_is_denied(
    c: CtxView,
    set: Set<Seq<char>>,
    name: Seq<char>,
    arg: Seq<u8>,
    world: World,
    n: nat,
)
    requires
        c.caps == Some(set),
        !set.contains(name),
    ensures
        replay_laws::step(c, Request::Effect { name, arg }, world, n) == (
            c,
            Answer::Fault(FaultView::CapabilityDenied(name)),
        ),
{
}

/// An effect whose name is among the grants is never denied, wherever the run
/// stands; only performing it can give such a fault.
pub proof fn law_granted_effect_is_never_denied(
    c: CtxView,
    granted: Option<Set<Seq<char>>>,
    name: Seq<char>,
    arg: Seq<u8>,
    world: World,
    n: nat,
)
    requires
        c.caps == granted,
        granted matches Some(set) ==> set.contains(name),
    ensures
        replay_laws::step(c, Request::Effect { name, arg }, world, n).1 matches Answer::Fault(f)
            ==> f !is CapabilityDenied || (world.perform)(n) == Err::<Seq<u8>, FaultView>(f),
{
    lemma_walk_denies_nothing(c, name, arg);
}

proof fn lemma_walk_denies_nothing(c: CtxView, name: Seq<char>, arg: Seq<u8>)
    ensures
        c.effect_walk(name, arg).1 matches Err(f) ==> f !is CapabilityDenied,
    decreases c.journal.entries.len() - c.pos,
{
    if c.next_event() == Some(EventView::EffectIntent { name, arg }) && c.advanced().next_event()
        == Some(EventView::EffectCompensated { name }) {
        lemma_walk_denies_nothing(c.advanced().advanced(), name, arg);
    }
}

/// An allowlist grants the names that it lists and no others; no list is no
/// limit.
pub proof fn law_allowlist_grants_its_names(list: Vec<String>, name: Seq<char>)
    ensures
        ctx::caps_view(None::<Vec<String>>) is None,
        ctx::caps_view(Some(list)) is Some,
        ctx::caps_view(Some(list))->0.contains(name) <==> exists|i: int|
            0 <= i < list@.len() && (#[trigger] list@[i])@ == name,
{
}

/// On a recorded pair a granted effect is answered by the committed result,
/// whatever the world would give, and nothing is recorded.
pub proof fn law_recorded_effect_answers_its_result(
    c: CtxView,
    granted: Option<Set<Seq<char>>>,
    name: Seq<char>,
    arg: Seq<u8>,
    result: Seq<u8>,
    world: World,
    n: nat,
)
    requires
        c.caps == granted,
        granted matches Some(set) ==> set.contains(name),
        c.pos + 1 < c.journal.entries.len(),
        c.journal.events()[c.pos as int] == (EventView::EffectIntent { name, arg }),
        c.journal.events()[c.pos + 1int] == (EventView::EffectCommit { name, result }),
    ensures
        ({
            let (d, a) = replay_laws::step(c, Request::Effect { name, arg }, world, n);
            &&& a == Answer::Value(result)
            &&& consumed(c, d, 2) && same_run(c, d) && d.budget == c.budget
            &&& d.trace == c.trace.push(LabelView::Effect { cursor: c.pos + 1, name, result })
        }),
{
}

/// An effect is refused on an entry that is not its intent, and behind its
/// intent on an entry that neither commits nor compensates it.
pub proof fn law_misplaced_effect_is_refused(
    c: CtxView,
    granted: Option<Set<Seq<char>>>,
    name: Seq<char>,
    arg: Seq<u8>,
    world: World,
    n: nat,
)
    requires
        c.caps == granted,
        granted matches Some(set) ==> set.contains(name),
        c.pos < c.journal.entries.len(),
    ensures
        ({
            let (d, a) = replay_laws::step(c, Request::Effect { name, arg }, world, n);
            let events = c.journal.events();
            &&& events[c.pos as int] != (EventView::EffectIntent { name, arg }) ==> is_mismatch(
                a,
                c.pos,
                "EffectIntent("@ + name + ")"@,
                events[c.pos as int],
            ) && d == c
            &&& (events[c.pos as int] == (EventView::EffectIntent { name, arg }) && c.pos + 1
                < events.len() && !(events[c.pos + 1int] matches EventView::EffectCommit {
                name: m,
                ..
            } && m == name) && events[c.pos + 1int] != (EventView::EffectCompensated { name }))
                ==> is_mismatch(
                a,
                c.pos + 1,
                "EffectCommit("@ + name + ")"@,
                events[c.pos + 1int],
            ) && consumed(c, d, 1) && d.trace == c.trace
        }),
{
    assert(c.next_event() == Some(c.journal.events()[c.pos as int]));
}

/// At the end of the journal a draw within the budget asks the model: what it
/// gives is journaled with the prompt and its provenance, is the answer, and
/// costs one of the budget. If the model fails, nothing is journaled.
pub proof fn law_fresh_draw_is_recorded(c: CtxView, prompt: Seq<u8>, world: World, n: nat)
    requires
        may_record(c),
        c.budget != Some(0u64),
    ensures
        ({
            let (d, a) = replay_laws::step(c, Request::Oracle { prompt }, world, n);
            &&& same_run(c, d)
            &&& d.budget == (match c.budget {
                Some(b) => Some((b - 1) as u64),
                None => None,
            })
            &&& match (world.draw)(n) {
                Ok((outcome, provenance)) => {
                    &&& recorded(c, d, seq![EventView::OracleDraw { prompt, outcome, provenance }])
                    &&& a == Answer::Value(outcome)
                    &&& d.fresh == c.fresh + 1
                    &&& d.trace == c.trace.push(
                        LabelView::Oracle { cursor: c.journal.events().len(), outcome },
                    )
                },
                Err(f) => {
                    &&& a == Answer::Fault(f)
                    &&& d.journal == c.journal && d.pos == c.pos && d.trace == c.trace
                    &&& d.fresh == c.fresh && d.replayed == c.replayed
                },
            }
        }),
{
    if let Ok((outcome, provenance)) = (world.draw)(n) {
        let draw = EventView::OracleDraw { prompt, outcome, provenance };
        let paid = c.charged()->0;
        lemma_recorded(paid, draw);
        assert(c.journal.events().push(draw) =~= c.journal.events() + seq![draw]);
    }
}

/// A draw that is on record is answered by its recorded outcome, whatever the
/// world would give, for one of the budget; of another prompt, or on an entry
/// that is no draw, it is refused at that entry.
pub proof fn law_recorded_draw_answers_its_outcome(
    c: CtxView,
    prompt: Seq<u8>,
    world: World,
    n: nat,
)
    requires
        c.pos < c.journal.entries.len(),
        c.budget != Some(0u64),
    ensures
        ({
            let (d, a) = replay_laws::step(c, Request::Oracle { prompt }, world, n);
            &&& same_run(c, d)
            &&& d.budget == (match c.budget {
                Some(b) => Some((b - 1) as u64),
                None => None,
            })
            &&& match c.journal.events()[c.pos as int] {
                EventView::OracleDraw { prompt: p, outcome, .. } if p == prompt => {
                    &&& a == Answer::Value(outcome)
                    &&& consumed(c, d, 1)
                    &&& d.trace == c.trace.push(LabelView::Oracle { cursor: c.pos, outcome })
                },
                found => is_mismatch(
                    a,
                    c.pos,
                    "OracleDraw("@ + ctx::preview_text(prompt) + ")"@,
                    found,
                ) && consumed(c, d, 0) && d.trace == c.trace,
            }
        }),
{
}

/// At the end of the journal a receive takes the value that has waited longest
/// on its channel, journals it and answers it; the others keep waiting, and so
/// do those on other channels. Where none waits it times out and changes
/// nothing.
pub proof fn law_fresh_receive_takes_the_oldest(
    c: CtxView,
    channel: Seq<char>,
    other: Seq<char>,
    world: World,
    n: nat,
)
    requires
        may_record(c),
    ensures
        ({
            let (d, a) = replay_laws::step(c, Request::Recv { channel }, world, n);
            if c.inbox.dom().contains(channel) && c.inbox[channel].len() > 0 {
                let value = c.inbox[channel].first();
                &&& a == Answer::Value(value)
                &&& recorded(c, d, seq![EventView::ChannelRecv { channel, value }])
                &&& d.trace == c.trace.push(
                    LabelView::Recv { cursor: c.journal.events().len(), channel, value },
                )
                &&& d.inbox.dom() == c.inbox.dom()
                &&& d.inbox[channel] == c.inbox[channel].drop_first()
                &&& other != channel ==> d.inbox[other] == c.inbox[other]
                &&& d.strict == c.strict && d.caps == c.caps && d.budget == c.budget && d.fresh
                    == c.fresh
            } else {
                a == Answer::Fault(FaultView::Timeout) && d == c
            }
        }),
{
    if c.inbox.dom().contains(channel) && c.inbox[channel].len() > 0 {
        let value = c.inbox[channel][0];
        let got = EventView::ChannelRecv { channel, value };
        let rest = c.inbox.insert(channel, c.inbox[channel].skip(1));
        lemma_recorded(CtxView { inbox: rest, ..c }, got);
        assert(c.journal.events().push(got) =~= c.journal.events() + seq![got]);
        assert(c.inbox[channel].skip(1) =~= c.inbox[channel].drop_first());
        assert(rest.dom() =~= c.inbox.dom());
    }
}

/// A receive that is on record is answered by the recorded value and leaves the
/// inbox alone; of another channel, or on an entry that is no receive, it is
/// refused at that entry.
pub proof fn law_recorded_receive_answers_its_value(
    c: CtxView,
    channel: Seq<char>,
    world: World,
    n: nat,
)
    requires
        c.pos < c.journal.entries.len(),
    ensures
        ({
            let (d, a) = replay_laws::step(c, Request::Recv { channel }, world, n);
            &&& same_run(c, d) && d.budget == c.budget
            &&& match c.journal.events()[c.pos as int] {
                EventView::ChannelRecv { channel: x, value } if x == channel => {
                    &&& a == Answer::Value(value)
                    &&& consumed(c, d, 1)
                    &&& d.trace == c.trace.push(
                        LabelView::Recv { cursor: c.pos, channel, value },
                    )
                },
                found => is_mismatch(a, c.pos, "ChannelRecv("@ + channel + ")"@, found) && d == c,
            }
        }),
{
}

/// At the end of the journal a clock read is journaled and answered; on record
/// it is answered by the recorded time, whatever the clock says; on an entry
/// that is no clock read it is refused at that entry.
pub proof fn law_clock_reads(c: CtxView, world: World, n: nat)
    requires
        c.pos <= c.journal.entries.len(),
    ensures
        ({
            let (d, a) = replay_laws::step(c, Request::Now, world, n);
            &&& same_run(c, d) && d.budget == c.budget && d.fresh == c.fresh
            &&& may_record(c) ==> {
                let nanos = (world.clock)(n);
                &&& a == Answer::Nanos(nanos)
                &&& recorded(c, d, seq![EventView::Clock { nanos }])
                &&& d.trace == c.trace.push(
                    LabelView::Clock { cursor: c.journal.events().len(), nanos },
                )
            }
            &&& c.pos < c.journal.entries.len() ==> match c.journal.events()[c.pos as int] {
                EventView::Clock { nanos } => {
                    &&& a == Answer::Nanos(nanos)
                    &&& consumed(c, d, 1)
                    &&& d.trace == c.trace.push(LabelView::Clock { cursor: c.pos, nanos })
                },
                found => is_mismatch(a, c.pos, "Clock"@, found) && d == c,
            }
        }),
{
    if may_record(c) {
        let read = EventView::Clock { nanos: (world.clock)(n) };
        lemma_recorded(c, read);
        assert(c.journal.events().push(read) =~= c.journal.events() + seq![read]);
    }
}

/// A program marker is journaled at the end of the journal, passed over where
/// the same name and hash are on record, and refused on every other entry. It
/// never shows in the trace.
pub proof fn law_marker_pins_the_program(
    c: CtxView,
    name: Seq<char>,
    hash: Seq<char>,
    world: World,
    n: nat,
)
    requires
        c.pos <= c.journal.entries.len(),
    ensures
        ({
            let (d, a) = replay_laws::step(c, Request::Marker { name, hash }, world, n);
            let marker = EventView::Program { name, hash };
            &&& same_run(c, d) && d.budget == c.budget && d.fresh == c.fresh && d.trace == c.trace
            &&& may_record(c) ==> a == Answer::Done && recorded(c, d, seq![marker])
            &&& c.pos < c.journal.entries.len() ==> if c.journal.events()[c.pos as int] == marker {
                a == Answer::Done && consumed(c, d, 1)
            } else {
                is_desync(a, c.pos) && d == c
            }
        }),
{
    let marker = EventView::Program { name, hash };
    if may_record(c) {
        lemma_recorded(c, marker);
        assert(c.journal.events().push(marker) =~= c.journal.events() + seq![marker]);
    } else if c.pos < c.journal.entries.len() {
        assert(c.next_event() == Some(c.journal.events()[c.pos as int]));
    }
}

/// A strict replay never goes past the end of the journal: every step there is
/// refused with the cursor at which the recorded run ended, and nothing is read
/// or recorded.
pub proof fn law_strict_replay_stops_at_the_end(
    c: CtxView,
    request: Request,
    world: World,
    n: nat,
)
    requires
        c.strict,
        c.pos == c.journal.entries.len(),
        request is Oracle ==> c.budget != Some(0u64),
        request matches Request::Effect { name, .. } ==> (c.caps matches Some(set) ==> set.contains(
            name,
        )),
        request !is End,
    ensures
        ({
            let (d, a) = replay_laws::step(c, request, world, n);
            &&& a == Answer::Fault(FaultView::ReplayExhausted { cursor: c.pos as u64 })
            &&& consumed(c, d, 0) && same_run(c, d) && d.trace == c.trace
            &&& request !is Oracle ==> d == c
        }),
{
}

/// The trace of a run that has an output is what it observed and then that
/// output; the trace of one that failed is what it observed.
pub proof fn law_finished_trace_ends_in_the_output(c: CtxView, output: Seq<u8>)
    ensures
        c.finished(Some(output)).len() == c.trace.len() + 1,
        c.finished(Some(output)).last() == (LabelView::Done { output }),
        c.finished(Some(output)).drop_last() == c.trace,
        c.finished(None) == c.trace,
{
    assert(c.finished(Some(output)).drop_last() =~= c.trace);
}

/// What is sent to a run whose channel is empty is what its next receive on
/// that channel gets.
pub proof fn law_sent_value_is_received(
    s: StoreView,
    run_id: Seq<char>,
    channel: Seq<char>,
    value: Seq<u8>,
    c: CtxView,
    world: World,
    n: nat,
)
    requires
        may_record(c),
        c.inbox == s.sent(run_id, channel, value).inbox(run_id),
        s.inbox(run_id).dom().contains(channel) ==> s.inbox(run_id)[channel].len() == 0,
    ensures
        replay_laws::step(c, Request::Recv { channel }, world, n).1 == Answer::Value(value),
{
    law_fresh_receive_takes_the_oldest(c, channel, channel, world, n);
    let was = s.inbox(run_id);
    let queue = if was.dom().contains(channel) {
        was[channel]
    } else {
        Seq::empty()
    };
    assert(c.inbox[channel] == queue.push(value));
    assert(queue.len() == 0);
}

/// What a step that returns a value answers.
pub open spec fn answer_of(r: Result<Value, Fault>) -> Answer {
    match r {
        Ok(v) => Answer::Value(v@),
        Err(f) => Answer::Fault(f@),
    }
}

/// A world in which the model gives `drawn`, an effect comes to `performed` and
/// the clock reads `nanos`, whenever they are asked.
pub open spec fn constant_world(
    drawn: Result<(Seq<u8>, Seq<char>), FaultView>,
    performed: Result<Seq<u8>, FaultView>,
    nanos: u64,
) -> World {
    World { draw: |n: nat| drawn, perform: |n: nat| performed, clock: |n: nat| nanos }
}

/// An effect of a running agent is the step of that effect, in a world in which
/// performing it comes to what the given closure came to on the argument.
pub proof fn law_effect_is_a_step<
    'a,
    O: Oracle,
    A: Into<Value>,
    F: FnOnce(&Value) -> Result<Value, Fault>,
>(
    before: Ctx<'a, O>,
    after: Ctx<'a, O>,
    name: &str,
    arg: A,
    perform: F,
    r: Result<Value, Fault>,
)
    requires
        exists|c: &mut Ctx<'a, O>| #[trigger]
            call_ensures(Ctx::<'a, O>::effect::<A, F>, (c, name, arg, perform), r) && *c == before
                && *final(c) == after,
    ensures
        exists|a: Value, performed: Result<Value, Fault>|
            #![trigger call_ensures(A::into, (arg,), a), ctx::result_view(performed)]
            call_ensures(A::into, (arg,), a) && (after@, answer_of(r)) == replay_laws::step(
                before@,
                Request::Effect { name: name@, arg: a@ },
                constant_world(Err(FaultView::Timeout), ctx::result_view(performed), 0),
                0,
            ) && (may_record(before@) && (before@.caps matches Some(set) ==> set.contains(name@))
                ==> call_ensures(perform, (&a,), performed)),
{
    let c = choose|c: &mut Ctx<'a, O>| #[trigger]
        call_ensures(Ctx::<'a, O>::effect::<A, F>, (c, name, arg, perform), r) && *c == before
            && *final(c) == after;
    assert(call_ensures(Ctx::<'a, O>::effect::<A, F>, (c, name, arg, perform), r));
    let a = choose|a: Value| #[trigger]
        call_ensures(A::into, (arg,), a) && ({
            let (d, s) = before@.effect_replay(name@, a@);
            match s {
                Ok(Some(result)) => r matches Ok(v) && v@ == result && after@ == d,
                Err(f) => r matches Err(g) && g@ == f && after@ == d,
                Ok(None) => exists|performed: Result<Value, Fault>| #[trigger]
                    call_ensures(perform, (&a,), performed) && match performed {
                        Err(f) => r == performed && after@ == d.effect_begin(name@, a@),
                        Ok(out) => {
                            &&& r matches Ok(v) && v@ == out@
                            &&& after@ == d.effect_begin(name@, a@).effect_commit(name@, out@)
                        },
                    },
            }
        });
    let (d, s) = before@.effect_replay(name@, a@);
    if s == Ok::<Option<Seq<u8>>, FaultView>(None) {
        let performed = choose|performed: Result<Value, Fault>| #[trigger]
            call_ensures(perform, (&a,), performed) && match performed {
                Err(f) => r == performed && after@ == d.effect_begin(name@, a@),
                Ok(out) => {
                    &&& r matches Ok(v) && v@ == out@
                    &&& after@ == d.effect_begin(name@, a@).effect_commit(name@, out@)
                },
            };
        let p = ctx::result_view(performed);
        assert((after@, answer_of(r)) == replay_laws::step(
            before@,
            Request::Effect { name: name@, arg: a@ },
            constant_world(Err(FaultView::Timeout), p, 0),
            0,
        ));
    } else {
        let p = ctx::result_view(r);
        assert((after@, answer_of(r)) == replay_laws::step(
            before@,
            Request::Effect { name: name@, arg: a@ },
            constant_world(Err(FaultView::Timeout), p, 0),
            0,
        ));
    }
}

/// A draw of a running agent is the step of that draw, in a world in which the
/// model gives what the run's own model gave for the prompt, under the provenance
/// that it then names.
pub proof fn law_draw_is_a_step<'a, O: Oracle, P: Into<Value>>(
    before: Ctx<'a, O>,
    after: Ctx<'a, O>,
    prompt: P,
    r: Result<Value, Fault>,
)
    requires
        exists|c: &mut Ctx<'a, O>| #[trigger]
            call_ensures(Ctx::<'a, O>::oracle::<P>, (c, prompt), r) && *c == before && *final(c)
                == after,
    ensures
        exists|p: Value, drawn: Result<(Seq<u8>, Seq<char>), FaultView>|
            #![trigger call_ensures(P::into, (prompt,), p), constant_world(drawn, Err(FaultView::Timeout), 0)]
            call_ensures(P::into, (prompt,), p) && (after@, answer_of(r)) == replay_laws::step(
                before@,
                Request::Oracle { prompt: p@ },
                constant_world(drawn, Err(FaultView::Timeout), 0),
                0,
            ) && (may_record(before@) && before@.budget != Some(0u64) ==> exists|
                m: &mut O,
                sampled: Result<Value, Fault>,
            | #[trigger]
                call_ensures(O::call, (m, &p), sampled) && before.model() is Some && *m
                    == *(before.model()->0) && (match sampled {
                    Err(f) => drawn == Err::<(Seq<u8>, Seq<char>), FaultView>(f@),
                    Ok(out) => exists|provenance: String| #[trigger]
                        call_ensures(O::provenance, (&*final(m),), provenance) && drawn == Ok::<
                            (Seq<u8>, Seq<char>),
                            FaultView,
                        >((out@, provenance@)),
                })),
{
    let c = choose|c: &mut Ctx<'a, O>| #[trigger]
        call_ensures(Ctx::<'a, O>::oracle::<P>, (c, prompt), r) && *c == before && *final(c)
            == after;
    assert(call_ensures(Ctx::<'a, O>::oracle::<P>, (c, prompt), r));
    let p = choose|p: Value| #[trigger]
        call_ensures(P::into, (prompt,), p) && ({
            let (d, a) = before@.oracle_replay(p@);
            match a {
                Ok(Some(outcome)) => (r matches Ok(v) && v@ == outcome) && after@ == d,
                Err(f) => (r matches Err(g) && g@ == f) && after@ == d,
                Ok(None) => exists|m: &mut O, sampled: Result<Value, Fault>| #[trigger]
                    call_ensures(O::call, (m, &p), sampled) && before.model() is Some && *m
                        == *(before.model()->0) && (match sampled {
                        Err(f) => r == sampled && after@ == d,
                        Ok(out) => exists|provenance: String| #[trigger]
                            call_ensures(O::provenance, (&*final(m),), provenance) && (
                            r matches Ok(v) && v@ == out@) && after@ == d.oracle_commit(
                                p@,
                                out@,
                                provenance@,
                            ),
                    }),
            }
        });
    let (d, a) = before@.oracle_replay(p@);
    if a == Ok::<Option<Seq<u8>>, FaultView>(None) {
        let (m, sampled) = choose|m: &mut O, sampled: Result<Value, Fault>| #[trigger]
            call_ensures(O::call, (m, &p), sampled) && before.model() is Some && *m
                == *(before.model()->0) && (match sampled {
                Err(f) => r == sampled && after@ == d,
                Ok(out) => exists|provenance: String| #[trigger]
                    call_ensures(O::provenance, (&*final(m),), provenance) && (r matches Ok(v)
                        && v@ == out@) && after@ == d.oracle_commit(p@, out@, provenance@),
            });
        match sampled {
            Err(f) => {
                let w = constant_world(Err(f@), Err(FaultView::Timeout), 0);
                assert((after@, answer_of(r)) == replay_laws::step(
                    before@,
                    Request::Oracle { prompt: p@ },
                    w,
                    0,
                ));
            },
            Ok(out) => {
                let provenance = choose|provenance: String| #[trigger]
                    call_ensures(O::provenance, (&*final(m),), provenance) && (r matches Ok(v)
                        && v@ == out@) && after@ == d.oracle_commit(p@, out@, provenance@);
                let w = constant_world(Ok((out@, provenance@)), Err(FaultView::Timeout), 0);
                assert((after@, answer_of(r)) == replay_laws::step(
                    before@,
                    Request::Oracle { prompt: p@ },
                    w,
                    0,
                ));
            },
        }
    } else {
        let w = constant_world(Err(FaultView::Timeout), Err(FaultView::Timeout), 0);
        assert((after@, answer_of(r)) == replay_laws::step(
            before@,
            Request::Oracle { prompt: p@ },
            w,
            0,
        ));
    }
}

/// A receive, a clock read and a program marker of a running agent are the steps
/// of the same names; the clock's is one in a world whose clock reads what is
/// answered.
pub proof fn law_other_calls_are_steps<'a, O>(
    before: Ctx<'a, O>,
    received: Ctx<'a, O>,
    read: Ctx<'a, O>,
    marked: Ctx<'a, O>,
    channel: &str,
    name: &str,
    hash: &str,
    value: Result<Value, Fault>,
    time: Result<u64, Fault>,
    pinned: Result<(), Fault>,
    world: World,
)
    requires
        exists|c: &mut Ctx<'a, O>| #[trigger]
            call_ensures(Ctx::<'a, O>::recv, (c, channel), value) && *c == before && *final(c)
                == received,
        exists|c: &mut Ctx<'a, O>| #[trigger]
            call_ensures(Ctx::<'a, O>::now, (c,), time) && *c == before && *final(c) == read,
        exists|c: &mut Ctx<'a, O>| #[trigger]
            call_ensures(Ctx::<'a, O>::program_marker, (c, name, hash), pinned) && *c == before
                && *final(c) == marked,
    ensures
        (received@, answer_of(value)) == replay_laws::step(
            before@,
            Request::Recv { channel: channel@ },
            world,
            0,
        ),
        exists|nanos: u64| (#[trigger] replay_laws::step(
            before@,
            Request::Now,
            constant_world(Err(FaultView::Timeout), Err(FaultView::Timeout), nanos),
            0,
        )) == (
            read@,
            match time {
                Ok(n) => Answer::Nanos(n),
                Err(f) => Answer::Fault(f@),
            },
        ),
        (
            marked@,
            match pinned {
                Ok(()) => Answer::Done,
                Err(f) => Answer::Fault(f@),
            },
        ) == replay_laws::step(
            before@,
            Request::Marker { name: name@, hash: hash@ },
            world,
            0,
        ),
{
    let c = choose|c: &mut Ctx<'a, O>| #[trigger]
        call_ensures(Ctx::<'a, O>::recv, (c, channel), value) && *c == before && *final(c)
            == received;
    assert(call_ensures(Ctx::<'a, O>::recv, (c, channel), value));
    let d = choose|c: &mut Ctx<'a, O>| #[trigger]
        call_ensures(Ctx::<'a, O>::now, (c,), time) && *c == before && *final(c) == read;
    assert(call_ensures(Ctx::<'a, O>::now, (d,), time));
    let e = choose|c: &mut Ctx<'a, O>| #[trigger]
        call_ensures(Ctx::<'a, O>::program_marker, (c, name, hash), pinned) && *c == before
            && *final(c) == marked;
    assert(call_ensures(Ctx::<'a, O>::program_marker, (e, name, hash), pinned));
    let nanos = match time {
        Ok(n) => n,
        Err(f) => 0,
    };
    let w = constant_world(Err(FaultView::Timeout), Err(FaultView::Timeout), nanos);
    assert(replay_laws::step(before@, Request::Now, w, 0) == (
        read@,
        match time {
            Ok(n) => Answer::Nanos(n),
            Err(f) => Answer::Fault(f@),
        },
    ));
}

} // verus!
