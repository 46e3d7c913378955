//! Steps of a run whose journal is kept on stable storage.
//!
//! Every step is made durable before the run goes on, and the intent of an
//! effect before the effect is performed. A step is written before it is
//! journaled: where the write fails, the step answers with its fault, and the
//! journal is as it was.
//!
//! Storage is a function that appends bytes to what is stored for the run and
//! returns when they are durable; one that fails leaves nothing behind.
use vstd::prelude::*;

use crate::ctx;
use crate::ctx::{Ctx, CtxView};
use crate::event::{Event, EventView};
use crate::fault::{Fault, FaultView};
use crate::journal;
use crate::oracle::Oracle;
use crate::value::Value;

verus! {

/// The fault of a result.
pub open spec fn fault_of<T>(r: Result<T, Fault>) -> Option<Fault> {
    match r {
        Ok(_) => None,
        Err(f) => Some(f),
    }
}

/// May `write` be handed `owed`?
pub open spec fn writes<W: Fn(&[u8]) -> Result<(), Fault>>(write: W, owed: Seq<u8>) -> bool {
    forall|bytes: &[u8]|
        owed.len() > 0 && bytes@ == owed ==> #[trigger] call_requires(write, (bytes,))
}

/// What is owed to storage for `event` to be journaled.
pub open spec fn owes(c: CtxView, event: EventView) -> Seq<u8> {
    c.journal.append(event).unsynced
}

/// Can handing `owed` to `write` end in this fault, or in none? Nothing is
/// written where nothing is owed.
pub open spec fn flushed<W: Fn(&[u8]) -> Result<(), Fault>>(
    write: W,
    owed: Seq<u8>,
    fault: Option<Fault>,
) -> bool {
    if owed.len() == 0 {
        fault is None
    } else {
        exists|bytes: &[u8], r: Result<(), Fault>| #[trigger]
            call_ensures(write, (bytes,), r) && bytes@ == owed && fault_of(r) == fault
    }
}

/// Does a step that journals `event` end in `end`: where it stood, with the
/// fault of the write, or in `done` without one?
pub open spec fn settled<W: Fn(&[u8]) -> Result<(), Fault>>(
    write: W,
    c: CtxView,
    event: EventView,
    done: CtxView,
    end: CtxView,
    fault: Option<Fault>,
) -> bool {
    &&& flushed(write, owes(c, event), fault)
    &&& end == (if fault is Some {
        c
    } else {
        done.synced()
    })
}

/// Does an effect whose intent is durable, and which was performed with the
/// outcome `performed`, end in `end` and answer `r`?
pub open spec fn after_performing<W: Fn(&[u8]) -> Result<(), Fault>>(
    write: W,
    begun: CtxView,
    name: Seq<char>,
    performed: Result<Value, Fault>,
    end: CtxView,
    r: Result<Value, Fault>,
) -> bool {
    match performed {
        Err(f) => r == Err::<Value, Fault>(f) && end == begun,
        Ok(out) => {
            &&& r matches Ok(v) ==> v@ == out@
            &&& settled(
                write,
                begun,
                EventView::EffectCommit { name, result: out@ },
                begun.effect_commit(name, out@),
                end,
                fault_of(r),
            )
        },
    }
}

impl<'a, O> Ctx<'a, O> {
    /// Makes everything recorded so far durable. What a write that failed was
    /// handed is still owed.
    pub fn flush<W: Fn(&[u8]) -> Result<(), Fault>>(&mut self, write: &W) -> (r: Result<
        (),
        Fault,
    >)
        requires
            old(self).wf(),
            writes(*write, old(self)@.journal.unsynced),
        ensures
            final(self).wf(),
            final(self).model() == old(self).model(),
            *final(final(self).lent_journal()) == *final(old(self).lent_journal()),
            *final(final(self).lent_inbox()) == *final(old(self).lent_inbox()),
            final(self)@ == (if r is Ok {
                old(self)@.synced()
            } else {
                old(self)@
            }),
            flushed(*write, old(self)@.journal.unsynced, fault_of(r)),
    {
        let bytes = self.unsynced();
        if bytes.len() == 0 {
            assert(self@ =~= self@.synced());
            return Ok(());
        }
        match write(bytes) {
            Err(f) => Err(f),
            Ok(()) => {
                let written = self.sync();
                Ok(())
            },
        }
    }

    /// Writes what is owed for `event` to be journaled.
    fn announce<W: Fn(&[u8]) -> Result<(), Fault>>(&self, write: &W, event: &Event) -> (r: Result<
        (),
        Fault,
    >)
        requires
            writes(*write, owes(self@, event@)),
        ensures
            flushed(*write, owes(self@, event@), fault_of(r)),
    {
        let bytes = self.unsynced_with(event);
        if bytes.len() == 0 {
            return Ok(());
        }
        write(bytes.as_slice())
    }

    /// Journals (or verifies) the identity of the agent program.
    pub fn program_marker_stored<W: Fn(&[u8]) -> Result<(), Fault>>(
        &mut self,
        write: &W,
        name: &str,
        hash: &str,
    ) -> (r: Result<(), Fault>)
        requires
            old(self).wf(),
            old(self)@.next_event() is None && !old(self)@.strict ==> writes(
                *write,
                owes(old(self)@, EventView::Program { name: name@, hash: hash@ }),
            ),
        ensures
            final(self).wf(),
            final(self).model() == old(self).model(),
            *final(final(self).lent_journal()) == *final(old(self).lent_journal()),
            *final(final(self).lent_inbox()) == *final(old(self).lent_inbox()),
            if old(self)@.next_event() is Some || old(self)@.strict {
                (final(self)@, ctx::unit_view(r)) == old(self)@.program_marker(name@, hash@)
            } else {
                settled(
                    *write,
                    old(self)@,
                    EventView::Program { name: name@, hash: hash@ },
                    old(self)@.program_marker(name@, hash@).0,
                    final(self)@,
                    fault_of(r),
                )
            },
    {
        if self.is_replaying() || self.is_strict() {
            return self.mark(name, hash);
        }
        let event = Event::Program { name: name.to_owned(), hash: hash.to_owned() };
        match self.announce(write, &event) {
            Err(f) => Err(f),
            Ok(()) => {
                let marked = self.mark(name, hash);
                let written = self.sync();
                marked
            },
        }
    }

    /// A channel receive.
    pub fn recv_stored<W: Fn(&[u8]) -> Result<(), Fault>>(
        &mut self,
        write: &W,
        channel: &str,
    ) -> (r: Result<Value, Fault>)
        requires
            old(self).wf(),
            old(self)@.next_event() is None ==> (old(self)@.recv(channel@).1 matches Ok(value)
                ==> writes(
                *write,
                owes(old(self)@, EventView::ChannelRecv { channel: channel@, value }),
            )),
        ensures
            final(self).wf(),
            final(self).model() == old(self).model(),
            *final(final(self).lent_journal()) == *final(old(self).lent_journal()),
            *final(final(self).lent_inbox()) == *final(old(self).lent_inbox()),
            ({
                let (c, a) = old(self)@.recv(channel@);
                if old(self)@.next_event() is Some || old(self)@.strict || a is Err {
                    final(self)@ == c && ctx::result_view(r) == a
                } else {
                    let value = old(self)@.inbox[channel@][0];
                    let taken = CtxView {
                        inbox: old(self)@.inbox.insert(
                            channel@,
                            old(self)@.inbox[channel@].skip(1),
                        ),
                        ..old(self)@
                    };
                    &&& r matches Ok(v) ==> v@ == value
                    &&& settled(
                        *write,
                        taken,
                        EventView::ChannelRecv { channel: channel@, value },
                        c,
                        final(self)@,
                        fault_of(r),
                    )
                }
            }),
    {
        if self.is_replaying() || self.is_strict() {
            return self.receive(channel);
        }
        match self.pop_inbox(channel) {
            None => Err(Fault::Timeout),
            Some(value) => {
                let event = Event::ChannelRecv {
                    channel: channel.to_owned(),
                    value: value.clone(),
                };
                match self.announce(write, &event) {
                    Err(f) => Err(f),
                    Ok(()) => {
                        let value = self.recv_commit(channel, value);
                        let written = self.sync();
                        Ok(value)
                    },
                }
            },
        }
    }

    /// A journaled clock read.
    pub fn now_stored<W: Fn(&[u8]) -> Result<(), Fault>>(&mut self, write: &W) -> (r: Result<
        u64,
        Fault,
    >)
        requires
            old(self).wf(),
            old(self)@.now_replay().1 == Ok::<Option<u64>, FaultView>(None) ==> forall|nanos: u64|
                writes(*write, #[trigger] owes(old(self)@, EventView::Clock { nanos })),
        ensures
            final(self).wf(),
            final(self).model() == old(self).model(),
            *final(final(self).lent_journal()) == *final(old(self).lent_journal()),
            *final(final(self).lent_inbox()) == *final(old(self).lent_inbox()),
            ({
                let (c, a) = old(self)@.now_replay();
                match a {
                    Ok(Some(nanos)) => r == Ok::<u64, Fault>(nanos) && final(self)@ == c,
                    Err(f) => (r matches Err(g) && g@ == f) && final(self)@ == c,
                    Ok(None) => exists|nanos: u64| #[trigger]
                        settled(
                            *write,
                            c,
                            EventView::Clock { nanos },
                            c.now_commit(nanos),
                            final(self)@,
                            fault_of(r),
                        ) && (r matches Ok(n) ==> n == nanos),
                }
            }),
    {
        match self.now_replay() {
            Err(f) => Err(f),
            Ok(Some(nanos)) => Ok(nanos),
            Ok(None) => {
                let ghost c = self@;
                let nanos: u64 = ctx::clock_nanos(ctx::system_clock());
                let ghost event = EventView::Clock { nanos };
                let ghost done = c.now_commit(nanos);
                assert(owes(c, event) == owes(old(self)@, event));
                match self.announce(write, &Event::Clock { nanos }) {
                    Err(f) => {
                        assert(settled(*write, c, event, done, self@, Some(f)));
                        Err(f)
                    },
                    Ok(()) => {
                        self.now_commit(nanos);
                        let written = self.sync();
                        assert(settled(*write, c, event, done, self@, None));
                        Ok(nanos)
                    },
                }
            },
        }
    }

    /// A durable effect under the three-phase write-ahead discipline. The
    /// effect is performed only once its intent is durable.
    pub fn effect_stored<
        W: Fn(&[u8]) -> Result<(), Fault>,
        F: FnOnce(&Value) -> Result<Value, Fault>,
    >(&mut self, write: &W, name: &str, arg: Value, perform: F) -> (r: Result<Value, Fault>)
        requires
            old(self).wf(),
            ({
                let (c, s) = old(self)@.effect_replay(name@, arg@);
                let begun = c.effect_begin(name@, arg@);
                s == Ok::<Option<Seq<u8>>, FaultView>(None) ==> {
                    &&& writes(*write, begun.journal.unsynced)
                    &&& flushed(*write, begun.journal.unsynced, None) ==> {
                        &&& call_requires(perform, (&arg,))
                        &&& forall|result: Seq<u8>|
                            writes(
                                *write,
                                #[trigger] owes(
                                    begun.synced(),
                                    EventView::EffectCommit { name: name@, result },
                                ),
                            )
                    }
                }
            }),
        ensures
            final(self).wf(),
            final(self).model() == old(self).model(),
            *final(final(self).lent_journal()) == *final(old(self).lent_journal()),
            *final(final(self).lent_inbox()) == *final(old(self).lent_inbox()),
            ({
                let (c, s) = old(self)@.effect_replay(name@, arg@);
                match s {
                    Ok(Some(result)) => (r matches Ok(v) && v@ == result) && final(self)@ == c,
                    Err(f) => (r matches Err(g) && g@ == f) && final(self)@ == c,
                    Ok(None) => {
                        let begun = c.effect_begin(name@, arg@);
                        ||| {
                            &&& r matches Err(f) && flushed(
                                *write,
                                begun.journal.unsynced,
                                Some(f),
                            )
                            &&& final(self)@ == c
                        }
                        ||| {
                            &&& flushed(*write, begun.journal.unsynced, None)
                            &&& exists|performed: Result<Value, Fault>| #[trigger]
                                call_ensures(perform, (&arg,), performed) && after_performing(
                                    *write,
                                    begun.synced(),
                                    name@,
                                    performed,
                                    final(self)@,
                                    r,
                                )
                        }
                    },
                }
            }),
    {
        match self.effect_replay(name, &arg) {
            Err(f) => Err(f),
            Ok(Some(result)) => Ok(result),
            Ok(None) => {
                match self.effect_begin_stored(write, name, &arg) {
                    Err(f) => Err(f),
                    Ok(()) => match perform(&arg) {
                        Err(f) => Err(f),
                        Ok(result) => self.effect_commit_stored(write, name, result),
                    },
                }
            },
        }
    }

    /// Makes the write-ahead intent of an effect durable and journals it, before
    /// the world can change.
    pub fn effect_begin_stored<W: Fn(&[u8]) -> Result<(), Fault>>(
        &mut self,
        write: &W,
        name: &str,
        arg: &Value,
    ) -> (r: Result<(), Fault>)
        requires
            old(self).wf(),
            writes(
                *write,
                owes(old(self)@, EventView::EffectIntent { name: name@, arg: arg@ }),
            ),
        ensures
            final(self).wf(),
            final(self).model() == old(self).model(),
            *final(final(self).lent_journal()) == *final(old(self).lent_journal()),
            *final(final(self).lent_inbox()) == *final(old(self).lent_inbox()),
            settled(
                *write,
                old(self)@,
                EventView::EffectIntent { name: name@, arg: arg@ },
                old(self)@.effect_begin(name@, arg@),
                final(self)@,
                fault_of(r),
            ),
    {
        let event = Event::EffectIntent { name: name.to_owned(), arg: arg.clone() };
        match self.announce(write, &event) {
            Err(f) => Err(f),
            Ok(()) => {
                self.effect_begin(name, arg.clone());
                let written = self.sync();
                Ok(())
            },
        }
    }

    /// Records the result of an effect that was performed under a durable
    /// intent.
    pub fn effect_commit_stored<W: Fn(&[u8]) -> Result<(), Fault>>(
        &mut self,
        write: &W,
        name: &str,
        result: Value,
    ) -> (r: Result<Value, Fault>)
        requires
            old(self).wf(),
            writes(
                *write,
                owes(old(self)@, EventView::EffectCommit { name: name@, result: result@ }),
            ),
        ensures
            final(self).wf(),
            final(self).model() == old(self).model(),
            *final(final(self).lent_journal()) == *final(old(self).lent_journal()),
            *final(final(self).lent_inbox()) == *final(old(self).lent_inbox()),
            r matches Ok(v) ==> v@ == result@,
            settled(
                *write,
                old(self)@,
                    EventView::EffectCommit { name: name@, result: result@ },
                old(self)@.effect_commit(name@, result@),
                final(self)@,
                fault_of(r),
            ),
    {
        let event = Event::EffectCommit { name: name.to_owned(), result: result.clone() };
        match self.announce(write, &event) {
            Err(f) => Err(f),
            Ok(()) => {
                let kept = self.effect_commit(name, result);
                let written = self.sync();
                Ok(kept)
            },
        }
    }

    /// Records a sampled outcome.
    pub fn oracle_commit_stored<W: Fn(&[u8]) -> Result<(), Fault>>(
        &mut self,
        write: &W,
        prompt: Value,
        outcome: Value,
        provenance: String,
    ) -> (r: Result<Value, Fault>)
        requires
            old(self).wf(),
            writes(
                *write,
                owes(
                    old(self)@,
                    EventView::OracleDraw {
                        prompt: prompt@,
                        outcome: outcome@,
                        provenance: provenance@,
                    },
                ),
            ),
        ensures
            final(self).wf(),
            final(self).model() == old(self).model(),
            *final(final(self).lent_journal()) == *final(old(self).lent_journal()),
            *final(final(self).lent_inbox()) == *final(old(self).lent_inbox()),
            r matches Ok(v) ==> v@ == outcome@,
            settled(
                *write,
                old(self)@,
                    EventView::OracleDraw {
                        prompt: prompt@,
                        outcome: outcome@,
                        provenance: provenance@,
                    },
                old(self)@.oracle_commit(prompt@, outcome@, provenance@),
                final(self)@,
                fault_of(r),
            ),
    {
        let event = Event::OracleDraw {
            prompt: prompt.clone(),
            outcome: outcome.clone(),
            provenance: provenance.clone(),
        };
        match self.announce(write, &event) {
            Err(f) => Err(f),
            Ok(()) => {
                let kept = self.oracle_commit(prompt, outcome, provenance);
                let written = self.sync();
                Ok(kept)
            },
        }
    }
}

impl<'a, O: Oracle> Ctx<'a, O> {
    /// One model call, journaled once.
    pub fn oracle_stored<W: Fn(&[u8]) -> Result<(), Fault>>(
        &mut self,
        write: &W,
        prompt: Value,
    ) -> (r: Result<Value, Fault>)
        requires
            old(self).wf(),
            ({
                let (c, a) = old(self)@.oracle_replay(prompt@);
                a == Ok::<Option<Seq<u8>>, FaultView>(None) ==> forall|
                    outcome: Seq<u8>,
                    provenance: Seq<char>,
                |
                    writes(
                        *write,
                        #[trigger] owes(
                            c,
                            EventView::OracleDraw { prompt: prompt@, outcome, provenance },
                        ),
                    )
            }),
        ensures
            final(self).wf(),
            *final(final(self).lent_journal()) == *final(old(self).lent_journal()),
            *final(final(self).lent_inbox()) == *final(old(self).lent_inbox()),
            ({
                let (c, a) = old(self)@.oracle_replay(prompt@);
                match a {
                    Ok(Some(outcome)) => {
                        &&& r matches Ok(v) && v@ == outcome
                        &&& final(self)@ == c
                        &&& final(self).model() == old(self).model()
                    },
                    Err(f) => {
                        &&& r matches Err(g) && g@ == f
                        &&& final(self)@ == c
                        &&& final(self).model() == old(self).model()
                    },
                    Ok(None) => exists|m: &mut O, sampled: Result<Value, Fault>| #[trigger]
                        call_ensures(O::call, (m, &prompt), sampled) && ({
                            &&& old(self).model() is Some
                            &&& final(self).model() is Some
                            &&& *m == *(old(self).model()->0)
                            &&& *final(m) == *(final(self).model()->0)
                            &&& *final(final(self).model()->0) == *final(old(self).model()->0)
                            &&& match sampled {
                                Err(f) => r == sampled && final(self)@ == c,
                                Ok(out) => exists|provenance: String| #[trigger]
                                    call_ensures(O::provenance, (&*final(m),), provenance) && ({
                                        &&& r matches Ok(v) ==> v@ == out@
                                        &&& settled(
                                            *write,
                                            c,
                    EventView::OracleDraw {
                                                    prompt: prompt@,
                                                    outcome: out@,
                                                    provenance: provenance@,
                                                },
                                            c.oracle_commit(prompt@, out@, provenance@),
                                            final(self)@,
                                            fault_of(r),
                                        )
                                    }),
                            }
                        }),
                }
            }),
    {
        match self.oracle_replay(&prompt) {
            Err(f) => Err(f),
            Ok(Some(outcome)) => Ok(outcome),
            Ok(None) => {
                let sampled = self.sample(&prompt);
                match sampled {
                    Err(f) => Err(f),
                    Ok((outcome, provenance)) => self.oracle_commit_stored(
                        write,
                        prompt,
                        outcome,
                        provenance,
                    ),
                }
            },
        }
    }
}

/// A step on stable storage hands over exactly what it owes, once, before it
/// counts: the records that were still owed and its own. If the write succeeds,
/// the event is the last of the journal and nothing is owed; if it fails, its
/// fault is the answer and everything is as it was.
pub proof fn law_step_is_written_before_it_counts<W: Fn(&[u8]) -> Result<(), Fault>>(
    write: W,
    c: CtxView,
    event: EventView,
    done: CtxView,
    end: CtxView,
    fault: Option<Fault>,
)
    requires
        settled(write, c, event, done, end, fault),
        done.journal == c.journal.append(event),
        c.journal.durable,
    ensures
        exists|bytes: &[u8], r: Result<(), Fault>| #[trigger]
            call_ensures(write, (bytes,), r) && bytes@ == c.journal.unsynced + journal::frame(
                c.journal.next_entry(event),
            ) && (r is Ok <==> fault is None) && (r matches Err(f) ==> fault == Some(f)),
        fault is Some ==> end == c,
        fault is None ==> end.journal.unsynced.len() == 0 && end.journal.events()
            == c.journal.events().push(event) && end.pos == done.pos && end.trace == done.trace
            && end.inbox == done.inbox && end.budget == done.budget,
{
    let owed = owes(c, event);
    let e = c.journal.next_entry(event);
    assert(owed == c.journal.unsynced + journal::frame(e));
    assert(journal::frame(e).len() >= 4) by {
        vstd::bytes::lemma_auto_spec_u32_to_from_le_bytes();
    }
    let (bytes, r) = choose|bytes: &[u8], r: Result<(), Fault>| #[trigger]
        call_ensures(write, (bytes,), r) && bytes@ == owed && fault_of(r) == fault;
    assert(call_ensures(write, (bytes,), r));
    if fault is None {
        assert(end.journal.events() =~= c.journal.events().push(event));
    }
}

/// An effect that was performed is committed, with the result that performing
/// it gave, or the fault of the write is the answer and the intent stays open.
/// One that failed is answered by its own fault, and its intent stays open.
pub proof fn law_performed_effect_is_committed<W: Fn(&[u8]) -> Result<(), Fault>>(
    write: W,
    begun: CtxView,
    name: Seq<char>,
    performed: Result<Value, Fault>,
    end: CtxView,
    r: Result<Value, Fault>,
)
    requires
        after_performing(write, begun, name, performed, end, r),
    ensures
        performed is Err ==> r == performed && end == begun,
        r is Err ==> end == begun,
        r matches Ok(v) ==> (performed matches Ok(out) && v@ == out@) && end.journal.events()
            == begun.journal.events().push(EventView::EffectCommit { name, result: v@ }),
{
    if let Ok(v) = r {
        let commit = EventView::EffectCommit { name, result: v@ };
        assert(end.journal.events() =~= begun.journal.events().push(commit));
    }
}

/// At the end of a journal on stable storage, a granted effect that succeeds has
/// performed on its argument, and its intent and its result are journaled behind
/// what was there, with nothing owed. One that fails has left at most its
/// intent, and never a result.
pub proof fn law_stored_effect_is_journaled<
    'a,
    O,
    W: Fn(&[u8]) -> Result<(), Fault>,
    F: FnOnce(&Value) -> Result<Value, Fault>,
>(
    before: Ctx<'a, O>,
    after: Ctx<'a, O>,
    write: &W,
    name: &str,
    arg: Value,
    perform: F,
    r: Result<Value, Fault>,
)
    requires
        exists|c: &mut Ctx<'a, O>| #[trigger]
            call_ensures(
                Ctx::<'a, O>::effect_stored::<W, F>,
                (c, write, name, arg, perform),
                r,
            ) && *c == before && *final(c) == after,
        before@.pos == before@.journal.entries.len(),
        !before@.strict,
        before@.caps matches Some(set) ==> set.contains(name@),
    ensures
        ({
            let was = before@.journal.events();
            let now = after@.journal.events();
            let intent = EventView::EffectIntent { name: name@, arg: arg@ };
            &&& r matches Ok(v) ==> now == was + seq![
                intent,
                EventView::EffectCommit { name: name@, result: v@ },
            ] && after@.journal.unsynced.len() == 0 && exists|performed: Result<Value, Fault>|
                #[trigger]
                call_ensures(perform, (&arg,), performed) && (performed matches Ok(out) && out@
                    == v@)
            &&& r is Err ==> now == was || now == was + seq![intent]
        }),
{
    let c = choose|c: &mut Ctx<'a, O>| #[trigger]
        call_ensures(Ctx::<'a, O>::effect_stored::<W, F>, (c, write, name, arg, perform), r) && *c
            == before && *final(c) == after;
    assert(call_ensures(Ctx::<'a, O>::effect_stored::<W, F>, (c, write, name, arg, perform), r));
    let was = before@.journal.events();
    let intent = EventView::EffectIntent { name: name@, arg: arg@ };
    let begun = before@.effect_begin(name@, arg@);
    assert(begun.journal.events() =~= was + seq![intent]);
    assert(begun.synced().journal.events() =~= was + seq![intent]);
    assert forall|out: Seq<u8>|
        (#[trigger] begun.synced().effect_commit(name@, out)).synced().journal.events() == was
            + seq![intent, EventView::EffectCommit { name: name@, result: out }] by {
        let commit = EventView::EffectCommit { name: name@, result: out };
        assert(begun.synced().effect_commit(name@, out).journal.events() =~= was + seq![
            intent,
            commit,
        ]);
        assert(begun.synced().effect_commit(name@, out).synced().journal.events()
            =~= begun.synced().effect_commit(name@, out).journal.events());
    }
}

} // verus!
