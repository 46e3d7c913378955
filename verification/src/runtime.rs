//! The runtime: record, resume, replay.
//!
//! Wrap an agent in a closure over [`Ctx`], hand it to the runtime under a
//! stable run id, and every oracle call, effect, receive and clock read is
//! journaled as the run proceeds.
use vstd::prelude::*;

use crate::ctx;
use crate::ctx::{Ctx, CtxView, RunOptions, TraceLabel};
use crate::event::EventView;
use crate::fault::{Fault, FaultView};
use crate::journal;
use crate::journal::{Cursor, Journal, JournalView};
use crate::oracle::Oracle;
use crate::recovery_laws;
use crate::sha256::Digest;
use crate::store;
use crate::store::{JournalStore, Recover, StoreView};
use crate::value::Value;

verus! {

/// The result of driving one run to completion.
#[derive(Debug)]
pub struct RunReport {
    pub run_id: String,
    /// The agent's output.
    pub output: Value,
    /// The observable trace, identical between a recorded run and its replay.
    pub trace: Vec<TraceLabel>,
    /// Journal length after this attempt.
    pub journal_len: u64,
    /// Head of the tamper-evident hash chain (the run's integrity commitment).
    pub chain_head: Option<Digest>,
    /// Steps served from the journal (zero model calls).
    pub replayed_steps: u64,
    /// Model calls recorded fresh this attempt.
    pub fresh_steps: u64,
}

impl Clone for RunReport {
    fn clone(&self) -> (r: Self)
        ensures
            r.run_id@ == self.run_id@,
            r.output@ == self.output@,
            ctx::label_views(r.trace@) == ctx::label_views(self.trace@),
            r.journal_len == self.journal_len,
            r.chain_head == self.chain_head,
            r.replayed_steps == self.replayed_steps,
            r.fresh_steps == self.fresh_steps,
    {
        let mut trace: Vec<TraceLabel> = Vec::new();
        let mut i: usize = 0;
        while i < self.trace.len()
            invariant
                i <= self.trace@.len(),
                trace@.len() == i,
                forall|k: int| 0 <= k < i ==> (#[trigger] trace@[k])@ == self.trace@[k]@,
            decreases self.trace@.len() - i,
        {
            trace.push(self.trace[i].clone());
            i += 1;
        }
        assert(ctx::label_views(trace@) =~= ctx::label_views(self.trace@));
        RunReport {
            run_id: self.run_id.clone(),
            output: self.output.clone(),
            trace,
            journal_len: self.journal_len,
            chain_head: self.chain_head,
            replayed_steps: self.replayed_steps,
            fresh_steps: self.fresh_steps,
        }
    }
}

/// Does the report tell what an attempt that ended in the state `c` with the
/// output `out` has done?
pub open spec fn reports(r: RunReport, run_id: Seq<char>, out: Value, c: CtxView) -> bool {
    &&& r.run_id@ == run_id
    &&& r.output == out
    &&& ctx::label_views(r.trace@) == c.finished(Some(out@))
    &&& r.journal_len == c.journal.entries.len()
    &&& match r.chain_head {
        Some(d) => c.journal.entries.len() > 0 && d@ == c.journal.entries.last().hash,
        None => c.journal.entries.len() == 0,
    }
    &&& r.replayed_steps == c.replayed
    &&& r.fresh_steps == c.fresh
}

/// Does an attempt that took a context from `start` to `end`, and ended in
/// `result`, turn the store `before` into `after` and return `r`?
pub open spec fn attempted(
    before: StoreView,
    after: StoreView,
    run_id: Seq<char>,
    opts: RunOptions,
    strict: bool,
    start: CtxView,
    end: CtxView,
    result: Result<Value, Fault>,
    r: Result<RunReport, Fault>,
) -> bool {
    &&& start == CtxView::start(
        before.journals[run_id],
        before.inbox(run_id),
        strict,
        opts.budget,
        ctx::caps_view(opts.caps),
    )
    &&& after == before.after_attempt(run_id, end.journal, end.inbox)
    &&& match result {
        Err(f) => r == Err::<RunReport, Fault>(f),
        Ok(out) => r matches Ok(report) && reports(report, run_id, out, end),
    }
}

/// Are the journal and the inbox that were lent to a context what it held in its
/// last state?
pub open spec fn handed_back(end: CtxView, journal: Journal, inbox: ctx::Inbox) -> bool {
    journal@ == end.journal && ctx::inbox_view(inbox@) == end.inbox
}

/// Does `decisions` close the dangling intents of `run_id`, each as the policy
/// can decide, and turn the store `before` into `after`?
pub open spec fn recovered<R: FnMut(&str, &Value) -> Recover>(
    recovery: R,
    before: StoreView,
    after: StoreView,
    run_id: Seq<char>,
    j: JournalView,
    decisions: Seq<Recover>,
) -> bool {
    let open = journal::open_intents(j.events());
    &&& decisions.len() == open.len()
    &&& after == before.with_journal(
        run_id,
        j.append_all(store::closings(open, store::decision_views(decisions))),
    )
    &&& forall|i: int|
        0 <= i < open.len() ==> store::decided(
            recovery,
            open[i].0,
            store::intent_arg(j.events(), open[i].1),
            #[trigger] decisions[i],
        )
}

/// The runtime: owns the oracle (the model client) and the journals of every
/// run it drives.
pub struct Runtime<O> {
    oracle: O,
    store: JournalStore,
}

impl<O> Runtime<O> {
    /// The oracle this runtime records with.
    pub closed spec fn model(&self) -> O {
        self.oracle
    }

    /// The journals and inboxes.
    pub closed spec fn store(&self) -> StoreView {
        self.store@
    }

    /// A runtime whose journals live in memory only (tests, ephemeral runs).
    pub fn in_memory(oracle: O) -> (r: Self)
        ensures
            r.model() == oracle,
            r.store() == StoreView::empty(false),
    {
        Runtime { oracle, store: JournalStore::in_memory() }
    }

    /// A runtime whose journals are kept on stable storage, one file per run.
    pub fn durable(oracle: O) -> (r: Self)
        ensures
            r.model() == oracle,
            r.store() == StoreView::empty(true),
    {
        Runtime { oracle, store: JournalStore::durable() }
    }

    /// Keys the journals' hash chains with HMAC-SHA-256 under `key`, making
    /// the audit trail attributable to this runtime, not just tamper-evident.
    pub fn with_key(self, key: &[u8]) -> (r: Self)
        ensures
            r.model() == self.model(),
            r.store() == (StoreView { key: Some(key@), ..self.store() }),
    {
        let mut store = self.store;
        store.set_key(key);
        Runtime { oracle: self.oracle, store }
    }

    /// Is the journal of `run_id` loaded?
    pub fn is_loaded(&self, run_id: &str) -> (r: bool)
        ensures
            r == self.store().journals.dom().contains(run_id@),
    {
        self.store.is_loaded(run_id)
    }

    /// Loads the journal of `run_id` from what stable storage holds for it, or
    /// creates it if storage holds nothing and `create` is given. A journal
    /// that is loaded already stays as it is.
    pub fn load(&mut self, run_id: &str, create: bool, stored: Option<&[u8]>) -> (r: Result<
        &mut Journal,
        Fault,
    >)
        ensures
            final(self).model() == old(self).model(),
            ({
                let bytes = match stored {
                    Some(b) => Some(b@),
                    None => None,
                };
                match r {
                    Ok(j) => old(self).store().load(run_id@, create, bytes) == Ok::<
                        JournalView,
                        FaultView,
                    >(j@) && final(self).store() == old(self).store().with_journal(
                        run_id@,
                        final(j)@,
                    ),
                    Err(f) => old(self).store().load(run_id@, create, bytes) == Err::<
                        JournalView,
                        FaultView,
                    >(f@) && final(self).store() == old(self).store(),
                }
            }),
    {
        self.store.load(run_id, create, stored)
    }

    /// Direct access to a loaded journal (inspection, tests).
    pub fn journal(&mut self, run_id: &str) -> (r: Result<&mut Journal, Fault>)
        ensures
            final(self).model() == old(self).model(),
            match r {
                Ok(j) => old(self).store().load(run_id@, false, None) == Ok::<
                    JournalView,
                    FaultView,
                >(j@) && final(self).store() == old(self).store().with_journal(run_id@, final(j)@),
                Err(f) => old(self).store().load(run_id@, false, None) == Err::<
                    JournalView,
                    FaultView,
                >(f@) && final(self).store() == old(self).store(),
            },
    {
        self.store.load(run_id, false, None)
    }

    /// Delivers a value to a run's channel inbox (single-process delivery; the
    /// receive itself is journaled when the agent consumes it).
    pub fn send<V: Into<Value>>(&mut self, run_id: &str, channel: &str, value: V)
        ensures
            final(self).model() == old(self).model(),
            exists|v: Value| #[trigger]
                call_ensures(V::into, (value,), v) && final(self).store() == old(self).store().sent(
                    run_id@,
                    channel@,
                    v@,
                ),
    {
        let value: Value = value.into();
        self.store.send(run_id, channel, value);
    }

    /// Verifies the run's hash chain end to end. `Err(cursor)` names the first
    /// tampered entry.
    pub fn verify(&mut self, run_id: &str) -> (r: Result<Result<(), Cursor>, Fault>)
        ensures
            final(self).model() == old(self).model(),
            match old(self).store().load(run_id@, false, None) {
                Err(f) => (r matches Err(g) && g@ == f) && final(self).store() == old(self).store(),
                Ok(j) => final(self).store() == old(self).store().with_journal(run_id@, j) && match r {
                    Err(f) => false,
                    Ok(Ok(())) => j.intact(),
                    Ok(Err(c)) => {
                        &&& c < j.entries.len()
                        &&& !journal::link_holds(j.key, j.entries, c as int)
                        &&& forall|i: int|
                            0 <= i < c ==> #[trigger] journal::link_holds(j.key, j.entries, i)
                    },
                },
            },
    {
        match self.store.load(run_id, false, None) {
            Err(f) => Err(f),
            Ok(j) => Ok(j.verify()),
        }
    }

    /// Drops the in-memory cache for `run_id` (a durable runtime is told again
    /// what storage holds on next use).
    pub fn evict(&mut self, run_id: &str)
        ensures
            final(self).model() == old(self).model(),
            final(self).store() == (StoreView {
                journals: old(self).store().journals.remove(run_id@),
                ..old(self).store()
            }),
    {
        self.store.evict(run_id);
    }

    /// The oracle this runtime records with.
    pub fn oracle(&self) -> (r: &O)
        ensures
            *r == self.model(),
    {
        &self.oracle
    }
}

impl<O: Oracle> Runtime<O> {
    /// Drives one attempt of a run whose journal is loaded.
    fn execute<F: FnOnce(&mut Ctx<O>) -> Result<Value, Fault>>(
        &mut self,
        run_id: &str,
        opts: &RunOptions,
        strict: bool,
        agent: F,
    ) -> (r: Result<RunReport, Fault>)
        requires
            old(self).store().journals.dom().contains(run_id@),
            forall|c: &mut Ctx<O>|
                c.wf() && c@.journal.durable == old(self).store().journals[run_id@].durable
                    ==> #[trigger] call_requires(agent, (c,)),
        ensures
            exists|c: &mut Ctx<O>, result: Result<Value, Fault>| #[trigger]
                call_ensures(agent, (c,), result) && c.wf() && handed_back(
                    final(c)@,
                    *final(final(c).lent_journal()),
                    *final(final(c).lent_inbox()),
                ) && attempted(
                    old(self).store(),
                    final(self).store(),
                    run_id@,
                    *opts,
                    strict,
                    c@,
                    final(c)@.leaving(*final(c.lent_journal()), *final(c.lent_inbox())),
                    result,
                    r,
                ) && (if strict {
                    c.model() is None && final(self).model() == old(self).model()
                } else {
                    (c.model() matches Some(m) && *m == old(self).model() && *final(m) == final(
                        self).model()) && (final(c).model() matches Some(n) ==> *final(n) == *n)
                }),
    {
        match self.store.parts(run_id) {
            None => Err(store::missing(run_id)),
            Some((journal, inbox)) => {
                let ctx: Ctx<O> = if strict {
                    Ctx::replaying(&mut *journal, inbox, opts)
                } else {
                    Ctx::recording(&mut *journal, &mut self.oracle, inbox, opts)
                };
                let mut ctx = ctx;
                let result = agent(&mut ctx);
                let done = match &result {
                    Ok(out) => ctx.finish(Some(out)),
                    Err(f) => ctx.finish(None),
                };
                match result {
                    Err(f) => Err(f),
                    Ok(output) => Ok(
                        RunReport {
                            run_id: run_id.to_owned(),
                            output,
                            trace: done.trace,
                            journal_len: journal.len(),
                            chain_head: journal.head(),
                            replayed_steps: done.replayed,
                            fresh_steps: done.fresh,
                        },
                    ),
                }
            },
        }
    }

    /// Starts (or continues) a durable run. If a journal for `run_id` already
    /// exists, its prefix is replayed first: `run` is safely re-enterable,
    /// which is what makes retries idempotent.
    pub fn run<F: FnOnce(&mut Ctx<O>) -> Result<Value, Fault>>(
        &mut self,
        run_id: &str,
        agent: F,
    ) -> (r: Result<RunReport, Fault>)
        requires
            old(self).store().load(run_id@, true, None) matches Ok(j) ==> forall|c: &mut Ctx<O>|
                c.wf() && c@.journal.durable == j.durable ==> #[trigger] call_requires(
                    agent,
                    (c,),
                ),
        ensures
            match old(self).store().load(run_id@, true, None) {
                Err(f) => false,
                Ok(j) => exists|c: &mut Ctx<O>, result: Result<Value, Fault>| #[trigger]
                    call_ensures(agent, (c,), result) && c.wf() && handed_back(
                        final(c)@,
                        *final(final(c).lent_journal()),
                        *final(final(c).lent_inbox()),
                    ) && attempted(
                        old(self).store().with_journal(run_id@, j),
                        final(self).store(),
                        run_id@,
                        (RunOptions { budget: None, caps: None }),
                        false,
                        c@,
                        final(c)@.leaving(*final(c.lent_journal()), *final(c.lent_inbox())),
                        result,
                        r,
                    ) && (c.model() matches Some(m) && *m == old(self).model() && *final(m)
                        == final(self).model()) && (final(c).model() matches Some(n) ==> *final(n)
                        == *n),
            },
    {
        self.run_with(run_id, RunOptions::default(), agent)
    }

    /// [`run`](Self::run) with explicit budget and capability options.
    pub fn run_with<F: FnOnce(&mut Ctx<O>) -> Result<Value, Fault>>(
        &mut self,
        run_id: &str,
        opts: RunOptions,
        agent: F,
    ) -> (r: Result<RunReport, Fault>)
        requires
            old(self).store().load(run_id@, true, None) matches Ok(j) ==> forall|c: &mut Ctx<O>|
                c.wf() && c@.journal.durable == j.durable ==> #[trigger] call_requires(
                    agent,
                    (c,),
                ),
        ensures
            match old(self).store().load(run_id@, true, None) {
                Err(f) => false,
                Ok(j) => exists|c: &mut Ctx<O>, result: Result<Value, Fault>| #[trigger]
                    call_ensures(agent, (c,), result) && c.wf() && handed_back(
                        final(c)@,
                        *final(final(c).lent_journal()),
                        *final(final(c).lent_inbox()),
                    ) && attempted(
                        old(self).store().with_journal(run_id@, j),
                        final(self).store(),
                        run_id@,
                        opts,
                        false,
                        c@,
                        final(c)@.leaving(*final(c.lent_journal()), *final(c.lent_inbox())),
                        result,
                        r,
                    ) && (c.model() matches Some(m) && *m == old(self).model() && *final(m)
                        == final(self).model()) && (final(c).model() matches Some(n) ==> *final(n)
                        == *n),
            },
    {
        match self.store.load(run_id, true, None) {
            Err(f) => {
                return Err(f);
            },
            Ok(j) => {},
        }
        self.execute(run_id, &opts, false, agent)
    }

    /// Resumes a crashed run: replays the journaled prefix (zero model calls,
    /// no duplicate effects), then continues recording where it stopped.
    /// Dangling intents are written off. Errors if no journal exists for
    /// `run_id`.
    pub fn resume<F: FnOnce(&mut Ctx<O>) -> Result<Value, Fault>>(
        &mut self,
        run_id: &str,
        agent: F,
    ) -> (r: Result<RunReport, Fault>)
        requires
            old(self).store().load(run_id@, false, None) matches Ok(j) ==> forall|c: &mut Ctx<O>|
                c.wf() && c@.journal.durable == j.durable ==> #[trigger] call_requires(
                    agent,
                    (c,),
                ),
        ensures
            match old(self).store().load(run_id@, false, None) {
                Err(f) => (r matches Err(g) && g@ == f) && final(self).store() == old(self).store()
                    && final(self).model() == old(self).model(),
                Ok(j) => exists|c: &mut Ctx<O>, result: Result<Value, Fault>| #[trigger]
                    call_ensures(agent, (c,), result) && c.wf() && handed_back(
                        final(c)@,
                        *final(final(c).lent_journal()),
                        *final(final(c).lent_inbox()),
                    ) && attempted(
                        old(self).store().with_journal(run_id@, store::written_off(j)),
                        final(self).store(),
                        run_id@,
                        (RunOptions { budget: None, caps: None }),
                        false,
                        c@,
                        final(c)@.leaving(*final(c.lent_journal()), *final(c.lent_inbox())),
                        result,
                        r,
                    ) && (c.model() matches Some(m) && *m == old(self).model() && *final(m)
                        == final(self).model()) && (final(c).model() matches Some(n) ==> *final(n)
                        == *n),
            },
    {
        self.restart(run_id, RunOptions::default(), agent)
    }

    /// Resumes a run, with options; dangling intents are written off.
    pub fn restart<F: FnOnce(&mut Ctx<O>) -> Result<Value, Fault>>(
        &mut self,
        run_id: &str,
        opts: RunOptions,
        agent: F,
    ) -> (r: Result<RunReport, Fault>)
        requires
            old(self).store().load(run_id@, false, None) matches Ok(j) ==> forall|c: &mut Ctx<O>|
                c.wf() && c@.journal.durable == j.durable ==> #[trigger] call_requires(
                    agent,
                    (c,),
                ),
        ensures
            match old(self).store().load(run_id@, false, None) {
                Err(f) => (r matches Err(g) && g@ == f) && final(self).store() == old(self).store()
                    && final(self).model() == old(self).model(),
                Ok(j) => exists|c: &mut Ctx<O>, result: Result<Value, Fault>| #[trigger]
                    call_ensures(agent, (c,), result) && c.wf() && handed_back(
                        final(c)@,
                        *final(final(c).lent_journal()),
                        *final(final(c).lent_inbox()),
                    ) && attempted(
                        old(self).store().with_journal(run_id@, store::written_off(j)),
                        final(self).store(),
                        run_id@,
                        opts,
                        false,
                        c@,
                        final(c)@.leaving(*final(c.lent_journal()), *final(c.lent_inbox())),
                        result,
                        r,
                    ) && (c.model() matches Some(m) && *m == old(self).model() && *final(m)
                        == final(self).model()) && (final(c).model() matches Some(n) ==> *final(n)
                        == *n),
            },
    {
        let ghost before = self.store();
        match self.store.write_off_dangling(run_id, None) {
            Err(f) => {
                return Err(f);
            },
            Ok(()) => {},
        }
        proof {
            store::lemma_written_off(before.load(run_id@, false, None)->Ok_0);
        }
        self.execute(run_id, &opts, false, agent)
    }

    /// [`resume`](Self::resume) with options and an explicit recovery policy
    /// for dangling effect intents: for each effect that crashed inside its
    /// write-ahead window, decide whether it completed (`Recover::Commit`) or
    /// must be written off (`Recover::Compensate`).
    pub fn resume_with<
        R: FnMut(&str, &Value) -> Recover,
        F: FnOnce(&mut Ctx<O>) -> Result<Value, Fault>,
    >(&mut self, run_id: &str, opts: RunOptions, recovery: R, agent: F) -> (r: Result<
        RunReport,
        Fault,
    >)
        requires
            old(self).store().load(run_id@, false, None) matches Ok(j) ==> forall|c: &mut Ctx<O>|
                c.wf() && c@.journal.durable == j.durable ==> #[trigger] call_requires(
                    agent,
                    (c,),
                ),
            old(self).store().load(run_id@, false, None) matches Ok(j) ==> store::may_decide(
                recovery,
                j.events(),
            ),
        ensures
            match old(self).store().load(run_id@, false, None) {
                Err(f) => (r matches Err(g) && g@ == f) && final(self).store() == old(self).store()
                    && final(self).model() == old(self).model(),
                Ok(j) => exists|
                    mid: StoreView,
                    decisions: Seq<Recover>,
                    c: &mut Ctx<O>,
                    result: Result<Value, Fault>,
                |
                    #![trigger recovered(recovery, old(self).store(), mid, run_id@, j, decisions), call_ensures(agent, (c,), result)]
                    recovered(recovery, old(self).store(), mid, run_id@, j, decisions) && call_ensures(
                        agent,
                        (c,),
                        result,
                    ) && c.wf() && handed_back(
                        final(c)@,
                        *final(final(c).lent_journal()),
                        *final(final(c).lent_inbox()),
                    ) && attempted(
                        mid,
                        final(self).store(),
                        run_id@,
                        opts,
                        false,
                        c@,
                        final(c)@.leaving(*final(c.lent_journal()), *final(c.lent_inbox())),
                        result,
                        r,
                    ) && (c.model() matches Some(m) && *m == old(self).model() && *final(m)
                        == final(self).model()) && (final(c).model() matches Some(n) ==> *final(n)
                        == *n),
            },
    {
        let ghost before = self.store();
        match self.store.recover_dangling(run_id, None, recovery) {
            Err(f) => {
                return Err(f);
            },
            Ok(()) => {},
        }
        proof {
            let j = before.load(run_id@, false, None)->Ok_0;
            let open = journal::open_intents(j.events());
            let decisions = choose|decisions: Seq<Recover>| #[trigger]
                store::decision_views(decisions).len() == open.len() && self.store()
                    == before.with_journal(
                    run_id@,
                    j.append_all(store::closings(open, store::decision_views(decisions))),
                ) && forall|i: int|
                    0 <= i < open.len() ==> store::decided(recovery, open[i].0,
                        store::intent_arg(j.events(), open[i].1),
                        #[trigger] decisions[i],
                    );
            assert(recovered(recovery, before, self.store(), run_id@, j, decisions));
            journal::lemma_append_all_durable(
                j,
                store::closings(open, store::decision_views(decisions)),
            );
        }
        self.execute(run_id, &opts, false, agent)
    }

    /// Replays a recorded run, exactly, for debugging and audit. Every outcome
    /// is read from the journal; the model is never called: the attempt's
    /// context holds no model, and the runtime's stays as it is. Errors with
    /// [`Fault::ReplayExhausted`] if the recorded run never completed. A step
    /// that failed fails here, too, but with a fault of the journal, and one
    /// that the agent tried again succeeds at once.
    pub fn replay<F: FnOnce(&mut Ctx<O>) -> Result<Value, Fault>>(
        &mut self,
        run_id: &str,
        agent: F,
    ) -> (r: Result<RunReport, Fault>)
        requires
            old(self).store().load(run_id@, false, None) matches Ok(j) ==> forall|c: &mut Ctx<O>|
                c.wf() && c@.journal.durable == j.durable ==> #[trigger] call_requires(
                    agent,
                    (c,),
                ),
        ensures
            final(self).model() == old(self).model(),
            match old(self).store().load(run_id@, false, None) {
                Err(f) => (r matches Err(g) && g@ == f) && final(self).store() == old(self).store(),
                Ok(j) => exists|c: &mut Ctx<O>, result: Result<Value, Fault>| #[trigger]
                    call_ensures(agent, (c,), result) && c.wf() && handed_back(
                        final(c)@,
                        *final(final(c).lent_journal()),
                        *final(final(c).lent_inbox()),
                    ) && attempted(
                        old(self).store().with_journal(run_id@, j),
                        final(self).store(),
                        run_id@,
                        (RunOptions { budget: None, caps: None }),
                        true,
                        c@,
                        final(c)@.leaving(*final(c.lent_journal()), *final(c.lent_inbox())),
                        result,
                        r,
                    ) && c.model() is None,
            },
    {
        match self.store.load(run_id, false, None) {
            Err(f) => {
                return Err(f);
            },
            Ok(j) => {},
        }
        self.execute(run_id, &RunOptions::default(), true, agent)
    }
}

/// A recovery policy is asked about each dangling intent with the name and the
/// argument that the intent's event holds, and what it decides is what is
/// journaled behind everything that the journal held.
pub proof fn law_policy_is_asked_of_the_intent<R: FnMut(&str, &Value) -> Recover>(
    recovery: R,
    before: StoreView,
    after: StoreView,
    run_id: Seq<char>,
    j: JournalView,
    decisions: Seq<Recover>,
    i: int,
)
    requires
        recovered(recovery, before, after, run_id, j, decisions),
        j.events().len() <= u64::MAX,
        0 <= i < journal::open_intents(j.events()).len(),
    ensures
        ({
            let events = j.events();
            let cursor = journal::open_intents(events)[i].1;
            let now = after.journals[run_id].events();
            &&& exists|name: &str, arg: &Value| #[trigger]
                call_ensures(recovery, (name, arg), decisions[i]) && events[cursor as int] == (
                EventView::EffectIntent { name: name@, arg: arg@ })
            &&& now.take(events.len() as int) == events
            &&& now.len() == events.len() + journal::open_intents(events).len()
            &&& events[cursor as int] matches EventView::EffectIntent { name, .. } && (
            match decisions[i] {
                Recover::Commit(v) => now[events.len() + i] == (EventView::EffectCommit {
                    name,
                    result: v@,
                }),
                Recover::Compensate => now[events.len() + i] == (EventView::EffectCompensated {
                    name,
                }),
            })
        }),
{
    let events = j.events();
    let open = journal::open_intents(events);
    let views = store::decision_views(decisions);
    store::lemma_open_intent(events, i);
    store::law_closings_follow_the_decisions(j, views, i);
    assert(views[i] == decisions[i]@);
    assert(store::decided(
        recovery,
        open[i].0,
        store::intent_arg(events, open[i].1),
        decisions[i],
    ));
    let (name, arg) = choose|name: &str, arg: &Value|
        name@ == open[i].0 && arg@ == store::intent_arg(events, open[i].1) && #[trigger]
            call_ensures(recovery, (name, arg), decisions[i]);
    assert(events[open[i].1 as int] == (EventView::EffectIntent { name: name@, arg: arg@ }));
}

/// An attempt starts at the first entry of the journal that the store holds,
/// with the inbox of its run and the given limits, and has not observed
/// anything yet. It leaves its journal and its inbox to its run, and the other
/// runs alone. Its report, if it succeeds, counts what it has read and drawn.
pub proof fn law_attempt_concerns_its_run(
    before: StoreView,
    after: StoreView,
    run_id: Seq<char>,
    opts: RunOptions,
    strict: bool,
    start: CtxView,
    end: CtxView,
    result: Result<Value, Fault>,
    r: Result<RunReport, Fault>,
    other: Seq<char>,
)
    requires
        attempted(before, after, run_id, opts, strict, start, end, result, r),
    ensures
        start.journal == before.journals[run_id],
        start.pos == 0 && start.replayed == 0 && start.fresh == 0 && start.trace.len() == 0,
        start.budget == opts.budget,
        start.strict == strict,
        opts.caps is None <==> start.caps is None,
        opts.caps matches Some(list) ==> forall|i: int|
            0 <= i < list@.len() ==> start.caps->0.contains((#[trigger] list@[i])@),
        start.inbox == before.inbox(run_id),
        after.journals[run_id] == end.journal,
        after.inbox(run_id) == end.inbox,
        other != run_id ==> after.journals.dom().contains(other)
            == before.journals.dom().contains(other) && after.journals[other]
            == before.journals[other] && after.inbox(other) == before.inbox(other),
        after.key == before.key && after.durable == before.durable,
        result is Ok <==> r is Ok,
        result matches Err(f) ==> (r matches Err(g) && g == f),
        r matches Ok(report) ==> {
            &&& result == Ok::<Value, Fault>(report.output)
            &&& report.run_id@ == run_id
            &&& report.trace@.len() == end.trace.len() + 1
            &&& report.trace@.last()@ == (ctx::LabelView::Done { output: report.output@ })
            &&& forall|i: int|
                0 <= i < end.trace.len() ==> (#[trigger] report.trace@[i])@ == end.trace[i]
            &&& report.journal_len == end.journal.events().len()
            &&& report.chain_head is None <==> end.journal.entries.len() == 0
            &&& report.chain_head matches Some(d) ==> d@ == end.journal.entries.last().hash
            &&& report.replayed_steps == end.replayed
            &&& report.fresh_steps == end.fresh
        },
{
    if let Ok(report) = r {
        let labels = ctx::label_views(report.trace@);
        assert(labels == end.trace.push(ctx::LabelView::Done { output: report.output@ }));
        assert(labels.last() == report.trace@.last()@);
        assert forall|i: int| 0 <= i < end.trace.len() implies (#[trigger] report.trace@[i])@
            == end.trace[i] by {
            assert(labels[i] == report.trace@[i]@);
        }
    }
}

/// Was the agent driven from the first entry of `j`, with these limits, and is
/// what it ended with what is returned?
pub open spec fn drove(
    start: CtxView,
    result: Result<Value, Fault>,
    r: Result<RunReport, Fault>,
    j: JournalView,
    opts: RunOptions,
) -> bool {
    &&& start.journal == j
    &&& start.pos == 0 && start.trace.len() == 0 && start.replayed == 0 && start.fresh == 0
    &&& start.budget == opts.budget
    &&& start.caps == ctx::caps_view(opts.caps)
    &&& result matches Err(f) ==> (r matches Err(g) && g == f)
    &&& result matches Ok(out) ==> (r matches Ok(report) && report.output == out)
}

/// A replay drives the agent over the journal of its run, strictly and with no
/// model at hand; the runtime's model is never called. A run without a journal
/// is not replayed.
pub proof fn law_replay_holds_no_model<O: Oracle, F: FnOnce(&mut Ctx<O>) -> Result<Value, Fault>>(
    before: Runtime<O>,
    after: Runtime<O>,
    run_id: &str,
    agent: F,
    r: Result<RunReport, Fault>,
)
    requires
        exists|rt: &mut Runtime<O>| #[trigger]
            call_ensures(Runtime::<O>::replay::<F>, (rt, run_id, agent), r) && *rt == before
                && *final(rt) == after,
    ensures
        after.model() == before.model(),
        match before.store().load(run_id@, false, None) {
            Err(f) => r is Err && after.store() == before.store(),
            Ok(j) => exists|c: &mut Ctx<O>, result: Result<Value, Fault>| #[trigger]
                call_ensures(agent, (c,), result) && drove(
                    c@,
                    result,
                    r,
                    j,
                    (RunOptions { budget: None, caps: None }),
                ) && c@.strict && c.model() is None,
        },
{
    let rt = choose|rt: &mut Runtime<O>| #[trigger]
        call_ensures(Runtime::<O>::replay::<F>, (rt, run_id, agent), r) && *rt == before
            && *final(rt) == after;
    assert(call_ensures(Runtime::<O>::replay::<F>, (rt, run_id, agent), r));
}

/// A run drives the agent over what its journal holds, or over an empty one,
/// under the given limits, and falls through to recording with the runtime's
/// model.
pub proof fn law_run_records_with_the_model<
    O: Oracle,
    F: FnOnce(&mut Ctx<O>) -> Result<Value, Fault>,
>(
    before: Runtime<O>,
    after: Runtime<O>,
    run_id: &str,
    opts: RunOptions,
    agent: F,
    r: Result<RunReport, Fault>,
)
    requires
        exists|rt: &mut Runtime<O>| #[trigger]
            call_ensures(Runtime::<O>::run_with::<F>, (rt, run_id, opts, agent), r) && *rt == before
                && *final(rt) == after,
    ensures
        before.store().load(run_id@, true, None) matches Ok(j) && exists|
            c: &mut Ctx<O>,
            result: Result<Value, Fault>,
        | #[trigger]
            call_ensures(agent, (c,), result) && drove(c@, result, r, j, opts) && !c@.strict
                && (c.model() matches Some(m) && *m == before.model() && *final(m)
                == after.model()),
{
    let rt = choose|rt: &mut Runtime<O>| #[trigger]
        call_ensures(Runtime::<O>::run_with::<F>, (rt, run_id, opts, agent), r) && *rt == before
            && *final(rt) == after;
    assert(call_ensures(Runtime::<O>::run_with::<F>, (rt, run_id, opts, agent), r));
}

/// A resumed run drives the agent over all that its journal held, with every
/// intent that dangled written off behind it, and goes on recording with the
/// runtime's model. A run without a journal is not resumed.
pub proof fn law_resume_goes_on_from_the_journal<
    O: Oracle,
    F: FnOnce(&mut Ctx<O>) -> Result<Value, Fault>,
>(
    before: Runtime<O>,
    after: Runtime<O>,
    run_id: &str,
    agent: F,
    r: Result<RunReport, Fault>,
)
    requires
        exists|rt: &mut Runtime<O>| #[trigger]
            call_ensures(Runtime::<O>::resume::<F>, (rt, run_id, agent), r) && *rt == before
                && *final(rt) == after,
    ensures
        match before.store().load(run_id@, false, None) {
            Err(f) => r is Err && after.store() == before.store() && after.model()
                == before.model(),
            Ok(j) => exists|c: &mut Ctx<O>, result: Result<Value, Fault>| #[trigger]
                call_ensures(agent, (c,), result) && drove(
                    c@,
                    result,
                    r,
                    c@.journal,
                    (RunOptions { budget: None, caps: None }),
                ) && !c@.strict && c@.journal.events().take(j.events().len() as int) == j.events()
                    && journal::open_intents(c@.journal.events()).len() == 0 && (
                c.model() matches Some(m) && *m == before.model() && *final(m) == after.model()),
        },
{
    let rt = choose|rt: &mut Runtime<O>| #[trigger]
        call_ensures(Runtime::<O>::resume::<F>, (rt, run_id, agent), r) && *rt == before
            && *final(rt) == after;
    assert(call_ensures(Runtime::<O>::resume::<F>, (rt, run_id, agent), r));
    if let Ok(j) = before.store().load(run_id@, false, None) {
        recovery_laws::law_written_off_has_nothing_dangling(j);
        let open = journal::open_intents(j.events());
        let all = Seq::new(open.len(), |k: int| store::RecoverView::Compensate);
        store::lemma_events_after(j, store::closings(open, all));
        let now = store::written_off(j).events();
        assert(now.take(j.events().len() as int) =~= j.events());
    }
}

/// Was the policy asked about the intent by the name and with the argument that
/// its event holds, did it decide so, and is that decision what `closing`
/// journals?
pub open spec fn asked<R: FnMut(&str, &Value) -> Recover>(
    recovery: R,
    intent: EventView,
    decision: Recover,
    closing: EventView,
) -> bool {
    exists|name: &str, arg: &Value| #[trigger]
        call_ensures(recovery, (name, arg), decision) && intent == (EventView::EffectIntent {
            name: name@,
            arg: arg@,
        }) && closing == (match decision {
            Recover::Commit(v) => EventView::EffectCommit { name: name@, result: v@ },
            Recover::Compensate => EventView::EffectCompensated { name: name@ },
        })
}

/// A run that is resumed with a policy asks it about every dangling intent, by
/// the name and with the argument that the intent's event holds, journals what
/// it decides, in order, behind all that the journal held, and drives the agent
/// over that, under the given limits.
pub proof fn law_resume_asks_the_policy<
    O: Oracle,
    R: FnMut(&str, &Value) -> Recover,
    F: FnOnce(&mut Ctx<O>) -> Result<Value, Fault>,
>(
    before: Runtime<O>,
    after: Runtime<O>,
    run_id: &str,
    opts: RunOptions,
    recovery: R,
    agent: F,
    r: Result<RunReport, Fault>,
    j: JournalView,
)
    requires
        exists|rt: &mut Runtime<O>| #[trigger]
            call_ensures(Runtime::<O>::resume_with::<R, F>, (rt, run_id, opts, recovery, agent), r)
                && *rt == before && *final(rt) == after,
        before.store().load(run_id@, false, None) == Ok::<JournalView, FaultView>(j),
        j.events().len() <= u64::MAX,
    ensures
        exists|decisions: Seq<Recover>, c: &mut Ctx<O>, result: Result<Value, Fault>|
            #![trigger store::decision_views(decisions), call_ensures(agent, (c,), result)]
            call_ensures(agent, (c,), result) && drove(c@, result, r, c@.journal, opts)
                && !c@.strict && (c.model() matches Some(m) && *m == before.model() && *final(m)
                == after.model()) && decisions.len() == journal::open_intents(j.events()).len()
                && c@.journal.events().len() == j.events().len() + decisions.len()
                && c@.journal.events().take(j.events().len() as int) == j.events() && forall|i: int|
                0 <= i < decisions.len() ==> asked(
                    recovery,
                    j.events()[journal::open_intents(j.events())[i].1 as int],
                    #[trigger] decisions[i],
                    c@.journal.events()[j.events().len() + i],
                ),
{
    let rt = choose|rt: &mut Runtime<O>| #[trigger]
        call_ensures(Runtime::<O>::resume_with::<R, F>, (rt, run_id, opts, recovery, agent), r)
            && *rt == before && *final(rt) == after;
    assert(call_ensures(
        Runtime::<O>::resume_with::<R, F>,
        (rt, run_id, opts, recovery, agent),
        r,
    ));
    let (mid, decisions, c, result) = choose|
        mid: StoreView,
        decisions: Seq<Recover>,
        c: &mut Ctx<O>,
        result: Result<Value, Fault>,
    |
        #![trigger recovered(recovery, before.store(), mid, run_id@, j, decisions), call_ensures(agent, (c,), result)]
        recovered(recovery, before.store(), mid, run_id@, j, decisions) && call_ensures(
            agent,
            (c,),
            result,
        ) && c.wf() && attempted(
            mid,
            after.store(),
            run_id@,
            opts,
            false,
            c@,
            final(c)@.leaving(*final(c.lent_journal()), *final(c.lent_inbox())),
            result,
            r,
        ) && (c.model() matches Some(m) && *m == before.model() && *final(m) == after.model());
    let open = journal::open_intents(j.events());
    store::lemma_events_after(j, store::closings(open, store::decision_views(decisions)));
    let now = c@.journal.events();
    assert(now.take(j.events().len() as int) =~= j.events());
    assert forall|i: int| 0 <= i < decisions.len() implies asked(
        recovery,
        j.events()[open[i].1 as int],
        #[trigger] decisions[i],
        now[j.events().len() + i],
    ) by {
        law_policy_is_asked_of_the_intent(
            recovery,
            before.store(),
            mid,
            run_id@,
            j,
            decisions,
            i,
        );
    }
    assert(store::decision_views(decisions).len() == decisions.len());
}

/// A new runtime holds its model and no run; a key that it is given is the key of
/// every journal that it creates.
pub proof fn law_new_runtimes_hold_nothing<O>(
    model: O,
    a: Runtime<O>,
    b: Runtime<O>,
    key: &[u8],
    c: Runtime<O>,
    run_id: Seq<char>,
)
    requires
        call_ensures(Runtime::<O>::in_memory, (model,), a),
        call_ensures(Runtime::<O>::durable, (model,), b),
        call_ensures(Runtime::<O>::with_key, (a, key), c),
    ensures
        a.model() == model && b.model() == model && c.model() == model,
        !a.store().durable && b.store().durable,
        !a.store().journals.dom().contains(run_id) && !b.store().journals.dom().contains(run_id),
        a.store().inbox(run_id).dom() =~= Set::empty(),
        a.store().load(run_id, true, None) matches Ok(j) && j.key is None && !j.durable
            && j.entries.len() == 0,
        c.store().load(run_id, true, None) matches Ok(j) && j.key == Some(key@) && !j.durable
            && j.entries.len() == 0,
        b.store().load(run_id, true, None) matches Ok(j) && j.key is None && j.durable
            && j.entries.len() == 0,
        a.store().load(run_id, false, None) is Err,
{
}

/// What is sent reaches the inbox of its run only; what is evicted is the loaded
/// journal of its run only.
pub proof fn law_send_and_evict_concern_one_run<O, V: Into<Value>>(
    before: Runtime<O>,
    sent: Runtime<O>,
    evicted: Runtime<O>,
    run_id: &str,
    channel: &str,
    value: V,
    other: Seq<char>,
)
    requires
        exists|x: &mut Runtime<O>| #[trigger]
            call_ensures(Runtime::<O>::send::<V>, (x, run_id, channel, value), ()) && *x == before
                && *final(x) == sent,
        exists|x: &mut Runtime<O>| #[trigger]
            call_ensures(Runtime::<O>::evict, (x, run_id), ()) && *x == before && *final(x)
                == evicted,
    ensures
        sent.model() == before.model() && evicted.model() == before.model(),
        sent.store().journals == before.store().journals,
        exists|v: Value| #[trigger]
            call_ensures(V::into, (value,), v) && sent.store().inbox(run_id@)[channel@].len() > 0
                && sent.store().inbox(run_id@)[channel@].last() == v@,
        other != run_id@ ==> sent.store().inbox(other) == before.store().inbox(other),
        !evicted.store().journals.dom().contains(run_id@),
        other != run_id@ ==> evicted.store().journals.dom().contains(other)
            == before.store().journals.dom().contains(other) && evicted.store().journals[other]
            == before.store().journals[other],
        evicted.store().inboxes == before.store().inboxes,
{
    let x = choose|x: &mut Runtime<O>| #[trigger]
        call_ensures(Runtime::<O>::send::<V>, (x, run_id, channel, value), ()) && *x == before
            && *final(x) == sent;
    assert(call_ensures(Runtime::<O>::send::<V>, (x, run_id, channel, value), ()));
    let y = choose|x: &mut Runtime<O>| #[trigger]
        call_ensures(Runtime::<O>::evict, (x, run_id), ()) && *x == before && *final(x) == evicted;
    assert(call_ensures(Runtime::<O>::evict, (y, run_id), ()));
    let v = choose|v: Value| #[trigger]
        call_ensures(V::into, (value,), v) && sent.store() == before.store().sent(
            run_id@,
            channel@,
            v@,
        );
    store::law_sent_value_waits_last(before.store(), run_id@, channel@, v@, other, channel@);
}

/// A run verifies if and only if its journal is there and its chain is intact;
/// of a broken chain the first broken link is told. Nothing that is loaded
/// changes.
pub proof fn law_verify_tells_the_chain<O>(
    before: Runtime<O>,
    after: Runtime<O>,
    run_id: &str,
    r: Result<Result<(), Cursor>, Fault>,
)
    requires
        exists|x: &mut Runtime<O>| #[trigger]
            call_ensures(Runtime::<O>::verify, (x, run_id), r) && *x == before && *final(x)
                == after,
        before.store().journals.dom().contains(run_id@),
    ensures
        ({
            let j = before.store().journals[run_id@];
            &&& r is Ok
            &&& r->Ok_0 is Ok <==> j.intact()
            &&& r matches Ok(Err(c)) ==> c < j.entries.len() && !journal::link_holds(
                j.key,
                j.entries,
                c as int,
            ) && forall|i: int| 0 <= i < c ==> #[trigger] journal::link_holds(j.key, j.entries, i)
            &&& after.store() =~= before.store()
        }),
{
    let x = choose|x: &mut Runtime<O>| #[trigger]
        call_ensures(Runtime::<O>::verify, (x, run_id), r) && *x == before && *final(x) == after;
    assert(call_ensures(Runtime::<O>::verify, (x, run_id), r));
    let s = before.store();
    assert(s.journals.insert(run_id@, s.journals[run_id@]) =~= s.journals);
}

} // verus!
