//! The supervisor: the control plane that turns a crashed run into a resumed
//! one.
//!
//! A supervisor maps faults to decisions: **restart** (re-enter from the
//! journal), **compensate** (run the saga against committed effects, in
//! reverse), **escalate** (re-raise to the parent), or **stop**.
use vstd::prelude::*;

use crate::ctx::{Ctx, RunOptions};
use crate::event::{Event, EventView};
use crate::fault::Fault;
use crate::journal;
use crate::journal::Journal;
use crate::oracle::Oracle;
use crate::recovery_laws;
use crate::runtime;
use crate::runtime::{RunReport, Runtime};
use crate::store;
use crate::store::StoreView;
use crate::value::Value;

verus! {

/// A supervisor decision for a fault.
#[derive(Clone, Copy, Debug, PartialEq, Eq, Structural)]
pub enum Decision {
    /// Resume from the journal: replay the recorded prefix, continue fresh.
    Restart,
    /// Undo committed effects in reverse order, then stop with the fault.
    Compensate,
    /// Re-raise to the parent as `Escalated(fault)`.
    Escalate,
    /// Abandon: return the fault as-is.
    Stop,
}

/// Is the fault transient?
pub open spec fn is_transient(f: Fault) -> bool {
    f is OracleErr || f is ToolErr || f is Timeout || f is Io
}

/// Default decision policy: transient faults restart, logical faults stop.
pub fn default_policy(fault: &Fault) -> (r: Decision)
    ensures
        r == (if is_transient(*fault) {
            Decision::Restart
        } else {
            Decision::Stop
        }),
{
    match fault {
        Fault::OracleErr(_) => Decision::Restart,
        Fault::ToolErr(_) => Decision::Restart,
        Fault::Timeout => Decision::Restart,
        Fault::Io(_) => Decision::Restart,
        _ => Decision::Stop,
    }
}

/// A fault → decision policy.
pub trait Policy {
    fn decide(&self, fault: &Fault) -> Decision;
}

/// The policy of [`default_policy`].
pub struct DefaultPolicy;

impl Policy for DefaultPolicy {
    fn decide(&self, fault: &Fault) -> (r: Decision)
        ensures
            r == (if is_transient(*fault) {
                Decision::Restart
            } else {
                Decision::Stop
            }),
    {
        default_policy(fault)
    }
}

/// A policy given by a closure.
pub struct Custom<F: Fn(&Fault) -> Decision> {
    decide: F,
}

impl<F: Fn(&Fault) -> Decision> Custom<F> {
    #[verifier::type_invariant]
    spec fn is_total(self) -> bool {
        forall|f: &Fault| #[trigger] call_requires(self.decide, (f,))
    }

    /// The closure.
    pub closed spec fn closure(&self) -> F {
        self.decide
    }
}

impl<F: Fn(&Fault) -> Decision> Policy for Custom<F> {
    fn decide(&self, fault: &Fault) -> (r: Decision)
        ensures
            call_ensures(self.closure(), (fault,), r),
    {
        proof {
            use_type_invariant(self);
        }
        (self.decide)(fault)
    }
}

/// How a committed effect is undone during compensation.
pub trait Compensator {
    fn undo(&mut self, name: &str, result: &Value);
}

/// Undoes nothing.
pub struct NoCompensator;

impl Compensator for NoCompensator {
    fn undo(&mut self, name: &str, result: &Value)
        ensures
            *final(self) == *old(self),
    {
    }
}

/// A compensator given by a closure.
pub struct Saga<F: FnMut(&str, &Value)> {
    /// The closure, except while it runs.
    undo: Option<F>,
}

impl<F: FnMut(&str, &Value)> Saga<F> {
    #[verifier::type_invariant]
    spec fn is_total(self) -> bool {
        self.undo matches Some(f) ==> forall|name: &str, result: &Value| #[trigger]
            call_requires(f, (name, result))
    }

    /// The closure.
    pub closed spec fn closure(&self) -> Option<F> {
        self.undo
    }
}

impl<F: FnMut(&str, &Value)> Compensator for Saga<F> {
    fn undo(&mut self, name: &str, result: &Value)
        ensures
            old(self).closure() matches Some(f) ==> call_ensures(f, (name, result), ()),
            final(self).closure() == old(self).closure(),
    {
        proof {
            use_type_invariant(&*self);
        }
        let mut undo: Option<F> = None;
        std::mem::swap(&mut undo, &mut self.undo);
        if let Some(mut f) = undo {
            f(name, result);
            self.undo = Some(f);
        }
    }
}

/// Is one of the pairs called `name`?
pub open spec fn has_name<B>(pairs: Seq<(Seq<char>, B)>, name: Seq<char>) -> bool {
    exists|i: int| 0 <= i < pairs.len() && (#[trigger] pairs[i]).0 == name
}

/// The effects that were committed and not undone since, with their results,
/// in order. A compensation closes an open intent of its name, if there is
/// one; otherwise it undoes the last commit of that name.
pub open spec fn committed(events: Seq<EventView>) -> Seq<(Seq<char>, Seq<u8>)>
    decreases events.len(),
{
    if events.len() == 0 {
        Seq::empty()
    } else {
        let before = committed(events.drop_last());
        match events.last() {
            EventView::EffectCommit { name, result } => before.push((name, result)),
            EventView::EffectCompensated { name } => if has_name(
                journal::open_intents(events.drop_last()),
                name,
            ) {
                before
            } else {
                journal::without_last(before, name)
            },
            _ => before,
        }
    }
}

/// The compensations that close the open intents of the effects' names, the
/// last intent first.
pub open spec fn closing<B>(
    open: Seq<(Seq<char>, B)>,
    effects: Seq<(Seq<char>, Seq<u8>)>,
) -> Seq<EventView>
    decreases open.len(),
{
    if open.len() == 0 {
        Seq::empty()
    } else {
        let rest = closing(open.drop_last(), effects);
        if has_name(effects, open.last().0) {
            seq![EventView::EffectCompensated { name: open.last().0 }] + rest
        } else {
            rest
        }
    }
}

/// The compensations that undo the effects, the last committed first.
pub open spec fn undoing(effects: Seq<(Seq<char>, Seq<u8>)>) -> Seq<EventView> {
    Seq::new(
        effects.len(),
        |i: int| EventView::EffectCompensated { name: effects[effects.len() - 1 - i].0 },
    )
}

/// What a saga appends to a journal: the open intents of the names that it
/// undoes are closed, so that each compensation behind them counts as the undo
/// of a committed effect.
pub open spec fn saga(events: Seq<EventView>) -> Seq<EventView> {
    closing(journal::open_intents(events), committed(events)) + undoing(committed(events))
}

/// Is one of the pairs called `name`?
fn is_named<B: View>(pairs: &Vec<(String, B)>, name: &str) -> (r: bool)
    ensures
        r == has_name(journal::pair_views(pairs@), name@),
{
    let ghost all = journal::pair_views(pairs@);
    let mut i: usize = 0;
    while i < pairs.len()
        invariant
            i <= pairs@.len(),
            all == journal::pair_views(pairs@),
            forall|k: int| 0 <= k < i ==> (#[trigger] all[k]).0 != name@,
        decreases pairs@.len() - i,
    {
        if crate::text::same_text(pairs[i].0.as_str(), name) {
            assert(all[i as int].0 == name@);
            return true;
        }
        i += 1;
    }
    false
}

/// The committed effects of a journal that have not been undone.
pub fn committed_effects(j: &Journal) -> (r: Vec<(String, Value)>)
    ensures
        journal::pair_views(r@) == committed(j@.events()),
{
    // Every cursor fits: the journal's length does.
    let len: u64 = j.len();
    let entries = j.entries();
    let ghost events = j@.events();
    let mut out: Vec<(String, Value)> = Vec::new();
    let mut open: Vec<(String, u64)> = Vec::new();
    assert(journal::pair_views(out@) =~= Seq::empty());
    assert(journal::pair_views(open@) =~= Seq::empty());
    assert(events.take(0) =~= Seq::empty());
    let mut i: usize = 0;
    while i < entries.len()
        invariant
            i <= entries@.len(),
            entries@.len() <= u64::MAX,
            events == journal::events_of(journal::entry_views(entries@)),
            journal::pair_views(out@) == committed(events.take(i as int)),
            journal::pair_views(open@) == journal::open_intents(events.take(i as int)),
        decreases entries@.len() - i,
    {
        let e = &entries[i];
        let ghost seen = events.take(i + 1);
        assert(seen.drop_last() =~= events.take(i as int));
        assert(seen.last() == e.event@);
        match &e.event {
            Event::EffectIntent { name, .. } => {
                let ghost before = open@;
                open.push((name.clone(), i as u64));
                assert(journal::pair_views(open@) =~= journal::pair_views(before).push(
                    (name@, i as u64),
                ));
            },
            Event::EffectCommit { name, result } => {
                let ghost before = out@;
                out.push((name.clone(), result.clone()));
                assert(journal::pair_views(out@) =~= journal::pair_views(before).push(
                    (name@, result@),
                ));
                journal::remove_last(&mut open, name.as_str());
            },
            Event::EffectCompensated { name } => {
                if !is_named(&open, name.as_str()) {
                    journal::remove_last(&mut out, name.as_str());
                }
                journal::remove_last(&mut open, name.as_str());
            },
            _ => {},
        }
        i += 1;
    }
    assert(events.take(events.len() as int) =~= events);
    out
}

/// Closes the open intents of the effects' names, the last one first.
fn close_intents(j: &mut Journal, effects: &Vec<(String, Value)>)
    ensures
        final(j)@ == old(j)@.append_all(
            closing(journal::open_intents(old(j)@.events()), journal::pair_views(effects@)),
        ),
{
    let ghost open = journal::open_intents(j@.events());
    let ghost names = journal::pair_views(effects@);
    let list = j.dangling_intents();
    let ghost mut done: Seq<EventView> = Seq::empty();
    let mut k: usize = list.len();
    assert(open.take(k as int) =~= open);
    assert(done + closing(open, names) =~= closing(open, names));
    while k > 0
        invariant
            k <= list@.len(),
            list@.len() == open.len(),
            names == journal::pair_views(effects@),
            forall|i: int| 0 <= i < list@.len() ==> (#[trigger] list@[i]).1@ == open[i].0,
            done + closing(open.take(k as int), names) == closing(open, names),
            j@ == old(j)@.append_all(done),
        decreases k,
    {
        k -= 1;
        let ghost now = open.take(k + 1);
        assert(now.drop_last() =~= open.take(k as int));
        assert(now.last() == open[k as int]);
        assert(list@[k as int].1@ == open[k as int].0);
        if is_named(effects, list[k].1.as_str()) {
            let ghost e = EventView::EffectCompensated { name: open[k as int].0 };
            let ghost was = done;
            let c = j.append(Event::EffectCompensated { name: list[k].1.clone() });
            proof {
                done = was.push(e);
                assert(done.drop_last() =~= was);
                assert(done + closing(open.take(k as int), names) =~= was + (seq![e] + closing(
                    open.take(k as int),
                    names,
                )));
            }
        }
    }
    assert(done + closing(open.take(0), names) =~= done);
}

/// Runs the saga against a journal: undoes every committed effect, the last
/// one first, and journals each compensation so that a later replay never
/// undoes twice.
pub fn compensate<C: Compensator>(j: &mut Journal, compensator: &mut C)
    ensures
        final(j)@ == old(j)@.append_all(saga(old(j)@.events())),
        exists|states: Seq<C>|
            #![trigger states.len()]
            states.len() == committed(old(j)@.events()).len() + 1 && states[0] == *old(compensator)
                && states.last() == *final(compensator) && forall|i: int|
                #![trigger states[i]]
                0 <= i < states.len() - 1 ==> exists|m: &mut C, name: &str, result: &Value|
                    call_ensures(C::undo, (m, name, result), ()) && *m == states[i] && *final(m)
                        == states[i + 1] && name@ == committed(old(j)@.events())[states.len() - 2
                        - i].0 && result@ == committed(old(j)@.events())[states.len() - 2 - i].1,
{
    let effects = committed_effects(j);
    let ghost list = committed(j@.events());
    let ghost first = closing(journal::open_intents(j@.events()), list);
    let ghost all = undoing(list);
    close_intents(j, &effects);
    let ghost mut states: Seq<C> = seq![*compensator];
    let mut k: usize = effects.len();
    assert(first + all.take(0) =~= first);
    while k > 0
        invariant
            k <= effects@.len(),
            effects@.len() == list.len(),
            journal::pair_views(effects@) == list,
            all == undoing(list),
            list == committed(old(j)@.events()),
            j@ == old(j)@.append_all(first + all.take(list.len() - k)),
            states.len() == list.len() - k + 1,
            states[0] == *old(compensator),
            states.last() == *compensator,
            forall|i: int|
                #![trigger states[i]]
                0 <= i < states.len() - 1 ==> exists|m: &mut C, name: &str, result: &Value|
                    call_ensures(C::undo, (m, name, result), ()) && *m == states[i] && *final(m)
                        == states[i + 1] && name@ == list[list.len() - 1 - i].0 && result@
                        == list[list.len() - 1 - i].1,
        decreases k,
    {
        k -= 1;
        let ghost n = (list.len() - 1 - k) as int;
        let name: &str = effects[k].0.as_str();
        let result: &Value = &effects[k].1;
        assert(list[k as int] == (effects@[k as int].0@, effects@[k as int].1@));
        let ghost was = states;
        compensator.undo(name, result);
        proof {
            states = states.push(*compensator);
        }
        assert(exists|m: &mut C|
            call_ensures(C::undo, (m, name, result), ()) && *m == was.last() && *final(m)
                == *compensator);
        assert forall|i: int|
            #![trigger states[i]]
            0 <= i < states.len() - 1 implies exists|m: &mut C, name: &str, result: &Value|
            call_ensures(C::undo, (m, name, result), ()) && *m == states[i] && *final(m) == states[i
                + 1] && name@ == list[list.len() - 1 - i].0 && result@ == list[list.len() - 1
                - i].1 by {
            if i < was.len() - 1 {
                assert(states[i] == was[i]);
                assert(states[i + 1] == was[i + 1]);
            } else {
                assert(states[i] == was.last());
            }
        }
        assert((first + all.take(n + 1)).drop_last() =~= first + all.take(n));
        assert((first + all.take(n + 1)).last() == all[n]);
        let c = j.append(Event::EffectCompensated { name: effects[k].0.clone() });
    }
    assert(all.take(list.len() as int) =~= all);
}

/// A commit is what the saga has to undo, with its result, until it is
/// compensated: a compensation takes the last commit of its name back, unless
/// an intent of that name is open, which is what it closes then. No other event
/// counts.
pub proof fn law_committed_until_compensated(
    events: Seq<EventView>,
    name: Seq<char>,
    result: Seq<u8>,
    e: EventView,
)
    ensures
        ({
            let done = events.push(EventView::EffectCommit { name, result });
            let undone = EventView::EffectCompensated { name };
            &&& committed(done) == committed(events).push((name, result))
            &&& !(exists|i: int|
                0 <= i < journal::open_intents(done).len() && (#[trigger] journal::open_intents(
                    done,
                )[i]).0 == name) ==> committed(done.push(undone)) == committed(events)
            &&& (exists|i: int|
                0 <= i < journal::open_intents(events).len() && (#[trigger] journal::open_intents(
                    events,
                )[i]).0 == name) ==> committed(events.push(undone)) == committed(events)
        }),
        e !is EffectCommit && e !is EffectCompensated ==> committed(events.push(e)) == committed(
            events,
        ),
{
    let done = events.push(EventView::EffectCommit { name, result });
    let undone = EventView::EffectCompensated { name };
    assert(done.drop_last() =~= events);
    assert(done.push(undone).drop_last() =~= done);
    assert(events.push(undone).drop_last() =~= events);
    assert(events.push(e).drop_last() =~= events);
    let list = committed(events).push((name, result));
    assert(list.drop_last() =~= committed(events));
    assert(journal::without_last(list, name) == committed(events));
}

/// What follows an attempt, given the decision on its fault.
pub enum Verdict {
    /// Try again from the journal.
    Again,
    /// Run the saga, then return the fault.
    Undo(Fault),
    /// Return this.
    Return(Result<RunReport, Fault>),
}

/// What follows an attempt that ended in `outcome`, after `restarts` restarts,
/// given the decision on its fault.
pub open spec fn verdict(
    outcome: Result<RunReport, Fault>,
    decision: Decision,
    restarts: nat,
    max_restarts: nat,
) -> Verdict {
    match outcome {
        Ok(report) => Verdict::Return(Ok(report)),
        Err(f) => match decision {
            Decision::Restart => if restarts < max_restarts {
                Verdict::Again
            } else {
                Verdict::Return(Err(f))
            },
            Decision::Compensate => Verdict::Undo(f),
            Decision::Escalate => Verdict::Return(Err(Fault::Escalated(Box::new(f)))),
            Decision::Stop => Verdict::Return(Err(f)),
        },
    }
}

/// Decides what follows a fault, given the decision on it, after `restarts`
/// restarts.
pub fn after_fault(fault: Fault, decision: Decision, restarts: u32, max_restarts: u32) -> (r:
    Verdict)
    ensures
        r == verdict(Err(fault), decision, restarts as nat, max_restarts as nat),
{
    match decision {
        Decision::Restart => {
            if restarts < max_restarts {
                Verdict::Again
            } else {
                Verdict::Return(Err(fault))
            }
        },
        Decision::Compensate => Verdict::Undo(fault),
        Decision::Escalate => Verdict::Return(Err(Fault::Escalated(Box::new(fault)))),
        Decision::Stop => Verdict::Return(Err(fault)),
    }
}

/// What follows a fault is what was decided on it. Only the decision to
/// compensate runs the saga. Stopping returns the fault as it is, and so does a
/// restart when none is left; a restart that is left tries again; escalating
/// wraps the fault.
pub proof fn law_decision_is_carried_out(
    fault: Fault,
    decision: Decision,
    restarts: u32,
    max_restarts: u32,
    v: Verdict,
)
    requires
        call_ensures(after_fault, (fault, decision, restarts, max_restarts), v),
    ensures
        v is Undo <==> decision == Decision::Compensate,
        v matches Verdict::Undo(f) ==> f == fault,
        v is Again <==> decision == Decision::Restart && restarts < max_restarts,
        decision == Decision::Stop || (decision == Decision::Restart && restarts >= max_restarts)
            ==> v == Verdict::Return(Err::<RunReport, Fault>(fault)),
        decision == Decision::Escalate ==> (v matches Verdict::Return(Err(Fault::Escalated(inner)))
            && *inner == fault),
{
}

/// An attempt that succeeded ends the supervision, whatever would have been
/// decided and however many restarts are left: its report is what is returned.
pub proof fn law_success_is_returned(
    report: RunReport,
    decision: Decision,
    restarts: nat,
    max_restarts: nat,
)
    ensures
        verdict(Ok(report), decision, restarts, max_restarts) == Verdict::Return(
            Ok::<RunReport, Fault>(report),
        ),
{
}

/// By default a fault of the model, of a tool, of time or of storage restarts,
/// and every other fault stops: a fault that trying again cannot mend is never
/// tried again.
pub proof fn law_default_policy_restarts_transient_faults(f: &Fault, d: Decision)
    requires
        call_ensures(default_policy, (f,), d),
    ensures
        match *f {
            Fault::OracleErr(_) | Fault::ToolErr(_) | Fault::Timeout | Fault::Io(_) => d
                == Decision::Restart,
            Fault::BudgetExhausted
            | Fault::ContractViol(_)
            | Fault::CapabilityDenied(_)
            | Fault::Escalated(_)
            | Fault::JournalDesync { .. }
            | Fault::ReplayExhausted { .. } => d == Decision::Stop,
        },
{
}

/// The first attempt goes on from what the store has of the run, or from an
/// empty journal; every later one from what the attempt before it left, with
/// all of it kept and nothing dangling. No other run is touched.
pub proof fn law_attempts_go_on_from_the_journal(
    s: StoreView,
    run_id: Seq<char>,
    i: nat,
    other: Seq<char>,
)
    requires
        s.journals.dom().contains(run_id),
    ensures
        ({
            let j = s.journals[run_id];
            let now = prepared(s, run_id, i).journals[run_id];
            &&& i == 0 ==> now == j
            &&& i > 0 ==> now.events().take(j.events().len() as int) == j.events()
                && journal::open_intents(now.events()).len() == 0 && forall|k: int|
                j.events().len() <= k < now.events().len() ==> (#[trigger] now.events()[k]) is
                    EffectCompensated
            &&& other != run_id ==> prepared(s, run_id, i).journals.dom().contains(other)
                == s.journals.dom().contains(other) && prepared(s, run_id, i).journals[other]
                == s.journals[other]
            &&& prepared(s, run_id, i).inboxes == s.inboxes
        }),
{
    let j = s.journals[run_id];
    if i > 0 {
        let open = journal::open_intents(j.events());
        let all = Seq::new(open.len(), |k: int| store::RecoverView::Compensate);
        store::lemma_events_after(j, store::closings(open, all));
        recovery_laws::law_written_off_has_nothing_dangling(j);
        let now = store::written_off(j).events();
        assert(now == j.events() + store::closings(open, all));
        assert(now.take(j.events().len() as int) =~= j.events());
        assert forall|k: int| j.events().len() <= k < now.len() implies (#[trigger] now[k]) is
            EffectCompensated by {
            assert(now[k] == store::closings(open, all)[k - j.events().len()]);
        }
    }
}

/// The first attempt of a run that the store does not hold starts from an empty
/// journal under the store's key.
pub proof fn law_first_attempt_starts_empty(s: StoreView, run_id: Seq<char>)
    requires
        !s.journals.dom().contains(run_id),
    ensures
        prepared(s, run_id, 0).journals.dom().contains(run_id),
        prepared(s, run_id, 0).journals[run_id].events().len() == 0,
        prepared(s, run_id, 0).journals[run_id].key == s.key,
{
}

/// The saga adds compensations behind the journal of its run and changes
/// nothing else.
pub proof fn law_saga_only_adds_compensations(s: StoreView, run_id: Seq<char>, other: Seq<char>)
    requires
        s.journals.dom().contains(run_id),
    ensures
        ({
            let was = s.journals[run_id].events();
            let now = compensated(s, run_id).journals[run_id].events();
            &&& now.take(was.len() as int) == was
            &&& forall|k: int|
                was.len() <= k < now.len() ==> (#[trigger] now[k]) is EffectCompensated
            &&& other != run_id ==> compensated(s, run_id).journals[other] == s.journals[other]
            &&& compensated(s, run_id).inboxes == s.inboxes
        }),
{
    lemma_compensated_events(s, run_id);
}

proof fn lemma_closing_compensates<B>(
    open: Seq<(Seq<char>, B)>,
    effects: Seq<(Seq<char>, Seq<u8>)>,
)
    ensures
        forall|k: int|
            0 <= k < closing(open, effects).len() ==> (#[trigger] closing(open, effects)[k]) is
                EffectCompensated,
    decreases open.len(),
{
    if open.len() > 0 {
        lemma_closing_compensates(open.drop_last(), effects);
    }
}

/// Drives a run under a fault policy, restarting from the journal up to
/// `max_restarts` times.
pub struct Supervisor<D, C> {
    max_restarts: u32,
    decide: D,
    /// Called for each committed effect during compensation, in reverse commit
    /// order: this is where the saga undoes the world.
    compensator: C,
}

impl Default for Supervisor<DefaultPolicy, NoCompensator> {
    fn default() -> (r: Self)
        ensures
            r.limit() == 3,
    {
        Self::new()
    }
}

impl Supervisor<DefaultPolicy, NoCompensator> {
    /// Three restarts, the default policy, no saga.
    pub fn new() -> (r: Self)
        ensures
            r.limit() == 3,
    {
        Supervisor { max_restarts: 3, decide: DefaultPolicy, compensator: NoCompensator }
    }
}

impl<D, C> Supervisor<D, C> {
    /// How many restarts are allowed.
    pub closed spec fn limit(&self) -> u32 {
        self.max_restarts
    }

    /// The policy.
    pub closed spec fn policy(&self) -> D {
        self.decide
    }

    /// The compensator.
    pub closed spec fn undoes(&self) -> C {
        self.compensator
    }

    pub fn max_restarts(self, n: u32) -> (r: Self)
        ensures
            r.limit() == n,
            r.policy() == self.policy(),
            r.undoes() == self.undoes(),
    {
        Supervisor { max_restarts: n, decide: self.decide, compensator: self.compensator }
    }

    /// Replaces the fault → decision policy.
    pub fn on_fault<F: Fn(&Fault) -> Decision>(self, decide: F) -> (r: Supervisor<Custom<F>, C>)
        requires
            forall|f: &Fault| #[trigger] call_requires(decide, (f,)),
        ensures
            r.limit() == self.limit(),
            r.policy().closure() == decide,
            r.undoes() == self.undoes(),
    {
        Supervisor {
            max_restarts: self.max_restarts,
            decide: Custom { decide },
            compensator: self.compensator,
        }
    }

    /// Installs the saga: how each committed effect is undone when a
    /// `Compensate` decision fires.
    pub fn compensate_with<F: FnMut(&str, &Value)>(self, undo: F) -> (r: Supervisor<D, Saga<F>>)
        requires
            forall|name: &str, result: &Value| #[trigger] call_requires(undo, (name, result)),
        ensures
            r.limit() == self.limit(),
            r.policy() == self.policy(),
            r.undoes().closure() == Some(undo),
    {
        Supervisor {
            max_restarts: self.max_restarts,
            decide: self.decide,
            compensator: Saga { undo: Some(undo) },
        }
    }

}

/// The store that attempt `i` of a supervised run starts from: the first
/// creates or continues the journal, every other one writes the dangling
/// intents off.
pub open spec fn prepared(s: StoreView, run_id: Seq<char>, i: nat) -> StoreView {
    if i == 0 {
        s.with_journal(run_id, s.load(run_id, true, None)->Ok_0)
    } else {
        s.with_journal(run_id, store::written_off(s.load(run_id, false, None)->Ok_0))
    }
}

/// The course of a supervised run: what each attempt came to, the decisions on
/// the faults, and the stores and models before, between and after the
/// attempts.
pub struct Supervision<O> {
    pub outcomes: Seq<Result<RunReport, Fault>>,
    pub decisions: Seq<Decision>,
    pub stores: Seq<StoreView>,
    pub models: Seq<O>,
}

/// Is the course one of at most `limit` restarts, in which every attempt but
/// the last was tried again?
pub open spec fn bounded<O>(course: Supervision<O>, limit: u32) -> bool {
    let n = course.outcomes.len();
    &&& 0 < n <= limit + 1
    &&& course.decisions.len() == n
    &&& course.stores.len() == n + 1
    &&& course.models.len() == n + 1
    &&& forall|i: int|
        0 <= i < n - 1 ==> verdict(
            #[trigger] course.outcomes[i],
            course.decisions[i],
            i as nat,
            limit as nat,
        ) is Again
}

/// The store after the saga has run against the journal of `run_id`.
pub open spec fn compensated(s: StoreView, run_id: Seq<char>) -> StoreView {
    let j = s.journals[run_id];
    s.with_journal(run_id, j.append_all(saga(j.events())))
}

impl<D: Policy, C: Compensator> Supervisor<D, C> {
    /// Drives `run_id` to completion under this supervisor. The agent closure
    /// must be re-enterable (it is called once per attempt; each attempt
    /// replays the journaled prefix first, so no work is repeated).
    pub fn supervise<O: Oracle, F: FnMut(&mut Ctx<O>) -> Result<Value, Fault>>(
        &mut self,
        rt: &mut Runtime<O>,
        run_id: &str,
        opts: RunOptions,
        agent: F,
    ) -> (r: Result<RunReport, Fault>)
        requires
            old(rt).store().load(run_id@, true, None) matches Ok(j) ==> {
                &&& forall|c: &mut Ctx<O>|
                    c.wf() && c@.journal.durable == j.durable ==> #[trigger] call_requires(
                        agent,
                        (c,),
                    )
                // The agent leaves the journal as durable as it was.
                &&& forall|c: &mut Ctx<O>, result: Result<Value, Fault>| #[trigger]
                    call_ensures(agent, (c,), result) && c.wf() && c@.journal.durable == j.durable
                        ==> (*final(c.lent_journal()))@.durable == j.durable
            },
        ensures
            final(self).limit() == old(self).limit(),
            final(self).policy() == old(self).policy(),
            exists|course: Supervision<O>| #[trigger]
                bounded(course, old(self).limit()) && course.stores[0] == old(rt).store()
                    && course.models[0] == old(rt).model() && course.models.last() == final(
                    rt).model() && (forall|
                    i: int,
                |
                    #![trigger course.outcomes[i]]
                    0 <= i < course.outcomes.len() ==> exists|
                        c: &mut Ctx<O>,
                        result: Result<Value, Fault>,
                    |
                        #[trigger] call_ensures(agent, (c,), result) && c.wf() && runtime::handed_back(
                            final(c)@,
                            *final(final(c).lent_journal()),
                            *final(final(c).lent_inbox()),
                        ) && runtime::attempted(
                            prepared(course.stores[i], run_id@, i as nat),
                            course.stores[i + 1],
                            run_id@,
                            opts,
                            false,
                            c@,
                            final(c)@.leaving(*final(c.lent_journal()), *final(c.lent_inbox())),
                            result,
                            course.outcomes[i],
                        ) && (c.model() matches Some(m) && *m == course.models[i] && *final(m)
                            == course.models[i + 1]) && (final(c).model() matches Some(n) ==> *final(n) == *n)) && (forall|i: int|
                    #![trigger course.decisions[i]]
                    0 <= i < course.outcomes.len() ==> (course.outcomes[i] matches Err(f)
                        ==> call_ensures(
                        D::decide,
                        (&old(self).policy(), &f),
                        course.decisions[i],
                    ))) && (course.decisions.last() != Decision::Compensate || course.outcomes.last() is Ok
                    ==> final(rt).store() == course.stores.last() && final(self).undoes() == old(
                    self).undoes()) && (course.outcomes.last() is Ok || course.decisions.last()
                    == Decision::Stop || course.decisions.last() == Decision::Restart ==> r
                    == course.outcomes.last()) && match verdict(
                    course.outcomes.last(),
                    course.decisions.last(),
                    (course.outcomes.len() - 1) as nat,
                    old(self).limit() as nat,
                ) {
                    Verdict::Again => false,
                    Verdict::Return(x) => r == x && final(rt).store() == course.stores.last()
                        && final(self).undoes() == old(self).undoes(),
                    Verdict::Undo(f) => {
                        let list = committed(course.stores.last().journals[run_id@].events());
                        &&& r == Err::<RunReport, Fault>(f)
                        &&& final(rt).store() == compensated(course.stores.last(), run_id@)
                        &&& exists|states: Seq<C>|
                            #![trigger states.len()]
                            states.len() == list.len() + 1 && states[0] == old(self).undoes()
                                && states.last() == final(self).undoes() && forall|i: int|
                                #![trigger states[i]]
                                0 <= i < states.len() - 1 ==> exists|
                                    m: &mut C,
                                    name: &str,
                                    result: &Value,
                                |
                                    call_ensures(C::undo, (m, name, result), ()) && *m == states[i]
                                        && *final(m) == states[i + 1] && name@ == list[states.len()
                                        - 2 - i].0 && result@ == list[states.len() - 2 - i].1
                    },
                },
    {
        let ghost given = agent;
        let mut program = agent;
        let ghost policy = self.decide;
        let ghost durable = rt.store().load(run_id@, true, None)->Ok_0.durable;
        let mut restarts: u32 = 0;
        let ghost mut course: Supervision<O> = Supervision {
            outcomes: Seq::empty(),
            decisions: Seq::empty(),
            stores: seq![rt.store()],
            models: seq![rt.model()],
        };
        loop
            invariant
                program == given,
                agent == given,
                forall|c: &mut Ctx<O>|
                    c.wf() && c@.journal.durable == durable ==> #[trigger] call_requires(
                        program,
                        (c,),
                    ),
                forall|c: &mut Ctx<O>, result: Result<Value, Fault>| #[trigger]
                    call_ensures(given, (c,), result) && c.wf() && c@.journal.durable == durable
                        ==> (*final(c.lent_journal()))@.durable == durable,
                restarts == 0 ==> rt.store() == old(rt).store(),
                old(rt).store().load(run_id@, true, None) matches Ok(j) && j.durable == durable,
                restarts > 0 ==> rt.store().journals[run_id@].durable == durable,
                restarts <= self.max_restarts,
                self.max_restarts == old(self).max_restarts,
                self.decide == policy,
                policy == old(self).decide,
                self.compensator == old(self).compensator,
                course.outcomes.len() == restarts,
                course.decisions.len() == restarts,
                course.stores.len() == restarts + 1,
                course.stores[0] == old(rt).store(),
                course.stores[restarts as int] == rt.store(),
                course.models.len() == restarts + 1,
                course.models[0] == old(rt).model(),
                course.models[restarts as int] == rt.model(),
                restarts > 0 ==> rt.store().journals.dom().contains(run_id@),
                forall|i: int|
                    0 <= i < restarts ==> verdict(
                        #[trigger] course.outcomes[i],
                        course.decisions[i],
                        i as nat,
                        old(self).max_restarts as nat,
                    ) is Again,
                forall|i: int|
                    #![trigger course.outcomes[i]]
                    0 <= i < restarts ==> exists|c: &mut Ctx<O>, result: Result<Value, Fault>|
                        #[trigger] call_ensures(given, (c,), result) && c.wf() && runtime::handed_back(
                            final(c)@,
                            *final(final(c).lent_journal()),
                            *final(final(c).lent_inbox()),
                        ) && runtime::attempted(
                            prepared(course.stores[i], run_id@, i as nat),
                            course.stores[i + 1],
                            run_id@,
                            opts,
                            false,
                            c@,
                            final(c)@.leaving(*final(c.lent_journal()), *final(c.lent_inbox())),
                            result,
                            course.outcomes[i],
                        ) && (c.model() matches Some(m) && *m == course.models[i] && *final(m)
                            == course.models[i + 1]) && (final(c).model() matches Some(n) ==> *final(n) == *n),
                forall|i: int|
                    #![trigger course.decisions[i]]
                    0 <= i < restarts ==> (course.outcomes[i] matches Err(f) ==> call_ensures(
                        D::decide,
                        (&policy, &f),
                        course.decisions[i],
                    )),
            decreases self.max_restarts - restarts,
        {
            let ghost was = course;
            // The first attempt creates or continues; every other one re-enters
            // from the journal, with the dangling intents written off (they
            // are performed fresh on re-entry).
            let limits = opts.clone();
            let outcome = if restarts == 0 {
                rt.run_with(run_id, limits, &mut program)
            } else {
                rt.restart(run_id, limits, &mut program)
            };
            proof {
                let prior = was.stores[restarts as int];
                if restarts > 0 {
                    store::lemma_written_off(prior.load(run_id@, false, None)->Ok_0);
                }
                assert(prepared(prior, run_id@, restarts as nat).journals[run_id@].durable
                    == durable);
            }
            assert(exists|c: &mut Ctx<O>, result: Result<Value, Fault>| #[trigger]
                call_ensures(given, (c,), result) && c.wf() && runtime::handed_back(
                    final(c)@,
                    *final(final(c).lent_journal()),
                    *final(final(c).lent_inbox()),
                ) && runtime::attempted(
                    prepared(was.stores[restarts as int], run_id@, restarts as nat),
                    rt.store(),
                    run_id@,
                    limits,
                    false,
                    c@,
                    final(c)@.leaving(*final(c.lent_journal()), *final(c.lent_inbox())),
                    result,
                    outcome,
                ) && (c.model() matches Some(m) && *m == was.models[restarts as int] && *final(m)
                            == rt.model()) && (final(c).model() matches Some(n) ==> *final(n) == *n) && (*final(c.lent_journal()))@.durable
                    == durable);
            assert(rt.store().journals[run_id@].durable == durable);
            proof {
                course.outcomes = course.outcomes.push(outcome);
                course.stores = course.stores.push(rt.store());
                course.models = course.models.push(rt.model());
                assert(course.outcomes.last() == outcome);
                assert(course.stores.last() == rt.store());
            }
            assert(exists|c: &mut Ctx<O>, result: Result<Value, Fault>|
                #[trigger] call_ensures(given, (c,), result) && c.wf() && runtime::handed_back(
                    final(c)@,
                    *final(final(c).lent_journal()),
                    *final(final(c).lent_inbox()),
                ) && runtime::attempted(
                    prepared(was.stores[restarts as int], run_id@, restarts as nat),
                    rt.store(),
                    run_id@,
                    opts,
                    false,
                    c@,
                    final(c)@.leaving(*final(c.lent_journal()), *final(c.lent_inbox())),
                    result,
                    outcome,
                ) && (c.model() matches Some(m) && *m == was.models[restarts as int] && *final(m)
                            == rt.model()) && (final(c).model() matches Some(n) ==> *final(n) == *n));
            assert forall|i: int|
                #![trigger course.outcomes[i]]
                0 <= i < restarts + 1 implies exists|c: &mut Ctx<O>, result: Result<Value, Fault>|
                #[trigger] call_ensures(given, (c,), result) && c.wf() && runtime::handed_back(
                    final(c)@,
                    *final(final(c).lent_journal()),
                    *final(final(c).lent_inbox()),
                ) && runtime::attempted(
                    prepared(course.stores[i], run_id@, i as nat),
                    course.stores[i + 1],
                    run_id@,
                    opts,
                    false,
                    c@,
                    final(c)@.leaving(*final(c.lent_journal()), *final(c.lent_inbox())),
                    result,
                    course.outcomes[i],
                ) && (c.model() matches Some(m) && *m == course.models[i] && *final(m)
                            == course.models[i + 1]) && (final(c).model() matches Some(n) ==> *final(n) == *n) by {
                assert(course.stores[i] == was.stores[i]);
                assert(course.models[i] == was.models[i]);
                if i < restarts {
                    assert(course.outcomes[i] == was.outcomes[i]);
                    assert(course.stores[i + 1] == was.stores[i + 1]);
                    assert(course.models[i + 1] == was.models[i + 1]);
                }
            }
            match outcome {
                Ok(report) => {
                    proof {
                        course.decisions = course.decisions.push(Decision::Stop);
                        assert(course.outcomes.drop_last() =~= was.outcomes);
                        assert(course.decisions.drop_last() =~= was.decisions);
                        lemma_bounded(was, course, restarts, self.max_restarts);
                        assert(bounded(course, old(self).limit()));
                    }
                    return Ok(report);
                },
                Err(fault) => {
                    let decision = self.decide.decide(&fault);
                    proof {
                        course.decisions = course.decisions.push(decision);
                        assert(course.outcomes.drop_last() =~= was.outcomes);
                        assert(course.decisions.drop_last() =~= was.decisions);
                        assert forall|i: int|
                            #![trigger course.decisions[i]]
                            0 <= i < restarts + 1 implies (course.outcomes[i] matches Err(f)
                            ==> call_ensures(
                            D::decide,
                            (&policy, &f),
                            course.decisions[i],
                        )) by {
                            if i < restarts {
                                assert(course.decisions[i] == was.decisions[i]);
                                assert(course.outcomes[i] == was.outcomes[i]);
                            }
                        }
                    }
                    match after_fault(fault, decision, restarts, self.max_restarts) {
                        Verdict::Return(x) => {
                            proof {
                                lemma_bounded(was, course, restarts, self.max_restarts);
                                assert(bounded(course, old(self).limit()));
                            }
                            return x;
                        },
                        Verdict::Undo(f) => {
                            proof {
                                lemma_bounded(was, course, restarts, self.max_restarts);
                                assert(bounded(course, old(self).limit()));
                            }
                            match self.run_saga(rt, run_id) {
                                Err(g) => {
                                    return Err(g);
                                },
                                Ok(()) => {},
                            }
                            return Err(f);
                        },
                        Verdict::Again => {
                            assert forall|i: int| 0 <= i < restarts + 1 implies verdict(
                                #[trigger] course.outcomes[i],
                                course.decisions[i],
                                i as nat,
                                old(self).max_restarts as nat,
                            ) is Again by {
                                if i < restarts {
                                    assert(course.outcomes[i] == was.outcomes[i]);
                                    assert(course.decisions[i] == was.decisions[i]);
                                }
                            }
                            restarts += 1;
                        },
                    }
                },
            }
        }
    }

    /// Undoes the committed effects of `run_id`, in reverse order.
    fn run_saga<O: Oracle>(&mut self, rt: &mut Runtime<O>, run_id: &str) -> (r: Result<(), Fault>)
        requires
            old(rt).store().journals.dom().contains(run_id@),
        ensures
            r is Ok,
            final(self).limit() == old(self).limit(),
            final(self).policy() == old(self).policy(),
            final(rt).model() == old(rt).model(),
            final(rt).store() == compensated(old(rt).store(), run_id@),
            ({
                let list = committed(old(rt).store().journals[run_id@].events());
                exists|states: Seq<C>|
                    #![trigger states.len()]
                    states.len() == list.len() + 1 && states[0] == old(self).undoes()
                        && states.last() == final(self).undoes() && forall|i: int|
                        #![trigger states[i]]
                        0 <= i < states.len() - 1 ==> exists|m: &mut C, name: &str, result: &Value|
                            call_ensures(C::undo, (m, name, result), ()) && *m == states[i]
                                && *final(m) == states[i + 1] && name@ == list[states.len() - 2
                                - i].0 && result@ == list[states.len() - 2 - i].1
            }),
    {
        match rt.journal(run_id) {
            Err(f) => Err(f),
            Ok(j) => {
                compensate(j, &mut self.compensator);
                Ok(())
            },
        }
    }
}

proof fn lemma_bounded<O>(
    was: Supervision<O>,
    course: Supervision<O>,
    restarts: u32,
    limit: u32,
)
    requires
        restarts <= limit,
        was.outcomes.len() == restarts,
        was.decisions.len() == restarts,
        was.stores.len() == restarts + 1,
        course.outcomes.len() == restarts + 1,
        course.decisions.len() == restarts + 1,
        course.stores.len() == restarts + 2,
        course.models.len() == restarts + 2,
        course.outcomes.drop_last() == was.outcomes,
        course.decisions.drop_last() == was.decisions,
        forall|i: int|
            0 <= i < restarts ==> verdict(
                #[trigger] was.outcomes[i],
                was.decisions[i],
                i as nat,
                limit as nat,
            ) is Again,
    ensures
        bounded(course, limit),
{
    assert forall|i: int| 0 <= i < restarts implies verdict(
        #[trigger] course.outcomes[i],
        course.decisions[i],
        i as nat,
        limit as nat,
    ) is Again by {
        assert(course.outcomes.drop_last()[i] == was.outcomes[i]);
        assert(course.decisions.drop_last()[i] == was.decisions[i]);
    }
}

/// An intent that is closed by a compensation undoes nothing: the effects that
/// were committed before it still are.
pub proof fn law_written_off_intent_undoes_nothing(
    events: Seq<EventView>,
    name: Seq<char>,
    arg: Seq<u8>,
)
    ensures
        committed(
            events.push(EventView::EffectIntent { name, arg }).push(
                EventView::EffectCompensated { name },
            ),
        ) == committed(events),
{
    let begun = events.push(EventView::EffectIntent { name, arg });
    let closed = begun.push(EventView::EffectCompensated { name });
    assert(begun.drop_last() =~= events);
    assert(closed.drop_last() =~= begun);
    let open = journal::open_intents(begun);
    assert(open[open.len() - 1].0 == name);
    assert(has_name(open, name));
    assert(committed(begun) == committed(events));
}

/// A compensation behind which no intent of its name is open undoes the last
/// commit of that name.
proof fn lemma_undo(events: Seq<EventView>, name: Seq<char>)
    requires
        !has_name(journal::open_intents(events), name),
    ensures
        ({
            let after = events.push(EventView::EffectCompensated { name });
            &&& committed(after) == journal::without_last(committed(events), name)
            &&& journal::open_intents(after) == journal::open_intents(events)
        }),
{
    let after = events.push(EventView::EffectCompensated { name });
    assert(after.drop_last() =~= events);
    journal::lemma_without_none(journal::open_intents(events), name);
}

proof fn lemma_without_behind<B>(a: Seq<(Seq<char>, B)>, b: Seq<(Seq<char>, B)>, name: Seq<char>)
    requires
        a.len() > 0,
        a.last().0 == name,
        !has_name(b, name),
    ensures
        journal::without_last(a + b, name) == a.drop_last() + b,
    decreases b.len(),
{
    if b.len() == 0 {
        assert(a + b =~= a);
        assert(a.drop_last() + b =~= a.drop_last());
    } else {
        assert forall|i: int| 0 <= i < b.drop_last().len() implies (#[trigger] b.drop_last()[i]).0
            != name by {
            assert(b.drop_last()[i] == b[i]);
        }
        assert(b[b.len() - 1].0 != name);
        lemma_without_behind(a, b.drop_last(), name);
        assert((a + b).drop_last() =~= a + b.drop_last());
        assert((a.drop_last() + b.drop_last()).push(b.last()) =~= a.drop_last() + b);
    }
}

/// After the open intents `todo` have been closed, as far as the effects bear
/// their names, the committed effects are the same, and no intent of such a
/// name is open; `kept` are the open intents of other names.
proof fn lemma_closing(
    events: Seq<EventView>,
    todo: Seq<(Seq<char>, u64)>,
    kept: Seq<(Seq<char>, u64)>,
    effects: Seq<(Seq<char>, Seq<u8>)>,
)
    requires
        journal::open_intents(events) == todo + kept,
        forall|i: int| 0 <= i < kept.len() ==> !has_name(effects, (#[trigger] kept[i]).0),
    ensures
        ({
            let after = events + closing(todo, effects);
            &&& committed(after) == committed(events)
            &&& forall|i: int|
                0 <= i < journal::open_intents(after).len() ==> !has_name(
                    effects,
                    (#[trigger] journal::open_intents(after)[i]).0,
                )
        }),
    decreases todo.len(),
{
    if todo.len() == 0 {
        assert(events + closing(todo, effects) =~= events);
        assert(todo + kept =~= kept);
    } else {
        let name = todo.last().0;
        let rest = todo.drop_last();
        if has_name(effects, name) {
            let e = EventView::EffectCompensated { name };
            let next = events.push(e);
            assert(next.drop_last() =~= events);
            assert((todo + kept)[todo.len() - 1].0 == name);
            assert(has_name(journal::open_intents(events), name));
            assert(!has_name(kept, name)) by {
                if has_name(kept, name) {
                    let i = choose|i: int| 0 <= i < kept.len() && (#[trigger] kept[i]).0 == name;
                    assert(!has_name(effects, kept[i].0));
                }
            }
            lemma_without_behind(todo, kept, name);
            lemma_closing(next, rest, kept, effects);
            assert(next + closing(rest, effects) =~= events + closing(todo, effects));
        } else {
            let more = seq![todo.last()] + kept;
            assert(rest + more =~= todo + kept);
            assert forall|i: int| 0 <= i < more.len() implies !has_name(
                effects,
                (#[trigger] more[i]).0,
            ) by {
                if i > 0 {
                    assert(more[i] == kept[i - 1]);
                }
            }
            lemma_closing(events, rest, more, effects);
        }
    }
}

/// A saga undoes everything once: after it, nothing is left to compensate, so
/// a second saga has nothing to undo and nothing to close.
pub proof fn law_saga_leaves_nothing_committed(events: Seq<EventView>)
    ensures
        committed(events + saga(events)).len() == 0,
        saga(events + saga(events)).len() == 0,
{
    let list = committed(events);
    let open = journal::open_intents(events);
    let closed = events + closing(open, list);
    assert(open + Seq::<(Seq<char>, u64)>::empty() =~= open);
    lemma_closing(events, open, Seq::empty(), list);
    lemma_undoing_prefix(closed, list, list.len() as int);
    assert(undoing(list).take(list.len() as int) =~= undoing(list));
    let after = events + saga(events);
    assert(closed + undoing(list) =~= after);
    assert(committed(after) =~= Seq::empty());
    lemma_nothing_to_close(journal::open_intents(after));
}

proof fn lemma_nothing_to_close<B>(open: Seq<(Seq<char>, B)>)
    ensures
        closing(open, Seq::empty()).len() == 0,
    decreases open.len(),
{
    if open.len() > 0 {
        lemma_nothing_to_close(open.drop_last());
    }
}

proof fn lemma_undoing_prefix(
    events: Seq<EventView>,
    list: Seq<(Seq<char>, Seq<u8>)>,
    i: int,
)
    requires
        list == committed(events),
        forall|k: int|
            0 <= k < journal::open_intents(events).len() ==> !has_name(
                list,
                (#[trigger] journal::open_intents(events)[k]).0,
            ),
        0 <= i <= list.len(),
    ensures
        committed(events + undoing(list).take(i)) == list.take(list.len() - i),
        journal::open_intents(events + undoing(list).take(i)) == journal::open_intents(events),
    decreases i,
{
    let all = undoing(list);
    if i == 0 {
        assert(events + all.take(0) =~= events);
        assert(list.take(list.len() as int) =~= list);
    } else {
        lemma_undoing_prefix(events, list, i - 1);
        let before = events + all.take(i - 1);
        let name = list[list.len() - i].0;
        let open = journal::open_intents(events);
        assert(!has_name(open, name)) by {
            if has_name(open, name) {
                let k = choose|k: int| 0 <= k < open.len() && (#[trigger] open[k]).0 == name;
                assert(!has_name(list, open[k].0));
                assert(list[list.len() - i].0 == name);
            }
        }
        lemma_undo(before, name);
        assert(events + all.take(i) =~= before.push(EventView::EffectCompensated { name }));
        let rest = list.take(list.len() - (i - 1));
        assert(rest.last() == list[list.len() - i]);
        assert(rest.drop_last() =~= list.take(list.len() - i));
    }
}

/// The saga undoes the effects in the reverse of the order in which they were
/// committed: these compensations are the last ones that it appends.
pub proof fn law_saga_runs_in_reverse(events: Seq<EventView>, i: int)
    requires
        0 <= i < committed(events).len(),
    ensures
        saga(events)[saga(events).len() - committed(events).len() + i] == (
        EventView::EffectCompensated {
            name: committed(events)[committed(events).len() - 1 - i].0,
        }),
{
}

/// A supervised run makes at most one attempt more than it may restart. Every
/// attempt before the last one failed and was decided to restart.
pub proof fn law_restarts_are_bounded<O>(course: Supervision<O>, limit: u32, i: int)
    requires
        bounded(course, limit),
    ensures
        0 < course.outcomes.len() <= limit + 1,
        0 <= i < course.outcomes.len() - 1 ==> course.outcomes[i] is Err && course.decisions[i]
            == Decision::Restart,
{
    if 0 <= i < course.outcomes.len() - 1 {
        assert(verdict(course.outcomes[i], course.decisions[i], i as nat, limit as nat) is Again);
    }
}

/// A supervised run ends as the last decision says. Unless that is to compensate
/// a fault, the store is as the last attempt left it and the compensator is not
/// touched; a stop, or a restart when none is left, returns the last fault as it
/// is, and a success its report. To compensate a fault is to return it, with
/// nothing but compensations behind what the last attempt left in the journal.
pub proof fn law_supervision_ends_as_decided<
    D: Policy,
    C: Compensator,
    O: Oracle,
    F: FnMut(&mut Ctx<O>) -> Result<Value, Fault>,
>(
    s: Supervisor<D, C>,
    t: Supervisor<D, C>,
    before: Runtime<O>,
    after: Runtime<O>,
    run_id: &str,
    opts: RunOptions,
    agent: F,
    r: Result<RunReport, Fault>,
)
    requires
        exists|x: &mut Supervisor<D, C>, y: &mut Runtime<O>| #[trigger]
            call_ensures(Supervisor::<D, C>::supervise::<O, F>, (x, y, run_id, opts, agent), r)
                && *x == s && *final(x) == t && *y == before && *final(y) == after,
    ensures
        t.limit() == s.limit(),
        exists|course: Supervision<O>| #[trigger]
            bounded(course, s.limit()) && course.stores[0] == before.store() && ({
                let last = course.outcomes.last();
                let decision = course.decisions.last();
                let left = course.stores.last();
                match last {
                    Ok(report) => r == Ok::<RunReport, Fault>(report) && after.store() == left
                        && t.undoes() == s.undoes(),
                    Err(f) => match decision {
                        Decision::Stop | Decision::Restart => r == Err::<RunReport, Fault>(f)
                            && after.store() == left && t.undoes() == s.undoes(),
                        Decision::Escalate => (r matches Err(Fault::Escalated(inner)) && *inner
                            == f) && after.store() == left && t.undoes() == s.undoes(),
                        Decision::Compensate => {
                            let was = left.journals[run_id@].events();
                            let now = after.store().journals[run_id@].events();
                            &&& r == Err::<RunReport, Fault>(f)
                            &&& now.take(was.len() as int) == was
                            &&& forall|k: int|
                                was.len() <= k < now.len() ==> (#[trigger] now[k]) is
                                    EffectCompensated
                        },
                    },
                }
            }),
{
    let (x, y) = choose|x: &mut Supervisor<D, C>, y: &mut Runtime<O>| #[trigger]
        call_ensures(Supervisor::<D, C>::supervise::<O, F>, (x, y, run_id, opts, agent), r) && *x
            == s && *final(x) == t && *y == before && *final(y) == after;
    assert(call_ensures(
        Supervisor::<D, C>::supervise::<O, F>,
        (x, y, run_id, opts, agent),
        r,
    ));
    assert forall|left: StoreView|
        only_adds_compensations(left, #[trigger] compensated(left, run_id@), run_id@) by {
        lemma_compensated_events(left, run_id@);
    }
}

/// Does the journal of `run_id` keep all that it held, with nothing but
/// compensations behind it?
spec fn only_adds_compensations(s: StoreView, t: StoreView, run_id: Seq<char>) -> bool {
    let was = s.journals[run_id].events();
    let now = t.journals[run_id].events();
    &&& now.take(was.len() as int) == was
    &&& forall|k: int| was.len() <= k < now.len() ==> (#[trigger] now[k]) is EffectCompensated
}

proof fn lemma_compensated_events(s: StoreView, run_id: Seq<char>)
    ensures
        ({
            let was = s.journals[run_id].events();
            let now = compensated(s, run_id).journals[run_id].events();
            &&& now.take(was.len() as int) == was
            &&& forall|k: int|
                was.len() <= k < now.len() ==> (#[trigger] now[k]) is EffectCompensated
        }),
{
    let j = s.journals[run_id];
    let more = saga(j.events());
    store::lemma_events_after(j, more);
    let was = j.events();
    let now = compensated(s, run_id).journals[run_id].events();
    assert(now == was + more);
    assert(now.take(was.len() as int) =~= was);
    lemma_closing_compensates(journal::open_intents(was), committed(was));
    assert forall|k: int| was.len() <= k < now.len() implies (#[trigger] now[k]) is
        EffectCompensated by {
        assert(now[k] == more[k - was.len()]);
    }
}

/// A new supervisor restarts up to three times. Each setting changes what it
/// names and keeps the rest.
pub proof fn law_supervisor_settings<
    D,
    C,
    F: Fn(&Fault) -> Decision,
    G: FnMut(&str, &Value),
>(
    fresh: Supervisor<DefaultPolicy, NoCompensator>,
    s: Supervisor<D, C>,
    n: u32,
    decide: F,
    undo: G,
    a: Supervisor<D, C>,
    b: Supervisor<Custom<F>, C>,
    c: Supervisor<D, Saga<G>>,
)
    requires
        call_ensures(Supervisor::<DefaultPolicy, NoCompensator>::new, (), fresh),
        call_ensures(Supervisor::<D, C>::max_restarts, (s, n), a),
        call_ensures(Supervisor::<D, C>::on_fault::<F>, (s, decide), b),
        call_ensures(Supervisor::<D, C>::compensate_with::<G>, (s, undo), c),
    ensures
        fresh.limit() == 3,
        a.limit() == n && a.policy() == s.policy() && a.undoes() == s.undoes(),
        b.limit() == s.limit() && b.policy().closure() == decide && b.undoes() == s.undoes(),
        c.limit() == s.limit() && c.policy() == s.policy() && c.undoes().closure() == Some(undo),
{
}

} // verus!
