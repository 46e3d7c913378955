//! What a crashed run comes to when it is resumed, from its start to its end.
//!
//! The laws here speak of agents that make the same kinds of steps on every
//! path, whatever the outcomes, and that return every fault they get.
use vstd::prelude::*;

use crate::ctx::{CtxView, LabelView};
use crate::event::EventView;
use crate::fault::FaultView;
use crate::journal;
use crate::journal::JournalView;
use crate::recovery_laws;
use crate::replay_laws;
use crate::replay_laws::{Answer, Program, Request, World};
use crate::store;
use crate::store::RecoverView;

verus! {

/// The kinds of requests.
pub enum Kind {
    Oracle,
    Effect,
    Recv,
    Now,
    Marker,
    End,
}

/// The kind of a request.
pub open spec fn kind_of(request: Request) -> Kind {
    match request {
        Request::Oracle { .. } => Kind::Oracle,
        Request::Effect { .. } => Kind::Effect,
        Request::Recv { .. } => Kind::Recv,
        Request::Now => Kind::Now,
        Request::Marker { .. } => Kind::Marker,
        Request::End { .. } => Kind::End,
    }
}

/// Is no answer a fault?
pub open spec fn faultless(answers: Seq<Answer>) -> bool {
    forall|i: int| 0 <= i < answers.len() ==> (#[trigger] answers[i]) !is Fault
}

/// Does the agent make the same kinds of steps on every path?
pub open spec fn uniform(program: Program) -> bool {
    forall|a: Seq<Answer>, b: Seq<Answer>|
        faultless(a) && faultless(b) && a.len() == b.len() ==> kind_of(#[trigger] program(a))
            == kind_of(#[trigger] program(b))
}

/// Does the agent return every fault it gets?
pub open spec fn returns_faults(program: Program) -> bool {
    forall|a: Seq<Answer>|
        a.len() > 0 && a.last() is Fault ==> #[trigger] program(a) == (Request::End {
            result: Err::<Seq<u8>, FaultView>(a.last()->Fault_0),
        })
}

/// How many of the events are of this sort?
pub open spec fn tally(events: Seq<EventView>, sort: spec_fn(EventView) -> bool) -> nat
    decreases events.len(),
{
    if events.len() == 0 {
        0
    } else {
        tally(events.drop_last(), sort) + if sort(events.last()) {
            1nat
        } else {
            0nat
        }
    }
}

/// How many draws the events hold.
pub open spec fn draws(events: Seq<EventView>) -> nat {
    tally(events, |e: EventView| e is OracleDraw)
}

/// How many committed effects the events hold.
pub open spec fn commits(events: Seq<EventView>) -> nat {
    tally(events, |e: EventView| e is EffectCommit)
}

/// The cursor that a label names, if it names one.
pub open spec fn cursor_of(label: LabelView) -> Option<nat> {
    match label {
        LabelView::Oracle { cursor, .. } => Some(cursor),
        LabelView::Effect { cursor, .. } => Some(cursor),
        LabelView::Recv { cursor, .. } => Some(cursor),
        LabelView::Clock { cursor, .. } => Some(cursor),
        LabelView::Done { .. } => None,
    }
}

/// Is everything that `full` has observed of the first `k` entries observed by
/// `resumed` too, at the same place?
pub open spec fn agree_below(full: Seq<LabelView>, resumed: Seq<LabelView>, k: nat) -> bool {
    forall|i: int|
        0 <= i < full.len() && (cursor_of(#[trigger] full[i]) matches Some(c) && c < k) ==> i
            < resumed.len() && resumed[i] == full[i]
}

proof fn lemma_tally_push(events: Seq<EventView>, e: EventView, sort: spec_fn(EventView) -> bool)
    ensures
        tally(events.push(e), sort) == tally(events, sort) + if sort(e) {
            1nat
        } else {
            0nat
        },
{
    assert(events.push(e).drop_last() =~= events);
}

proof fn lemma_tally_add(
    a: Seq<EventView>,
    b: Seq<EventView>,
    sort: spec_fn(EventView) -> bool,
)
    ensures
        tally(a + b, sort) == tally(a, sort) + tally(b, sort),
    decreases b.len(),
{
    if b.len() == 0 {
        assert(a + b =~= a);
    } else {
        lemma_tally_add(a, b.drop_last(), sort);
        assert((a + b).drop_last() =~= a + b.drop_last());
    }
}

/// Does a run without limits stand at the end of its journal, with no intent
/// open?
spec fn at_tail(c: CtxView) -> bool {
    &&& c.pos == c.journal.entries.len()
    &&& !c.strict
    &&& c.budget is None
    &&& c.caps is None
    &&& journal::open_intents(c.journal.events()).len() == 0
}

/// The journal of a run that was cut after `k` entries, with its open intents
/// closed as decided.
pub open spec fn recovered(full: JournalView, k: nat, decisions: Seq<RecoverView>) -> JournalView {
    let left = full.truncated(k);
    left.append_all(store::closings(journal::open_intents(left.events()), decisions))
}

/// Is the resumed run still within what survived, and the same as the recorded
/// one?
spec fn within(
    c: CtxView,
    s: CtxView,
    a: Seq<Answer>,
    b: Seq<Answer>,
    survived: JournalView,
    k: nat,
) -> bool {
    &&& a == b
    &&& c.journal.entries.len() <= k
    &&& s.journal == survived
    &&& s.pos == c.pos
    &&& s.trace == c.trace
    &&& s.fresh == 0
    &&& !s.strict
    &&& s.budget is None
    &&& s.caps is None
}

/// Has the resumed run left behind what survived?
spec fn beyond(c: CtxView, s: CtxView, full: JournalView, k: nat) -> bool {
    let kept = full.entries.take(k as int);
    &&& at_tail(s)
    &&& k <= c.journal.entries.len()
    &&& replay_laws::extends(kept, s.journal.entries)
    &&& draws(c.journal.events()) == draws(journal::events_of(kept)) + s.fresh
    &&& commits(c.journal.events()) == commits(s.journal.events())
    &&& agree_below(c.trace, s.trace, k)
}

/// How the recorded run and the resumed run stand to each other after as many
/// steps.
spec fn paired(
    c: CtxView,
    s: CtxView,
    a: Seq<Answer>,
    b: Seq<Answer>,
    full: JournalView,
    k: nat,
    decisions: Seq<RecoverView>,
) -> bool {
    &&& at_tail(c)
    &&& replay_laws::extends(c.journal.entries, full.entries)
    &&& a.len() == b.len()
    &&& faultless(a)
    &&& faultless(b)
    &&& within(c, s, a, b, recovered(full, k, decisions), k) || beyond(c, s, full, k)
}

/// Does a step of this kind draw?
spec fn drawn(request: Request) -> nat {
    if request is Oracle {
        1
    } else {
        0
    }
}

/// Does a step of this kind commit an effect?
spec fn performed(request: Request) -> nat {
    if request is Effect {
        1
    } else {
        0
    }
}

/// A step at the end of the journal that is not answered by a fault.
proof fn lemma_tail_step(c: CtxView, request: Request, world: World, n: nat)
    requires
        at_tail(c),
        request !is End,
        replay_laws::step(c, request, world, n).1 !is Fault,
    ensures
        ({
            let c1 = replay_laws::step(c, request, world, n).0;
            let m = c.journal.entries.len();
            &&& at_tail(c1)
            &&& replay_laws::extends(c.journal.entries, c1.journal.entries)
            &&& c1.journal.entries.len() == m + 1 + performed(request)
            &&& draws(c1.journal.events()) == draws(c.journal.events()) + drawn(request)
            &&& commits(c1.journal.events()) == commits(c.journal.events()) + performed(request)
            &&& c1.fresh == c.fresh + drawn(request)
            &&& c.trace.len() <= c1.trace.len()
            &&& c1.trace.take(c.trace.len() as int) == c.trace
            &&& forall|i: int|
                c.trace.len() <= i < c1.trace.len() ==> (cursor_of(#[trigger] c1.trace[i]) matches Some(
                    x,
                ) ==> m <= x)
        }),
{
    let c1 = replay_laws::step(c, request, world, n).0;
    let before = c.journal.events();
    let after = c1.journal.events();
    let draw = |e: EventView| e is OracleDraw;
    let commit = |e: EventView| e is EffectCommit;
    replay_laws::law_step_only_appends(c, request, world, n);
    assert(c1.trace.take(c.trace.len() as int) =~= c.trace);
    match request {
        Request::Effect { name, arg } => {
            let begun = c.effect_begin(name, arg);
            let result = (world.perform)(n)->Ok_0;
            recovery_laws::law_committed_effect_is_settled(c, name, arg, result);
            let e1 = EventView::EffectIntent { name, arg };
            let e2 = EventView::EffectCommit { name, result };
            assert(after =~= before.push(e1).push(e2));
            lemma_tally_push(before, e1, draw);
            lemma_tally_push(before.push(e1), e2, draw);
            lemma_tally_push(before, e1, commit);
            lemma_tally_push(before.push(e1), e2, commit);
        },
        _ => {
            let e = after.last();
            assert(after =~= before.push(e));
            assert(after.drop_last() =~= before);
            lemma_tally_push(before, e, draw);
            lemma_tally_push(before, e, commit);
        },
    }
}

/// Once the recorded run has recorded what survived, and no more, the resumed
/// run has left it behind.
proof fn lemma_crossed(
    c: CtxView,
    s: CtxView,
    a: Seq<Answer>,
    b: Seq<Answer>,
    full: JournalView,
    k: nat,
    decisions: Seq<RecoverView>,
)
    requires
        at_tail(c),
        replay_laws::extends(c.journal.entries, full.entries),
        within(c, s, a, b, recovered(full, k, decisions), k),
        c.journal.entries.len() == k,
    ensures
        beyond(c, s, full, k),
{
    let left = full.truncated(k);
    let kept = full.entries.take(k as int);
    assert(kept =~= c.journal.entries);
    assert(left.entries =~= kept);
    assert(left.events() =~= c.journal.events());
    let open = journal::open_intents(left.events());
    assert(store::closings(open, decisions) =~= Seq::empty());
    assert(s.journal == left);
    assert(s.journal.entries.take(k as int) =~= kept);
}

/// What survived begins with what was kept.
proof fn lemma_kept(full: JournalView, k: nat, decisions: Seq<RecoverView>)
    requires
        k <= full.entries.len(),
    ensures
        k <= recovered(full, k, decisions).entries.len(),
        recovered(full, k, decisions).entries.take(k as int) == full.entries.take(k as int),
        forall|i: int|
            0 <= i < k ==> #[trigger] recovered(full, k, decisions).entries[i] == full.entries[i],
{
    let left = full.truncated(k);
    let all = recovered(full, k, decisions).entries;
    assert(left.entries =~= full.entries.take(k as int));
    recovery_laws::law_append_all_only_appends(
        left,
        store::closings(journal::open_intents(left.events()), decisions),
    );
    assert forall|i: int| 0 <= i < k implies #[trigger] all[i] == full.entries[i] by {
        assert(all.take(k as int)[i] == all[i]);
    }
}

/// A cut between the intent of an effect and its commit leaves that intent
/// open, and recovery closes it right behind what was kept.
proof fn lemma_cut_effect(
    c: CtxView,
    full: JournalView,
    k: nat,
    decisions: Seq<RecoverView>,
    name: Seq<char>,
    arg: Seq<u8>,
)
    requires
        at_tail(c),
        replay_laws::extends(c.effect_begin(name, arg).journal.entries, full.entries),
        c.journal.entries.len() + 1 == k,
    ensures
        ({
            let survived = recovered(full, k, decisions);
            let kept = full.entries.take(k as int);
            &&& survived.entries.len() == k + 1
            &&& survived.entries[k - 1].event == (EventView::EffectIntent { name, arg })
            &&& survived.entries[k as int].event == store::closing(name, decisions[0])
            &&& replay_laws::extends(kept, survived.entries)
            &&& journal::open_intents(survived.events()).len() == 0
            &&& draws(survived.events()) == draws(c.journal.events())
            &&& draws(journal::events_of(kept)) == draws(c.journal.events())
            &&& commits(survived.events()) == commits(c.journal.events()) + (if decisions[0] is Commit {
                1nat
            } else {
                0nat
            })
        }),
{
    let draw = |e: EventView| e is OracleDraw;
    let commit = |e: EventView| e is EffectCommit;
    let begun = c.effect_begin(name, arg).journal;
    let left = full.truncated(k);
    let kept = full.entries.take(k as int);
    let before = c.journal.events();
    let intent = EventView::EffectIntent { name, arg };
    assert(kept =~= begun.entries);
    assert(left.entries =~= kept);
    assert(left.events() =~= before.push(intent));
    assert(before.push(intent).drop_last() =~= before);
    let open = journal::open_intents(left.events());
    assert(open.len() == 1 && open[0].0 == name);
    let end = store::closing(name, decisions[0]);
    let closings = store::closings(open, decisions);
    assert(closings =~= seq![end]);
    assert(closings.drop_last() =~= Seq::empty());
    assert(left.append_all(closings.drop_last()) == left);
    let survived = recovered(full, k, decisions);
    assert(survived == left.append(end));
    assert(survived.events() =~= left.events().push(end));
    assert(survived.events().drop_last() =~= left.events());
    assert(survived.entries.take(k as int) =~= kept);
    assert(open.drop_last() =~= Seq::empty());
    lemma_tally_push(before, intent, draw);
    lemma_tally_push(before, intent, commit);
    lemma_tally_push(left.events(), end, draw);
    lemma_tally_push(left.events(), end, commit);
    assert(journal::events_of(kept) =~= left.events());
}

/// One step of both runs.
proof fn lemma_paired_step(
    c: CtxView,
    s: CtxView,
    a: Seq<Answer>,
    b: Seq<Answer>,
    q: Request,
    p: Request,
    world: World,
    other: World,
    full: JournalView,
    k: nat,
    decisions: Seq<RecoverView>,
)
    requires
        k <= full.entries.len(),
        paired(c, s, a, b, full, k, decisions),
        q !is End,
        kind_of(q) == kind_of(p),
        a == b ==> q == p,
        replay_laws::step(c, q, world, a.len()).1 !is Fault,
        replay_laws::step(s, p, other, b.len()).1 !is Fault,
        replay_laws::extends(
            replay_laws::step(c, q, world, a.len()).0.journal.entries,
            full.entries,
        ),
    ensures
        ({
            let (c1, x) = replay_laws::step(c, q, world, a.len());
            let (s1, y) = replay_laws::step(s, p, other, b.len());
            paired(c1, s1, a.push(x), b.push(y), full, k, decisions)
        }),
{
    let (c1, x) = replay_laws::step(c, q, world, a.len());
    let (s1, y) = replay_laws::step(s, p, other, b.len());
    let survived = recovered(full, k, decisions);
    let kept = full.entries.take(k as int);
    let m = c.journal.entries.len() as int;
    lemma_tail_step(c, q, world, a.len());
    if within(c, s, a, b, survived, k) && m == k {
        lemma_crossed(c, s, a, b, full, k, decisions);
    }
    if beyond(c, s, full, k) {
        lemma_tail_step(s, p, other, b.len());
        assert(s1.journal.entries.take(k as int) =~= s.journal.entries.take(k as int)) by {
            assert(s1.journal.entries.take(s.journal.entries.len() as int)
                =~= s.journal.entries);
            assert(s1.journal.entries.take(s.journal.entries.len() as int).take(k as int)
                =~= s1.journal.entries.take(k as int));
        }
        assert forall|i: int|
            0 <= i < c1.trace.len() && (cursor_of(#[trigger] c1.trace[i]) matches Some(x) && x
                < k) implies i < s1.trace.len() && s1.trace[i] == c1.trace[i] by {
            if i < c.trace.len() {
                assert(c1.trace.take(c.trace.len() as int)[i] == c.trace[i]);
                assert(s1.trace.take(s.trace.len() as int)[i] == s.trace[i]);
            }
        }
        assert(beyond(c1, s1, full, k));
    } else {
        // The journal that survived holds what this step has recorded.
        lemma_kept(full, k, decisions);
        assert forall|i: int|
            0 <= i < c1.journal.entries.len() implies c1.journal.entries[i]
            == #[trigger] full.entries[i] by {
            assert(full.entries.take(c1.journal.entries.len() as int)[i] == full.entries[i]);
        }
        assert(survived.entries[m] == full.entries[m]);
        assert(full.entries[m] == c1.journal.entries[m]);
        match q {
            Request::Effect { name, arg } => {
                assert(full.entries[m + 1] == c1.journal.entries[m + 1]);
                if m + 2 <= k {
                    assert(survived.entries[m + 1] == full.entries[m + 1]);
                    assert(within(c1, s1, a.push(x), b.push(y), survived, k));
                } else {
                    let begun = c.effect_begin(name, arg).journal;
                    assert(full.entries.take(begun.entries.len() as int) =~= begun.entries);
                    lemma_cut_effect(c, full, k, decisions, name, arg);
                    lemma_after_cut(c, s, name, arg, other, b.len(), full, k, decisions);
                    assert forall|i: int|
                        0 <= i < c1.trace.len() && (cursor_of(#[trigger] c1.trace[i]) matches Some(
                            x,
                        ) && x < k) implies i < s1.trace.len() && s1.trace[i] == c1.trace[i] by {
                        if i < c.trace.len() {
                            assert(c1.trace.take(c.trace.len() as int)[i] == c.trace[i]);
                            assert(s1.trace.take(s.trace.len() as int)[i] == s.trace[i]);
                        } else {
                            assert(c1.trace[i] == (LabelView::Effect {
                                cursor: k,
                                name,
                                result: (world.perform)(a.len())->Ok_0,
                            }));
                        }
                    }
                    assert(beyond(c1, s1, full, k));
                }
            },
            _ => {
                assert(s.next_event() == Some(c1.journal.entries[m].event));
                assert(within(c1, s1, a.push(x), b.push(y), survived, k));
            },
        }
    }
    assert forall|i: int| 0 <= i < a.push(x).len() implies (#[trigger] a.push(x)[i]) !is Fault by {
        if i < a.len() {
            assert(a.push(x)[i] == a[i]);
        }
    }
    assert forall|i: int| 0 <= i < b.push(y).len() implies (#[trigger] b.push(y)[i]) !is Fault by {
        if i < b.len() {
            assert(b.push(y)[i] == b[i]);
        }
    }
}

/// The effect whose commit was lost, in the resumed run: it is served as
/// decided, or performed afresh.
proof fn lemma_after_cut(
    c: CtxView,
    s: CtxView,
    name: Seq<char>,
    arg: Seq<u8>,
    other: World,
    n: nat,
    full: JournalView,
    k: nat,
    decisions: Seq<RecoverView>,
)
    requires
        at_tail(c),
        c.journal.entries.len() + 1 == k,
        k <= full.entries.len(),
        replay_laws::extends(c.effect_begin(name, arg).journal.entries, full.entries),
        s.journal == recovered(full, k, decisions),
        s.pos == c.pos,
        s.fresh == 0,
        !s.strict,
        s.budget is None,
        s.caps is None,
        replay_laws::step(s, Request::Effect { name, arg }, other, n).1 !is Fault,
    ensures
        ({
            let s1 = replay_laws::step(s, Request::Effect { name, arg }, other, n).0;
            &&& at_tail(s1)
            &&& s1.fresh == 0
            &&& replay_laws::extends(full.entries.take(k as int), s1.journal.entries)
            &&& draws(journal::events_of(full.entries.take(k as int))) == draws(c.journal.events())
            &&& commits(s1.journal.events()) == commits(c.journal.events()) + 1
            &&& s.trace.len() <= s1.trace.len()
            &&& s1.trace.take(s.trace.len() as int) == s.trace
        }),
{
    let request = Request::Effect { name, arg };
    let s1 = replay_laws::step(s, request, other, n).0;
    let survived = s.journal;
    let kept = full.entries.take(k as int);
    lemma_cut_effect(c, full, k, decisions, name, arg);
    assert(s.next_event() == Some(EventView::EffectIntent { name, arg }));
    let one = s.advanced();
    assert(one.next_event() == Some(store::closing(name, decisions[0])));
    let two = one.advanced();
    match decisions[0] {
        RecoverView::Commit(result) => {
            assert(s1.journal == survived);
            assert(s1.trace.take(s.trace.len() as int) =~= s.trace);
        },
        RecoverView::Compensate => {
            assert(two.next_event() is None);
            assert(at_tail(two));
            assert(two.effect_walk(name, arg) == (two, Ok::<Option<Seq<u8>>, FaultView>(None)));
            assert(s.effect_walk(name, arg) == two.effect_walk(name, arg));
            assert(s1 == replay_laws::step(two, request, other, n).0);
            lemma_tail_step(two, request, other, n);
            assert(s1.journal.entries.take(k as int) =~= kept) by {
                assert(s1.journal.entries.take(survived.entries.len() as int)
                    =~= survived.entries);
                assert(s1.journal.entries.take(survived.entries.len() as int).take(k as int)
                    =~= s1.journal.entries.take(k as int));
            }
        },
    }
}

proof fn lemma_paired_runs(
    c: CtxView,
    s: CtxView,
    program: Program,
    world: World,
    other: World,
    a: Seq<Answer>,
    b: Seq<Answer>,
    fuel: nat,
    more: nat,
    full: JournalView,
    k: nat,
    decisions: Seq<RecoverView>,
)
    requires
        uniform(program),
        returns_faults(program),
        k <= full.entries.len(),
        paired(c, s, a, b, full, k, decisions),
        replay_laws::run(c, program, world, a, fuel) matches Some(e) && e.result is Ok
            && e.ctx.journal == full,
        replay_laws::run(s, program, other, b, more) matches Some(r) && r.result is Ok,
    ensures
        beyond(
            replay_laws::run(c, program, world, a, fuel)->0.ctx,
            replay_laws::run(s, program, other, b, more)->0.ctx,
            full,
            k,
        ),
    decreases fuel,
{
    let q = program(a);
    let p = program(b);
    assert(kind_of(q) == kind_of(p));
    let survived = recovered(full, k, decisions);
    match q {
        Request::End { .. } => {
            if within(c, s, a, b, survived, k) {
                lemma_crossed(c, s, a, b, full, k, decisions);
            }
        },
        _ => {
            let (c1, x) = replay_laws::step(c, q, world, a.len());
            let (s1, y) = replay_laws::step(s, p, other, b.len());
            assert(a.push(x).last() == x);
            assert(b.push(y).last() == y);
            let rest = (fuel - 1) as nat;
            let left = (more - 1) as nat;
            assert(replay_laws::run(c, program, world, a, fuel) == replay_laws::run(
                c1,
                program,
                world,
                a.push(x),
                rest,
            ));
            assert(replay_laws::run(s, program, other, b, more) == replay_laws::run(
                s1,
                program,
                other,
                b.push(y),
                left,
            ));
            assert(x !is Fault);
            assert(y !is Fault);
            replay_laws::law_run_only_appends(c1, program, world, a.push(x), rest);
            lemma_paired_step(c, s, a, b, q, p, world, other, full, k, decisions);
            lemma_paired_runs(
                c1,
                s1,
                program,
                world,
                other,
                a.push(x),
                b.push(y),
                rest,
                left,
                full,
                k,
                decisions,
            );
        },
    }
}

/// **A resumed run, whole.** A run is recorded to an Ok end, a crash cuts its
/// journal to the first `k` entries, and the run is resumed, with the dangling
/// intents closed by any decisions, to an Ok end again. Then the journal begins
/// with what survived; everything observed of what survived is observed again,
/// the same and at the same place; the model is drawn from afresh exactly once
/// for each draw that the crash has lost; each effect is committed exactly as
/// often as in the recorded run, so none that survived is performed again; and
/// nothing is left dangling.
pub proof fn law_resumed_run_is_whole(
    journal: JournalView,
    inbox: Map<Seq<char>, Seq<Seq<u8>>>,
    program: Program,
    world: World,
    fuel: nat,
    k: nat,
    decisions: Seq<RecoverView>,
    later_inbox: Map<Seq<char>, Seq<Seq<u8>>>,
    later_world: World,
    later_fuel: nat,
)
    requires
        uniform(program),
        returns_faults(program),
        journal.entries.len() == 0,
        replay_laws::run(
            CtxView::start(journal, inbox, false, None, None),
            program,
            world,
            Seq::empty(),
            fuel,
        ) matches Some(e) && e.result is Ok && k <= e.ctx.journal.entries.len()
            && (replay_laws::run(
            CtxView::start(
                recovered(e.ctx.journal, k, decisions),
                later_inbox,
                false,
                None,
                None,
            ),
            program,
            later_world,
            Seq::empty(),
            later_fuel,
        ) matches Some(r) && r.result is Ok),
    ensures
        ({
            let e = replay_laws::run(
                CtxView::start(journal, inbox, false, None, None),
                program,
                world,
                Seq::empty(),
                fuel,
            )->0;
            let full = e.ctx.journal;
            let r = replay_laws::run(
                CtxView::start(recovered(full, k, decisions), later_inbox, false, None, None),
                program,
                later_world,
                Seq::empty(),
                later_fuel,
            )->0;
            &&& replay_laws::extends(full.entries.take(k as int), r.ctx.journal.entries)
            &&& agree_below(e.ctx.trace, r.ctx.trace, k)
            &&& r.ctx.fresh == draws(full.events().skip(k as int))
            &&& commits(r.ctx.journal.events()) == commits(full.events())
            &&& journal::open_intents(r.ctx.journal.events()).len() == 0
        }),
{
    let none = Seq::<Answer>::empty();
    let c = CtxView::start(journal, inbox, false, None, None);
    let e = replay_laws::run(c, program, world, none, fuel)->0;
    let full = e.ctx.journal;
    let s = CtxView::start(recovered(full, k, decisions), later_inbox, false, None, None);
    replay_laws::law_run_only_appends(c, program, world, none, fuel);
    assert(journal.events() =~= Seq::empty());
    assert(within(c, s, none, none, recovered(full, k, decisions), k));
    lemma_paired_runs(
        c,
        s,
        program,
        world,
        later_world,
        none,
        none,
        fuel,
        later_fuel,
        full,
        k,
        decisions,
    );
    let kept = journal::events_of(full.entries.take(k as int));
    let lost = full.events().skip(k as int);
    assert(kept + lost =~= full.events());
    lemma_tally_add(kept, lost, |e: EventView| e is OracleDraw);
}

} // verus!
