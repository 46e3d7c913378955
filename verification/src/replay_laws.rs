//! Replay soundness and what follows from it.
//!
//! An agent is a deterministic program: what it asks for next is a function of
//! the answers it has had so far. Everything that is not determined by the
//! program comes from the world: model outcomes, results of performed effects,
//! clock reads. The laws below speak of every program and every world.
use vstd::prelude::*;

use crate::ctx;
use crate::ctx::{CtxView, LabelView};
use crate::event::EventView;
use crate::fault::FaultView;
use crate::journal::{EntryView, JournalView};

verus! {

/// What an agent asks for next.
pub enum Request {
    Oracle { prompt: Seq<u8> },
    Effect { name: Seq<char>, arg: Seq<u8> },
    Recv { channel: Seq<char> },
    Now,
    Marker { name: Seq<char>, hash: Seq<char> },
    /// The agent ends, with an output or a fault.
    End { result: Result<Seq<u8>, FaultView> },
}

/// What an agent is answered.
pub enum Answer {
    Value(Seq<u8>),
    Nanos(u64),
    Done,
    Fault(FaultView),
}

/// An agent: its next request, given all answers so far.
pub type Program = spec_fn(Seq<Answer>) -> Request;

/// What the outside gives at the `n`-th step, if it is consulted then.
pub struct World {
    /// The model: an outcome and its provenance, or a fault.
    pub draw: spec_fn(nat) -> Result<(Seq<u8>, Seq<char>), FaultView>,
    /// The result of performing an effect.
    pub perform: spec_fn(nat) -> Result<Seq<u8>, FaultView>,
    /// The clock.
    pub clock: spec_fn(nat) -> u64,
}

/// One step of a run: the state after it and the answer.
pub open spec fn step(c: CtxView, request: Request, world: World, n: nat) -> (CtxView, Answer) {
    match request {
        Request::Oracle { prompt } => {
            let (c1, a) = c.oracle_replay(prompt);
            match a {
                Err(f) => (c1, Answer::Fault(f)),
                Ok(Some(v)) => (c1, Answer::Value(v)),
                Ok(None) => match (world.draw)(n) {
                    Err(f) => (c1, Answer::Fault(f)),
                    Ok((v, provenance)) => (
                        c1.oracle_commit(prompt, v, provenance),
                        Answer::Value(v),
                    ),
                },
            }
        },
        Request::Effect { name, arg } => {
            let (c1, a) = c.effect_replay(name, arg);
            match a {
                Err(f) => (c1, Answer::Fault(f)),
                Ok(Some(v)) => (c1, Answer::Value(v)),
                Ok(None) => match (world.perform)(n) {
                    Err(f) => (c1.effect_begin(name, arg), Answer::Fault(f)),
                    Ok(v) => (
                        c1.effect_begin(name, arg).effect_commit(name, v),
                        Answer::Value(v),
                    ),
                },
            }
        },
        Request::Recv { channel } => {
            let (c1, a) = c.recv(channel);
            match a {
                Err(f) => (c1, Answer::Fault(f)),
                Ok(v) => (c1, Answer::Value(v)),
            }
        },
        Request::Now => {
            let (c1, a) = c.now_replay();
            match a {
                Err(f) => (c1, Answer::Fault(f)),
                Ok(Some(t)) => (c1, Answer::Nanos(t)),
                Ok(None) => {
                    let t = (world.clock)(n);
                    (c1.now_commit(t), Answer::Nanos(t))
                },
            }
        },
        Request::Marker { name, hash } => {
            let (c1, a) = c.program_marker(name, hash);
            match a {
                Err(f) => (c1, Answer::Fault(f)),
                Ok(()) => (c1, Answer::Done),
            }
        },
        Request::End { .. } => (c, Answer::Done),
    }
}

/// What a run has come to.
pub struct Ended {
    /// The state of its context.
    pub ctx: CtxView,
    /// All answers, in order.
    pub answers: Seq<Answer>,
    /// What the agent ended with.
    pub result: Result<Seq<u8>, FaultView>,
}

/// Drives `program` from state `c`, after `answers`, for at most `fuel` steps:
/// what it comes to, if it ends by then.
pub open spec fn run(
    c: CtxView,
    program: Program,
    world: World,
    answers: Seq<Answer>,
    fuel: nat,
) -> Option<Ended>
    decreases fuel,
{
    match program(answers) {
        Request::End { result } => Some(Ended { ctx: c, answers, result }),
        request => if fuel == 0 {
            None
        } else {
            let (c1, a) = step(c, request, world, answers.len());
            run(c1, program, world, answers.push(a), (fuel - 1) as nat)
        },
    }
}

/// The state and the answers after exactly `n` steps. An agent that has ended
/// stays where it is.
pub open spec fn after(c: CtxView, program: Program, world: World, n: nat) -> (
    CtxView,
    Seq<Answer>,
)
    decreases n,
{
    if n == 0 {
        (c, Seq::empty())
    } else {
        let (p, answers) = after(c, program, world, (n - 1) as nat);
        match program(answers) {
            Request::End { .. } => (p, answers),
            request => {
                let (q, a) = step(p, request, world, answers.len());
                (q, answers.push(a))
            },
        }
    }
}

/// Does the walk over the pairs of an effect come upon an event that is not
/// its own?
pub open spec fn walk_refused(c: CtxView, name: Seq<char>, arg: Seq<u8>) -> bool
    decreases c.journal.entries.len() - c.pos,
{
    match c.next_event() {
        Some(EventView::EffectIntent { name: n, arg: a }) if n == name && a == arg => {
            match c.advanced().next_event() {
                Some(EventView::EffectCommit { name: m, .. }) if m == name => false,
                Some(EventView::EffectCompensated { name: m }) if m == name => {
                    walk_refused(c.advanced().advanced(), name, arg)
                },
                Some(_) => true,
                None => false,
            }
        },
        Some(_) => true,
        None => false,
    }
}

/// Is the request refused because the journal holds something else?
pub open spec fn journal_refuses(c: CtxView, request: Request) -> bool {
    match request {
        Request::Oracle { prompt } => c.charged() is Some && c.next_event() is Some
            && c.oracle_replay(prompt).1 is Err,
        Request::Effect { name, arg } => c.allows(name) && walk_refused(c, name, arg),
        Request::Recv { channel } => c.next_event() is Some && c.recv(channel).1 is Err,
        Request::Now => c.next_event() is Some && c.now_replay().1 is Err,
        Request::Marker { name, hash } => c.next_event() is Some && c.program_marker(
            name,
            hash,
        ).1 is Err,
        Request::End { .. } => false,
    }
}

/// Was the step answered by the journal or from outside; or does a run over the
/// journal and the inbox of `later` answer it by a fault, too, and go on from the
/// same entry? A step that a limit or the outside has failed leaves nothing in
/// the journal, and an effect that failed leaves its intent.
pub open spec fn on_record(
    c: CtxView,
    request: Request,
    world: World,
    n: nat,
    later: CtxView,
    other: World,
) -> bool {
    let (c1, a) = step(c, request, world, n);
    let (s1, b) = step(CtxView { pos: c.pos, ..later }, request, other, n);
    a !is Fault || (b is Fault && s1.pos == c1.pos && s1.journal == later.journal)
}

/// Are all steps of a run on record, as a run from `later` on reads them?
pub open spec fn run_on_record(
    c: CtxView,
    program: Program,
    world: World,
    answers: Seq<Answer>,
    fuel: nat,
    later: CtxView,
    other: World,
) -> bool
    decreases fuel,
{
    match program(answers) {
        Request::End { .. } => true,
        request => fuel == 0 || {
            let (c1, a) = step(c, request, world, answers.len());
            on_record(c, request, world, answers.len(), later, other) && run_on_record(
                c1,
                program,
                world,
                answers.push(a),
                (fuel - 1) as nat,
                later,
                other,
            )
        },
    }
}

/// Are the answers the same, but for which fault a fault is?
pub open spec fn alike(a: Seq<Answer>, b: Seq<Answer>) -> bool {
    a.len() == b.len() && forall|i: int|
        0 <= i < a.len() ==> #[trigger] a[i] == b[i] || (a[i] is Fault && b[i] is Fault)
}

/// Are the results the same, but for which fault a fault is?
pub open spec fn same_result(
    a: Result<Seq<u8>, FaultView>,
    b: Result<Seq<u8>, FaultView>,
) -> bool {
    a == b || (a is Err && b is Err)
}

/// Does the agent not look at which fault it got, but to return it?
pub open spec fn fault_blind(program: Program) -> bool {
    forall|a: Seq<Answer>, b: Seq<Answer>|
        #![trigger program(a), program(b)]
        alike(a, b) ==> program(a) == program(b) || (program(a) matches Request::End { result: x }
            && program(b) matches Request::End { result: y } && same_result(x, y))
}

/// Does the agent never repeat a request that failed before another one has
/// succeeded?
pub open spec fn never_repeats(program: Program) -> bool {
    forall|a: Seq<Answer>, i: int|
        #![trigger program(a), a.take(i)]
        0 <= i < a.len() && (forall|j: int| i <= j < a.len() ==> (#[trigger] a[j]) is Fault)
            && program(a.take(i)) !is End ==> program(a) != program(a.take(i))
}

/// Was the step answered by the journal or from outside, or refused for an
/// entry that is one of the first `k`?
pub open spec fn seen_within(c: CtxView, request: Request, world: World, n: nat, k: nat) -> bool {
    let (c1, a) = step(c, request, world, n);
    a !is Fault || (journal_refuses(c, request) && c1.pos < k)
}

/// Is that so of the first `n` steps of a run?
pub open spec fn steps_seen_within(
    c: CtxView,
    program: Program,
    world: World,
    n: nat,
    k: nat,
) -> bool
    decreases n,
{
    n == 0 || {
        let (p, answers) = after(c, program, world, (n - 1) as nat);
        steps_seen_within(c, program, world, (n - 1) as nat, k) && match program(answers) {
            Request::End { .. } => true,
            request => seen_within(p, request, world, answers.len(), k),
        }
    }
}

/// The trace of a finished run.
pub open spec fn trace_of(e: Ended) -> Seq<LabelView> {
    e.ctx.finished(
        match e.result {
            Ok(out) => Some(out),
            Err(f) => None,
        },
    )
}

/// Is `a` a prefix of `b`?
pub open spec fn extends(a: Seq<EntryView>, b: Seq<EntryView>) -> bool {
    a.len() <= b.len() && b.take(a.len() as int) == a
}

proof fn lemma_extends_trans(a: Seq<EntryView>, b: Seq<EntryView>, c: Seq<EntryView>)
    requires
        extends(a, b),
        extends(b, c),
    ensures
        extends(a, c),
{
    assert(c.take(a.len() as int) =~= b.take(a.len() as int));
}

proof fn lemma_walk_keeps_journal(c: CtxView, name: Seq<char>, arg: Seq<u8>)
    ensures
        c.effect_walk(name, arg).0.journal == c.journal,
        c.effect_walk(name, arg).0.fresh == c.fresh,
        c.effect_walk(name, arg).0.budget == c.budget,
        c.effect_walk(name, arg).0.inbox == c.inbox,
        c.effect_walk(name, arg).0.strict == c.strict,
        c.effect_walk(name, arg).0.caps == c.caps,
        c.effect_walk(name, arg).1 is Err ==> c.effect_walk(name, arg).0.trace == c.trace,
        c.effect_walk(name, arg).1 == Ok::<Option<Seq<u8>>, FaultView>(None) ==> c.effect_walk(
            name,
            arg,
        ).0.trace == c.trace,
        c.pos <= c.journal.entries.len() ==> c.pos <= c.effect_walk(name, arg).0.pos
            <= c.journal.entries.len(),
    decreases c.journal.entries.len() - c.pos,
{
    if let Some(EventView::EffectIntent { name: n, arg: a }) = c.next_event() {
        if n == name && a == arg {
            let c1 = c.advanced();
            if let Some(EventView::EffectCompensated { name: m }) = c1.next_event() {
                if m == name {
                    lemma_walk_keeps_journal(c1.advanced(), name, arg);
                }
            }
        }
    }
}

/// A step never rewrites the journal: the entries before it are a prefix of
/// the entries after it.
pub proof fn law_step_only_appends(c: CtxView, request: Request, world: World, n: nat)
    ensures
        extends(c.journal.entries, step(c, request, world, n).0.journal.entries),
{
    let e = c.journal.entries;
    let f = step(c, request, world, n).0.journal.entries;
    if let Request::Effect { name, arg } = request {
        lemma_walk_keeps_journal(c, name, arg);
    }
    assert(f.take(e.len() as int) =~= e);
}

/// A run never rewrites the journal.
pub proof fn law_run_only_appends(
    c: CtxView,
    program: Program,
    world: World,
    answers: Seq<Answer>,
    fuel: nat,
)
    ensures
        run(c, program, world, answers, fuel) matches Some(e) ==> extends(
            c.journal.entries,
            e.ctx.journal.entries,
        ) && answers.len() <= e.answers.len() && e.answers.take(answers.len() as int) == answers,
    decreases fuel,
{
    if let Some(e) = run(c, program, world, answers, fuel) {
        match program(answers) {
            Request::End { .. } => {
                assert(c.journal.entries.take(c.journal.entries.len() as int)
                    =~= c.journal.entries);
                assert(answers.take(answers.len() as int) =~= answers);
            },
            request => {
                let (c1, a) = step(c, request, world, answers.len());
                law_step_only_appends(c, request, world, answers.len());
                law_run_only_appends(c1, program, world, answers.push(a), (fuel - 1) as nat);
                lemma_extends_trans(
                    c.journal.entries,
                    c1.journal.entries,
                    e.ctx.journal.entries,
                );
                assert(e.answers.take(answers.len() as int) =~= e.answers.take(
                    answers.push(a).len() as int,
                ).take(answers.len() as int));
                assert(answers.push(a).take(answers.len() as int) =~= answers);
            },
        }
    }
}

/// Does the run `s`, which has no limits, stand where the run `c` stands? `s`
/// reads a journal of which the journal of `c` is a prefix.
spec fn tracks(c: CtxView, s: CtxView) -> bool {
    &&& extends(c.journal.entries, s.journal.entries)
    &&& c.pos <= c.journal.entries.len()
    &&& s.pos == c.pos
    &&& s.trace == c.trace
    &&& s.budget is None
    &&& s.caps is None
    &&& s.fresh == 0
}

proof fn lemma_same_event(c: CtxView, s: CtxView)
    requires
        tracks(c, s),
    ensures
        c.next_event() is Some ==> s.next_event() == c.next_event(),
        c.next_event() is None ==> c.pos == c.journal.entries.len(),
{
    if c.pos < c.journal.entries.len() {
        let e = s.journal.entries;
        assert(e.take(c.journal.entries.len() as int)[c.pos as int] == e[c.pos as int]);
    }
}

/// The walk over the pairs of an effect does the same in both.
proof fn lemma_walk_tracks(c: CtxView, s: CtxView, name: Seq<char>, arg: Seq<u8>)
    requires
        tracks(c, s),
    ensures
        ({
            let (c1, a) = c.effect_walk(name, arg);
            let (s1, b) = s.effect_walk(name, arg);
            match a {
                Err(f) => true,
                Ok(Some(v)) => b == a && tracks(c1, s1) && s1.journal == s.journal && s1.inbox
                    == s.inbox,
                Ok(None) => exists|t: CtxView| #[trigger]
                    tracks(c1, t) && t.journal == s.journal && t.inbox == s.inbox && (s1, b)
                        == t.effect_walk(name, arg) && c1.next_event() is None,
            }
        }),
    decreases c.journal.entries.len() - c.pos,
{
    lemma_same_event(c, s);
    match c.next_event() {
        None => {
            assert(tracks(c, s));
        },
        Some(EventView::EffectIntent { name: n, arg: a }) if n == name && a == arg => {
            let c1 = c.advanced();
            let s1 = s.advanced();
            assert(tracks(c1, s1));
            lemma_same_event(c1, s1);
            if let Some(EventView::EffectCompensated { name: m }) = c1.next_event() {
                if m == name {
                    lemma_walk_tracks(c1.advanced(), s1.advanced(), name, arg);
                }
            }
        },
        _ => {},
    }
}

/// Do the two runs read the same, under the same limits?
spec fn same_reading(s: CtxView, t: CtxView) -> bool {
    &&& s.journal == t.journal
    &&& s.inbox == t.inbox
    &&& s.strict == t.strict
    &&& s.pos == t.pos
    &&& s.budget == t.budget
    &&& s.caps == t.caps
}

proof fn lemma_same_walk(s: CtxView, t: CtxView, name: Seq<char>, arg: Seq<u8>)
    requires
        same_reading(s, t),
    ensures
        s.effect_walk(name, arg).1 == t.effect_walk(name, arg).1,
        same_reading(s.effect_walk(name, arg).0, t.effect_walk(name, arg).0),
    decreases s.journal.entries.len() - s.pos,
{
    if let Some(EventView::EffectIntent { name: n, arg: a }) = s.next_event() {
        if n == name && a == arg {
            let s1 = s.advanced();
            let t1 = t.advanced();
            assert(same_reading(s1, t1));
            if let Some(EventView::EffectCompensated { name: m }) = s1.next_event() {
                if m == name {
                    lemma_same_walk(s1.advanced(), t1.advanced(), name, arg);
                }
            }
        }
    }
}

/// What a step answers depends on what is read alone, not on what was observed.
proof fn lemma_same_step(s: CtxView, t: CtxView, request: Request, world: World, n: nat)
    requires
        same_reading(s, t),
    ensures
        step(s, request, world, n).1 == step(t, request, world, n).1,
        same_reading(step(s, request, world, n).0, step(t, request, world, n).0),
{
    if let Request::Effect { name, arg } = request {
        lemma_same_walk(s, t, name, arg);
    }
}

/// A step that is answered by a fault observes and draws nothing.
proof fn lemma_fault_step(c: CtxView, request: Request, world: World, n: nat)
    requires
        step(c, request, world, n).1 is Fault,
        c.pos <= c.journal.entries.len(),
    ensures
        ({
            let c1 = step(c, request, world, n).0;
            &&& c1.trace == c.trace
            &&& c1.fresh == c.fresh
            &&& c1.inbox == c.inbox
            &&& c1.caps == c.caps
            &&& c1.strict == c.strict
            &&& c.budget is None ==> c1.budget is None
            &&& c1.pos <= c1.journal.entries.len()
        }),
{
    if let Request::Effect { name, arg } = request {
        lemma_walk_keeps_journal(c, name, arg);
    }
}

/// One step of a run that is on record, and the same step of a run over a
/// journal that begins with what the first has recorded by then.
proof fn lemma_step_tracks(
    c: CtxView,
    s: CtxView,
    request: Request,
    world: World,
    other: World,
    n: nat,
    later: CtxView,
)
    requires
        tracks(c, s),
        same_reading(s, CtxView { pos: s.pos, ..later }),
        extends(step(c, request, world, n).0.journal.entries, s.journal.entries),
        on_record(c, request, world, n, later, other),
    ensures
        step(c, request, world, n).1 !is Fault ==> step(s, request, other, n).1 == step(
            c,
            request,
            world,
            n,
        ).1,
        step(c, request, world, n).1 is Fault ==> step(s, request, other, n).1 is Fault,
        tracks(step(c, request, world, n).0, step(s, request, other, n).0),
        step(s, request, other, n).0.journal == s.journal,
        step(s, request, other, n).0.inbox == s.inbox,
        step(s, request, other, n).0.strict == s.strict,
{
    let (c1, a) = step(c, request, world, n);
    let (s1, b) = step(s, request, other, n);
    let e = s.journal.entries;
    let k = c.journal.entries.len() as int;
    lemma_same_event(c, s);
    if a is Fault {
        lemma_same_step(s, CtxView { pos: c.pos, ..later }, request, other, n);
        lemma_fault_step(c, request, world, n);
        lemma_fault_step(s, request, other, n);
    } else {
        // What the step has appended is what the replay reads.
        assert(forall|i: int|
            0 <= i < c1.journal.entries.len() ==> c1.journal.entries[i] == #[trigger] e[i]) by {
            assert forall|i: int| 0 <= i < c1.journal.entries.len() implies c1.journal.entries[i]
                == #[trigger] e[i] by {
                assert(e.take(c1.journal.entries.len() as int)[i] == e[i]);
            }
        }
        match request {
            Request::Effect { name, arg } => {
                lemma_walk_tracks(c, s, name, arg);
                lemma_walk_keeps_journal(c, name, arg);
                lemma_walk_keeps_journal(s, name, arg);
                let (w, found) = c.effect_walk(name, arg);
                if found == Ok::<Option<Seq<u8>>, FaultView>(None) {
                    let t = choose|t: CtxView| #[trigger]
                        tracks(w, t) && t.journal == s.journal && t.inbox == s.inbox
                            && s.effect_walk(name, arg) == t.effect_walk(name, arg)
                            && w.next_event() is None;
                    assert(w.pos == k);
                    assert(c1.journal.entries[k] == e[k]);
                    assert(c1.journal.entries[k + 1] == e[k + 1]);
                    assert(t.next_event() == Some(EventView::EffectIntent { name, arg }));
                    assert(t.advanced().next_event() is Some);
                }
            },
            Request::End { .. } => {},
            _ => {
                if c.next_event() is None {
                    assert(c1.journal.entries[k] == e[k]);
                }
            },
        }
    }
}

proof fn lemma_run_tracks(
    c: CtxView,
    s: CtxView,
    program: Program,
    world: World,
    other: World,
    a: Seq<Answer>,
    b: Seq<Answer>,
    fuel: nat,
    later: CtxView,
)
    requires
        fault_blind(program),
        alike(a, b),
        tracks(c, s),
        same_reading(s, CtxView { pos: s.pos, ..later }),
        run(c, program, world, a, fuel) matches Some(e) && extends(
            e.ctx.journal.entries,
            s.journal.entries,
        ),
        run_on_record(c, program, world, a, fuel, later, other),
    ensures
        run(s, program, other, b, fuel) matches Some(r) && ({
            let e = run(c, program, world, a, fuel)->0;
            &&& alike(e.answers, r.answers)
            &&& same_result(e.result, r.result)
            &&& r.ctx.trace == e.ctx.trace
            &&& r.ctx.journal == s.journal
            &&& r.ctx.inbox == s.inbox
            &&& r.ctx.fresh == 0
        }),
    decreases fuel,
{
    let q = program(a);
    let p = program(b);
    match q {
        Request::End { .. } => {},
        _ => {
            assert(p == q);
            let e = run(c, program, world, a, fuel)->0;
            let (c1, x) = step(c, q, world, a.len());
            let (s1, y) = step(s, q, other, a.len());
            law_run_only_appends(c1, program, world, a.push(x), (fuel - 1) as nat);
            lemma_extends_trans(
                c1.journal.entries,
                e.ctx.journal.entries,
                s.journal.entries,
            );
            lemma_step_tracks(c, s, q, world, other, a.len(), later);
            assert(alike(a.push(x), b.push(y))) by {
                assert forall|i: int| 0 <= i < a.push(x).len() implies #[trigger] a.push(x)[i]
                    == b.push(y)[i] || (a.push(x)[i] is Fault && b.push(y)[i] is Fault) by {
                    if i < a.len() {
                        assert(a.push(x)[i] == a[i]);
                    }
                }
            }
            lemma_run_tracks(
                c1,
                s1,
                program,
                world,
                other,
                a.push(x),
                b.push(y),
                (fuel - 1) as nat,
                later,
            );
        },
    }
}

/// Can this event be the first that a step appends?
spec fn is_first(e: EventView) -> bool {
    e !is EffectCommit && e !is EffectCompensated
}

/// Would the event answer the request, or begin to?
spec fn serves(e: EventView, request: Request) -> bool {
    match request {
        Request::Oracle { prompt } => e matches EventView::OracleDraw { prompt: p, .. } && p
            == prompt,
        Request::Effect { name, arg } => e == (EventView::EffectIntent { name, arg }),
        Request::Recv { channel } => e matches EventView::ChannelRecv { channel: c, .. } && c
            == channel,
        Request::Now => e is Clock,
        Request::Marker { name, hash } => e == (EventView::Program { name, hash }),
        Request::End { .. } => false,
    }
}

/// The first entry that a step appends.
proof fn lemma_first_entry(c: CtxView, request: Request, world: World, n: nat)
    ensures
        ({
            let c1 = step(c, request, world, n).0;
            let m = c.journal.entries.len() as int;
            c1.journal.entries.len() > m ==> is_first(c1.journal.entries[m].event) && serves(
                c1.journal.entries[m].event,
                request,
            )
        }),
{
    if let Request::Effect { name, arg } = request {
        lemma_walk_keeps_journal(c, name, arg);
    }
}

/// The next entry that a run appends is the first of a step.
proof fn lemma_next_is_first(
    c: CtxView,
    program: Program,
    world: World,
    answers: Seq<Answer>,
    fuel: nat,
)
    ensures
        run(c, program, world, answers, fuel) matches Some(e) ==> (e.ctx.journal.entries.len()
            > c.journal.entries.len() ==> is_first(
            e.ctx.journal.entries[c.journal.entries.len() as int].event,
        )),
    decreases fuel,
{
    let m = c.journal.entries.len() as int;
    match program(answers) {
        Request::End { .. } => {},
        request => {
            if fuel > 0 {
                let (c1, a) = step(c, request, world, answers.len());
                lemma_first_entry(c, request, world, answers.len());
                law_step_only_appends(c, request, world, answers.len());
                law_run_only_appends(c1, program, world, answers.push(a), (fuel - 1) as nat);
                if c1.journal.entries.len() > m {
                    if let Some(e) = run(c, program, world, answers, fuel) {
                        let n = c1.journal.entries.len() as int;
                        assert(e.ctx.journal.entries.take(n)[m] == e.ctx.journal.entries[m]);
                    }
                } else {
                    lemma_next_is_first(
                        c1,
                        program,
                        world,
                        answers.push(a),
                        (fuel - 1) as nat,
                    );
                }
            }
        },
    }
}

/// After a request that failed at the end of the journal, the next entry that
/// the run appends does not answer it.
proof fn lemma_next_does_not_serve(
    c: CtxView,
    program: Program,
    world: World,
    answers: Seq<Answer>,
    fuel: nat,
    i: int,
)
    requires
        never_repeats(program),
        c.pos == c.journal.entries.len(),
        0 <= i < answers.len(),
        forall|j: int| i <= j < answers.len() ==> (#[trigger] answers[j]) is Fault,
        program(answers.take(i)) !is End,
    ensures
        run(c, program, world, answers, fuel) matches Some(e) ==> (e.ctx.journal.entries.len()
            > c.journal.entries.len() ==> !serves(
            e.ctx.journal.entries[c.journal.entries.len() as int].event,
            program(answers.take(i)),
        )),
    decreases fuel,
{
    let m = c.journal.entries.len() as int;
    let failed = program(answers.take(i));
    match program(answers) {
        Request::End { .. } => {},
        request => {
            if fuel > 0 {
                let (c1, a) = step(c, request, world, answers.len());
                let more = answers.push(a);
                assert(request != failed);
                lemma_first_entry(c, request, world, answers.len());
                law_step_only_appends(c, request, world, answers.len());
                law_run_only_appends(c1, program, world, more, (fuel - 1) as nat);
                if c1.journal.entries.len() > m {
                    if let Some(e) = run(c, program, world, answers, fuel) {
                        let n = c1.journal.entries.len() as int;
                        assert(e.ctx.journal.entries.take(n)[m] == e.ctx.journal.entries[m]);
                        assert(serves(c1.journal.entries[m].event, request));
                    }
                } else {
                    assert(a is Fault);
                    assert(more.take(i) =~= answers.take(i));
                    assert forall|j: int| i <= j < more.len() implies (#[trigger] more[j]) is Fault by {
                        if j < answers.len() {
                            assert(more[j] == answers[j]);
                        }
                    }
                    if let Request::Effect { name, arg } = request {
                        lemma_walk_keeps_journal(c, name, arg);
                    }
                    lemma_next_does_not_serve(c1, program, world, more, (fuel - 1) as nat, i);
                }
            }
        },
    }
}

/// Does a run from `later` on read what the run `e` has recorded: strictly, or,
/// where the last request of `e` has not failed, behind it too?
spec fn read_by(e: Ended, later: CtxView) -> bool {
    ||| later.strict && e.ctx.journal == later.journal
    ||| extends(e.ctx.journal.entries, later.journal.entries) && e.answers.len() > 0
        && e.answers.last() !is Fault
}

proof fn lemma_read_by(e: Ended, later: CtxView)
    requires
        read_by(e, later),
    ensures
        extends(e.ctx.journal.entries, later.journal.entries),
{
    let all = e.ctx.journal.entries;
    assert(all.take(all.len() as int) =~= all);
}

/// A run that goes on after a failure at the end of the journal, and whose last
/// request does not fail, appends something.
proof fn lemma_goes_on(
    c: CtxView,
    program: Program,
    world: World,
    answers: Seq<Answer>,
    fuel: nat,
)
    requires
        c.pos == c.journal.entries.len(),
        answers.len() > 0,
        answers.last() is Fault,
        run(c, program, world, answers, fuel) matches Some(e) && e.answers.last() !is Fault,
    ensures
        run(c, program, world, answers, fuel)->0.ctx.journal.entries.len()
            > c.journal.entries.len(),
    decreases fuel,
{
    match program(answers) {
        Request::End { .. } => {},
        request => {
            let (c1, a) = step(c, request, world, answers.len());
            let more = answers.push(a);
            law_run_only_appends(c1, program, world, more, (fuel - 1) as nat);
            law_step_only_appends(c, request, world, answers.len());
            if c1.journal.entries.len() == c.journal.entries.len() {
                assert(a is Fault);
                if let Request::Effect { name, arg } = request {
                    lemma_walk_keeps_journal(c, name, arg);
                }
                lemma_goes_on(c1, program, world, more, (fuel - 1) as nat);
            }
        },
    }
}

/// A walk that fails, over a journal and over one that goes on behind it: the
/// first entry behind closes no intent.
proof fn lemma_failed_walk(c: CtxView, x: CtxView, name: Seq<char>, arg: Seq<u8>)
    requires
        extends(c.journal.entries, x.journal.entries),
        c.pos <= c.journal.entries.len(),
        x.pos == c.pos,
        c.effect_walk(name, arg).0.pos == c.journal.entries.len() && x.journal.entries.len()
            > c.journal.entries.len() ==> is_first(
            x.journal.entries[c.journal.entries.len() as int].event,
        ),
        c.effect_walk(name, arg).1 is Err,
        c.pos < c.journal.entries.len(),
        c.effect_walk(name, arg).0.pos == c.journal.entries.len() ==> !c.strict || (x.strict
            && c.journal.entries == x.journal.entries),
    ensures
        x.effect_walk(name, arg).1 is Err,
        x.effect_walk(name, arg).0.pos == c.effect_walk(name, arg).0.pos,
    decreases c.journal.entries.len() - c.pos,
{
    let e = x.journal.entries;
    let m = c.journal.entries.len() as int;
    assert forall|i: int| 0 <= i < m implies c.journal.entries[i] == #[trigger] e[i] by {
        assert(e.take(m)[i] == e[i]);
    }
    assert(x.next_event() == c.next_event());
    if let Some(EventView::EffectIntent { name: n, arg: a }) = c.next_event() {
        if n == name && a == arg {
            let c1 = c.advanced();
            let x1 = x.advanced();
            if c1.pos < m {
                assert(x1.next_event() == c1.next_event());
                if let Some(EventView::EffectCompensated { name: k }) = c1.next_event() {
                    if k == name {
                        if c1.advanced().pos < m {
                            lemma_failed_walk(c1.advanced(), x1.advanced(), name, arg);
                        }
                    }
                }
            }
        }
    }
}

/// Every step of a run is on record, if the agent never repeats a request that
/// failed before another one has succeeded.
proof fn lemma_on_record(
    c: CtxView,
    program: Program,
    world: World,
    answers: Seq<Answer>,
    fuel: nat,
    later: CtxView,
    other: World,
)
    requires
        never_repeats(program),
        c.pos <= c.journal.entries.len(),
        c.pos == c.journal.entries.len() || (c.budget is None && c.caps is None),
        later.budget is None,
        later.caps is None,
        run(c, program, world, answers, fuel) matches Some(e) && read_by(e, later),
    ensures
        run_on_record(c, program, world, answers, fuel, later, other),
    decreases fuel,
{
    match program(answers) {
        Request::End { .. } => {},
        request => {
            let n = answers.len();
            let (c1, a) = step(c, request, world, n);
            let more = answers.push(a);
            let rest = (fuel - 1) as nat;
            law_step_only_appends(c, request, world, n);
            law_run_only_appends(c1, program, world, more, rest);
            if let Request::Effect { name, arg } = request {
                lemma_walk_keeps_journal(c, name, arg);
                lemma_walk_reaches(c, name, arg);
            }
            if a is Fault {
                lemma_failed_step(c, program, world, answers, fuel, later, other);
            }
            lemma_on_record(c1, program, world, more, rest, later, other);
        },
    }
}

/// A walk that finds nothing has reached the end of the journal.
proof fn lemma_walk_reaches(c: CtxView, name: Seq<char>, arg: Seq<u8>)
    requires
        c.pos <= c.journal.entries.len(),
    ensures
        c.effect_walk(name, arg).1 == Ok::<Option<Seq<u8>>, FaultView>(None) ==> c.effect_walk(
            name,
            arg,
        ).0.pos == c.journal.entries.len(),
    decreases c.journal.entries.len() - c.pos,
{
    if let Some(EventView::EffectIntent { name: n, arg: a }) = c.next_event() {
        if n == name && a == arg {
            let c1 = c.advanced();
            if let Some(EventView::EffectCompensated { name: m }) = c1.next_event() {
                if m == name {
                    lemma_walk_reaches(c1.advanced(), name, arg);
                }
            }
        }
    }
}

/// The walk of an effect whose performing failed, over the journal that the run
/// has come to: it finds the intent, and behind it nothing that closes it.
proof fn lemma_unperformed_walk(c: CtxView, x: CtxView, name: Seq<char>, arg: Seq<u8>)
    requires
        c.pos <= c.journal.entries.len(),
        extends(c.journal.entries, x.journal.entries),
        x.pos == c.pos,
        ({
            let m = c.journal.entries.len() as int;
            let e = x.journal.entries;
            &&& e.len() > m
            &&& e[m].event == (EventView::EffectIntent { name, arg })
            &&& e.len() > m + 1 ==> is_first(e[m + 1].event)
        }),
        c.effect_walk(name, arg).1 == Ok::<Option<Seq<u8>>, FaultView>(None),
    ensures
        x.effect_walk(name, arg).1 is Err,
        x.effect_walk(name, arg).0.pos == c.journal.entries.len() + 1,
    decreases c.journal.entries.len() - c.pos,
{
    let e = x.journal.entries;
    let m = c.journal.entries.len() as int;
    assert forall|i: int| 0 <= i < m implies c.journal.entries[i] == #[trigger] e[i] by {
        assert(e.take(m)[i] == e[i]);
    }
    if c.pos < m {
        assert(x.next_event() == c.next_event());
        let c1 = c.advanced();
        let x1 = x.advanced();
        assert(c1.pos < m);
        assert(x1.next_event() == c1.next_event());
        lemma_unperformed_walk(c1.advanced(), x1.advanced(), name, arg);
    } else {
        assert(x.next_event() == Some(EventView::EffectIntent { name, arg }));
    }
}

#[verifier::rlimit(40)]
proof fn lemma_failed_step(
    c: CtxView,
    program: Program,
    world: World,
    answers: Seq<Answer>,
    fuel: nat,
    later: CtxView,
    other: World,
)
    requires
        never_repeats(program),
        c.pos <= c.journal.entries.len(),
        c.pos == c.journal.entries.len() || (c.budget is None && c.caps is None),
        later.budget is None,
        later.caps is None,
        run(c, program, world, answers, fuel) matches Some(e) && read_by(e, later),
        program(answers) !is End,
        fuel > 0,
        step(c, program(answers), world, answers.len()).1 is Fault,
    ensures
        on_record(c, program(answers), world, answers.len(), later, other),
{
    let request = program(answers);
    let n = answers.len();
    let (c1, a) = step(c, request, world, n);
    let more = answers.push(a);
    let rest = (fuel - 1) as nat;
    let x = CtxView { pos: c.pos, ..later };
    let e = later.journal.entries;
    let m = c.journal.entries.len() as int;
    assert(run(c, program, world, answers, fuel) == run(c1, program, world, more, rest));
    law_step_only_appends(c, request, world, n);
    law_run_only_appends(c1, program, world, more, rest);
    let end = run(c, program, world, answers, fuel)->0.ctx.journal.entries;
    lemma_read_by(run(c, program, world, answers, fuel)->0, later);
    lemma_extends_trans(c1.journal.entries, end, e);
    lemma_extends_trans(c.journal.entries, c1.journal.entries, e);
    assert forall|i: int| 0 <= i < m implies c.journal.entries[i] == #[trigger] e[i] by {
        assert(e.take(m)[i] == e[i]);
    }
    lemma_next_is_first(c, program, world, answers, fuel);
    lemma_next_is_first(c1, program, world, more, rest);
    assert forall|i: int| 0 <= i < end.len() implies end[i] == #[trigger] e[i] by {
        assert(e.take(end.len() as int)[i] == e[i]);
    }
    assert(more.take(answers.len() as int) =~= answers);
    assert(more.last() == a);
    lemma_fault_step(c, request, world, n);
    if c1.pos == c1.journal.entries.len() && !(later.strict && end == e) {
        lemma_goes_on(c1, program, world, more, rest);
        if c.strict {
            law_strict_run_keeps_journal(c, program, world, answers, fuel);
        }
    }
    match request {
        Request::Effect { name, arg } => {
            lemma_walk_keeps_journal(c, name, arg);
            lemma_walk_keeps_journal(x, name, arg);
            if !c.allows(name) {
                lemma_next_does_not_serve(c1, program, world, more, rest, answers.len() as int);
            } else {
                let (w, found) = c.effect_walk(name, arg);
                if found is Ok {
                    // The effect was begun, and performing it failed.
                    assert(found == Ok::<Option<Seq<u8>>, FaultView>(None));
                    assert(end.take(c1.journal.entries.len() as int)[m] == end[m]);
                    lemma_walk_reaches(c, name, arg);
                    lemma_unperformed_walk(c, x, name, arg);
                } else if c.pos == m {
                    lemma_next_does_not_serve(c1, program, world, more, rest, answers.len() as int);
                } else {
                    if c.strict {
                        law_strict_run_keeps_journal(c, program, world, answers, fuel);
                    }
                    lemma_failed_walk(c, x, name, arg);
                }
            }
        },
        _ => {
            if c.pos == m {
                lemma_next_does_not_serve(c1, program, world, more, rest, answers.len() as int);
            } else {
                assert(x.next_event() == c.next_event());
            }
        },
    }
}

/// Replaying a journal over which all steps of a run are on record reproduces
/// that run, whatever the world would say now: the same trace, and the same
/// answers and result, but for which fault a fault is.
pub proof fn law_replay_on_record(
    journal: JournalView,
    inbox: Map<Seq<char>, Seq<Seq<u8>>>,
    strict: bool,
    budget: Option<u64>,
    caps: Option<Set<Seq<char>>>,
    program: Program,
    world: World,
    fuel: nat,
    later: JournalView,
    later_inbox: Map<Seq<char>, Seq<Seq<u8>>>,
    later_strict: bool,
    later_world: World,
)
    requires
        fault_blind(program),
        run(
            CtxView::start(journal, inbox, strict, budget, caps),
            program,
            world,
            Seq::empty(),
            fuel,
        ) matches Some(e) && extends(e.ctx.journal.entries, later.entries),
        run_on_record(
            CtxView::start(journal, inbox, strict, budget, caps),
            program,
            world,
            Seq::empty(),
            fuel,
            CtxView::start(later, later_inbox, later_strict, None, None),
            later_world,
        ),
    ensures
        ({
            let e = run(
                CtxView::start(journal, inbox, strict, budget, caps),
                program,
                world,
                Seq::empty(),
                fuel,
            )->0;
            let again = CtxView::start(later, later_inbox, later_strict, None, None);
            run(again, program, later_world, Seq::empty(), fuel) matches Some(r) && ({
                &&& trace_of(r) == trace_of(e)
                &&& alike(e.answers, r.answers)
                &&& same_result(e.result, r.result)
                &&& r.ctx.journal == later
                &&& r.ctx.inbox == later_inbox
                &&& r.ctx.fresh == 0
            })
        }),
{
    let c = CtxView::start(journal, inbox, strict, budget, caps);
    let e = run(c, program, world, Seq::empty(), fuel)->0;
    let s = CtxView::start(later, later_inbox, later_strict, None, None);
    law_run_only_appends(c, program, world, Seq::empty(), fuel);
    lemma_extends_trans(journal.entries, e.ctx.journal.entries, later.entries);
    lemma_run_tracks(
        c,
        s,
        program,
        world,
        later_world,
        Seq::empty(),
        Seq::empty(),
        fuel,
        s,
    );
}

/// **Replay soundness.** Replaying the journal of a run reproduces the run's
/// trace exactly, and its answers and result but for which fault a fault is,
/// whatever the world would say now: the model is never consulted, no step is
/// recorded fresh, and the journal and the inbox stay as they are.
///
/// The run may have been recorded from nothing, under any limits, or resumed
/// from any journal, under none. Its model, its effects and its receives may
/// have failed: the agent may go on after a fault, as long as it does not look
/// at which fault it was and does not repeat the request that failed before
/// another one has succeeded. (The journal does not tell a draw that succeeded
/// from one that did so on a second try.)
pub proof fn law_replay_is_exact(
    journal: JournalView,
    inbox: Map<Seq<char>, Seq<Seq<u8>>>,
    strict: bool,
    budget: Option<u64>,
    caps: Option<Set<Seq<char>>>,
    program: Program,
    world: World,
    fuel: nat,
    later_inbox: Map<Seq<char>, Seq<Seq<u8>>>,
    later_world: World,
)
    requires
        fault_blind(program),
        never_repeats(program),
        journal.entries.len() == 0 || (budget is None && caps is None),
        run(
            CtxView::start(journal, inbox, strict, budget, caps),
            program,
            world,
            Seq::empty(),
            fuel,
        ) is Some,
    ensures
        ({
            let e = run(
                CtxView::start(journal, inbox, strict, budget, caps),
                program,
                world,
                Seq::empty(),
                fuel,
            )->0;
            let replay = CtxView::start(e.ctx.journal, later_inbox, true, None, None);
            run(replay, program, later_world, Seq::empty(), fuel) matches Some(r) && ({
                &&& trace_of(r) == trace_of(e)
                &&& alike(e.answers, r.answers)
                &&& same_result(e.result, r.result)
                &&& r.ctx.journal == e.ctx.journal
                &&& r.ctx.inbox == later_inbox
                &&& r.ctx.fresh == 0
            })
        }),
{
    let c = CtxView::start(journal, inbox, strict, budget, caps);
    let e = run(c, program, world, Seq::empty(), fuel)->0;
    let s = CtxView::start(e.ctx.journal, later_inbox, true, None, None);
    assert(s.journal.entries.take(s.journal.entries.len() as int) =~= s.journal.entries);
    lemma_on_record(c, program, world, Seq::empty(), fuel, s, later_world);
    law_replay_on_record(
        journal,
        inbox,
        strict,
        budget,
        caps,
        program,
        world,
        fuel,
        e.ctx.journal,
        later_inbox,
        true,
        later_world,
    );
}

/// A run in which nothing failed replays with every answer the same.
pub proof fn law_faultless_run_replays_every_answer(a: Seq<Answer>, b: Seq<Answer>)
    requires
        alike(a, b),
        forall|i: int| 0 <= i < a.len() ==> (#[trigger] a[i]) !is Fault,
    ensures
        a == b,
{
    assert(a =~= b);
}

/// Resuming a run that has finished just returns what it has come to: the same
/// trace, answers and result, with nothing recorded and the model and the world
/// not consulted. `later` is the run's journal, with whatever recovery may have
/// appended to it. As in `law_replay_is_exact`, the agent may go on after a
/// fault; its last request has not failed (the journal does not tell a run that
/// ended after a failure from one that crashed then).
pub proof fn law_finished_run_resumes_to_itself(
    journal: JournalView,
    inbox: Map<Seq<char>, Seq<Seq<u8>>>,
    strict: bool,
    budget: Option<u64>,
    caps: Option<Set<Seq<char>>>,
    program: Program,
    world: World,
    fuel: nat,
    later: JournalView,
    later_inbox: Map<Seq<char>, Seq<Seq<u8>>>,
    later_world: World,
)
    requires
        fault_blind(program),
        never_repeats(program),
        journal.entries.len() == 0 || (budget is None && caps is None),
        run(
            CtxView::start(journal, inbox, strict, budget, caps),
            program,
            world,
            Seq::empty(),
            fuel,
        ) matches Some(e) && extends(e.ctx.journal.entries, later.entries) && (e.answers.len() > 0
            ==> e.answers.last() !is Fault),
    ensures
        ({
            let e = run(
                CtxView::start(journal, inbox, strict, budget, caps),
                program,
                world,
                Seq::empty(),
                fuel,
            )->0;
            let resumed = CtxView::start(later, later_inbox, false, None, None);
            run(resumed, program, later_world, Seq::empty(), fuel) matches Some(r) && ({
                &&& trace_of(r) == trace_of(e)
                &&& alike(e.answers, r.answers)
                &&& same_result(e.result, r.result)
                &&& r.ctx.journal == later
                &&& r.ctx.inbox == later_inbox
                &&& r.ctx.fresh == 0
            })
        }),
{
    let c = CtxView::start(journal, inbox, strict, budget, caps);
    let s = CtxView::start(later, later_inbox, false, None, None);
    let e = run(c, program, world, Seq::empty(), fuel)->0;
    if e.answers.len() > 0 {
        lemma_on_record(c, program, world, Seq::empty(), fuel, s, later_world);
    } else {
        match program(Seq::empty()) {
            Request::End { .. } => {},
            request => {
                let (c1, a) = step(c, request, world, 0);
                law_run_only_appends(
                    c1,
                    program,
                    world,
                    Seq::empty().push(a),
                    (fuel - 1) as nat,
                );
            },
        }
    }
    law_replay_on_record(
        journal,
        inbox,
        strict,
        budget,
        caps,
        program,
        world,
        fuel,
        later,
        later_inbox,
        false,
        later_world,
    );
}

/// A walk that is refused has consumed the intent before the event it was
/// refused for, if there is one, and stands before that event.
proof fn lemma_walk_refused(c: CtxView, name: Seq<char>, arg: Seq<u8>)
    requires
        walk_refused(c, name, arg),
    ensures
        c.effect_walk(name, arg).1 is Err,
        c.effect_walk(name, arg).0.pos >= c.pos,
        c.next_event() == Some(EventView::EffectIntent { name, arg }) ==> c.effect_walk(
            name,
            arg,
        ).0.pos >= c.pos + 1,
    decreases c.journal.entries.len() - c.pos,
{
    if let Some(EventView::EffectIntent { name: n, arg: a }) = c.next_event() {
        if n == name && a == arg {
            let c1 = c.advanced();
            if let Some(EventView::EffectCompensated { name: m }) = c1.next_event() {
                if m == name {
                    lemma_walk_refused(c1.advanced(), name, arg);
                }
            }
        }
    }
}

proof fn lemma_strict_step_needs_no_world(
    c: CtxView,
    request: Request,
    world: World,
    other: World,
    n: nat,
)
    requires
        c.strict,
    ensures
        step(c, request, other, n) == step(c, request, world, n),
{
    if let Request::Effect { name, arg } = request {
        lemma_strict_walk(c, name, arg);
    }
}

/// Strict replay does not depend on the world at all: whatever the model, the
/// effects and the clock would give, it comes to the same, faults included.
pub proof fn law_strict_run_needs_no_world(
    c: CtxView,
    program: Program,
    world: World,
    other: World,
    answers: Seq<Answer>,
    fuel: nat,
)
    requires
        c.strict,
    ensures
        run(c, program, other, answers, fuel) == run(c, program, world, answers, fuel),
    decreases fuel,
{
    match program(answers) {
        Request::End { .. } => {},
        request => {
            if fuel > 0 {
                let (c1, a) = step(c, request, world, answers.len());
                lemma_strict_step_needs_no_world(c, request, world, other, answers.len());
                lemma_strict_step(c, request, world, answers.len());
                law_strict_run_needs_no_world(
                    c1,
                    program,
                    world,
                    other,
                    answers.push(a),
                    (fuel - 1) as nat,
                );
            }
        },
    }
}

/// Replay is idempotent: replaying what was replayed gives the same again, and
/// leaves the journal as it was, faults included.
pub proof fn law_replay_is_idempotent(
    journal: JournalView,
    inbox: Map<Seq<char>, Seq<Seq<u8>>>,
    program: Program,
    world: World,
    later_world: World,
    fuel: nat,
)
    ensures
        ({
            let start = CtxView::start(journal, inbox, true, None, None);
            run(start, program, world, Seq::empty(), fuel) matches Some(e) ==> {
                &&& e.ctx.journal == journal
                &&& e.ctx.inbox == inbox
                &&& run(
                    CtxView::start(e.ctx.journal, e.ctx.inbox, true, None, None),
                    program,
                    later_world,
                    Seq::empty(),
                    fuel,
                ) == Some(e)
            }
        }),
{
    let start = CtxView::start(journal, inbox, true, None, None);
    law_strict_run_keeps_journal(start, program, world, Seq::empty(), fuel);
    law_strict_run_needs_no_world(start, program, world, later_world, Seq::empty(), fuel);
}

/// Strict replay records nothing, whatever the program asks and whatever the
/// world would say, faults included: the journal, the inbox and the count of
/// fresh draws stay as they are.
pub proof fn law_strict_run_keeps_journal(
    c: CtxView,
    program: Program,
    world: World,
    answers: Seq<Answer>,
    fuel: nat,
)
    requires
        c.strict,
    ensures
        run(c, program, world, answers, fuel) matches Some(e) ==> e.ctx.journal == c.journal
            && e.ctx.inbox == c.inbox && e.ctx.fresh == c.fresh,
    decreases fuel,
{
    match program(answers) {
        Request::End { .. } => {},
        request => {
            if fuel > 0 {
                let (c1, a) = step(c, request, world, answers.len());
                lemma_strict_step(c, request, world, answers.len());
                law_strict_run_keeps_journal(
                    c1,
                    program,
                    world,
                    answers.push(a),
                    (fuel - 1) as nat,
                );
            }
        },
    }
}

proof fn lemma_strict_step(c: CtxView, request: Request, world: World, n: nat)
    requires
        c.strict,
    ensures
        ({
            let c1 = step(c, request, world, n).0;
            c1.journal == c.journal && c1.inbox == c.inbox && c1.fresh == c.fresh && c1.strict
        }),
{
    if let Request::Effect { name, arg } = request {
        lemma_walk_keeps_journal(c, name, arg);
        lemma_strict_walk(c, name, arg);
    }
}

proof fn lemma_strict_walk(c: CtxView, name: Seq<char>, arg: Seq<u8>)
    requires
        c.strict,
    ensures
        c.effect_walk(name, arg).1 != Ok::<Option<Seq<u8>>, FaultView>(None),
    decreases c.journal.entries.len() - c.pos,
{
    if let Some(EventView::EffectIntent { name: n, arg: a }) = c.next_event() {
        if n == name && a == arg {
            let c1 = c.advanced();
            if let Some(EventView::EffectCompensated { name: m }) = c1.next_event() {
                if m == name {
                    lemma_strict_walk(c1.advanced(), name, arg);
                }
            }
        }
    }
}

/// Do `c` and `s`, which read journals that agree on their first `k` entries,
/// stand at the same place within them?
spec fn abreast(c: CtxView, s: CtxView, k: nat) -> bool {
    &&& k <= c.journal.entries.len()
    &&& k <= s.journal.entries.len()
    &&& c.journal.entries.take(k as int) == s.journal.entries.take(k as int)
    &&& c.pos <= k
    &&& s.pos == c.pos
    &&& s.trace == c.trace
    &&& s.budget is None
    &&& s.caps is None
    &&& c.budget is None
    &&& c.caps is None
    &&& c.strict
}

proof fn lemma_abreast_event(c: CtxView, s: CtxView, k: nat)
    requires
        abreast(c, s, k),
    ensures
        c.pos < k ==> s.next_event() == c.next_event() && c.next_event() is Some,
{
    if c.pos < k {
        assert(c.journal.entries.take(k as int)[c.pos as int] == c.journal.entries[c.pos as int]);
        assert(s.journal.entries.take(k as int)[c.pos as int] == s.journal.entries[c.pos as int]);
    }
}

proof fn lemma_abreast_walk(c: CtxView, s: CtxView, k: nat, name: Seq<char>, arg: Seq<u8>)
    requires
        abreast(c, s, k),
        c.effect_walk(name, arg).1 is Ok || (walk_refused(c, name, arg) && c.effect_walk(
            name,
            arg,
        ).0.pos < k),
        c.effect_walk(name, arg).0.pos <= k,
    ensures
        s.effect_walk(name, arg).1 == c.effect_walk(name, arg).1,
        abreast(c.effect_walk(name, arg).0, s.effect_walk(name, arg).0, k),
        s.effect_walk(name, arg).0.journal == s.journal,
        s.effect_walk(name, arg).0.fresh == s.fresh,
        s.effect_walk(name, arg).1 != Ok::<Option<Seq<u8>>, FaultView>(None),
    decreases c.journal.entries.len() - c.pos,
{
    lemma_walk_keeps_journal(c, name, arg);
    lemma_walk_keeps_journal(s, name, arg);
    lemma_strict_walk(c, name, arg);
    lemma_walk_moves(c, name, arg);
    if walk_refused(c, name, arg) {
        lemma_walk_refused(c, name, arg);
    }
    lemma_abreast_event(c, s, k);
    if let Some(EventView::EffectIntent { name: n, arg: a }) = c.next_event() {
        if n == name && a == arg {
            let c1 = c.advanced();
            let s1 = s.advanced();
            lemma_abreast_event(c1, s1, k);
            if let Some(EventView::EffectCompensated { name: m }) = c1.next_event() {
                if m == name {
                    lemma_walk_moves(c1.advanced(), name, arg);
                    if walk_refused(c, name, arg) {
                        lemma_walk_refused(c1.advanced(), name, arg);
                    }
                    lemma_abreast_walk(c1.advanced(), s1.advanced(), k, name, arg);
                }
            }
        }
    }
}

/// A walk that finds a result has consumed two entries at least.
proof fn lemma_walk_moves(c: CtxView, name: Seq<char>, arg: Seq<u8>)
    ensures
        c.effect_walk(name, arg).1 matches Ok(Some(v)) ==> c.effect_walk(name, arg).0.pos >= c.pos
            + 2,
    decreases c.journal.entries.len() - c.pos,
{
    if let Some(EventView::EffectIntent { name: n, arg: a }) = c.next_event() {
        if n == name && a == arg {
            let c1 = c.advanced();
            if let Some(EventView::EffectCompensated { name: m }) = c1.next_event() {
                if m == name {
                    lemma_walk_moves(c1.advanced(), name, arg);
                }
            }
        }
    }
}

proof fn lemma_abreast_step(
    c: CtxView,
    s: CtxView,
    k: nat,
    request: Request,
    world: World,
    other: World,
    n: nat,
)
    requires
        abreast(c, s, k),
        request !is End,
        seen_within(c, request, world, n, k),
        step(c, request, world, n).0.pos <= k,
    ensures
        step(s, request, other, n).1 == step(c, request, world, n).1,
        abreast(step(c, request, world, n).0, step(s, request, other, n).0, k),
        step(s, request, other, n).0.journal == s.journal,
        step(s, request, other, n).0.fresh == s.fresh,
{
    lemma_abreast_event(c, s, k);
    if let Request::Effect { name, arg } = request {
        lemma_strict_walk(c, name, arg);
        lemma_abreast_walk(c, s, k, name, arg);
    }
}

proof fn lemma_after_moves(c: CtxView, program: Program, world: World, n: nat)
    requires
        c.strict,
    ensures
        after(c, program, world, n).0.strict,
        after(c, program, world, n).0.pos <= after(c, program, world, n + 1).0.pos,
{
    lemma_after_strict(c, program, world, n);
    let (p, answers) = after(c, program, world, n);
    match program(answers) {
        Request::End { .. } => {},
        request => {
            if let Request::Effect { name, arg } = request {
                lemma_walk_forward(p, name, arg);
                lemma_strict_walk(p, name, arg);
            }
        },
    }
}

proof fn lemma_walk_forward(c: CtxView, name: Seq<char>, arg: Seq<u8>)
    ensures
        c.pos <= c.effect_walk(name, arg).0.pos,
    decreases c.journal.entries.len() - c.pos,
{
    if let Some(EventView::EffectIntent { name: n, arg: a }) = c.next_event() {
        if n == name && a == arg {
            let c1 = c.advanced();
            if let Some(EventView::EffectCompensated { name: m }) = c1.next_event() {
                if m == name {
                    lemma_walk_forward(c1.advanced(), name, arg);
                }
            }
        }
    }
}

proof fn lemma_after_strict(c: CtxView, program: Program, world: World, n: nat)
    requires
        c.strict,
    ensures
        after(c, program, world, n).0.strict,
    decreases n,
{
    if n > 0 {
        lemma_after_strict(c, program, world, (n - 1) as nat);
        let (p, answers) = after(c, program, world, (n - 1) as nat);
        lemma_strict_step(p, program(answers), world, answers.len());
    }
}

/// **Exact resumption.** Let `full` be the journal of a recorded run and let
/// `survived` agree with it on the first `k` entries (the crash kept these; a
/// recovery may have appended others). Then a resumed run does, for as long as
/// the recorded run stayed within those `k` entries, exactly what the recorded
/// run did: same answers, same trace, nothing recorded, the model not
/// consulted.
pub proof fn law_resume_never_resamples(
    full: JournalView,
    survived: JournalView,
    inbox: Map<Seq<char>, Seq<Seq<u8>>>,
    program: Program,
    world: World,
    later_world: World,
    k: nat,
    n: nat,
)
    requires
        k <= full.entries.len(),
        k <= survived.entries.len(),
        full.entries.take(k as int) == survived.entries.take(k as int),
        ({
            let (c, answers) = after(
                CtxView::start(full, inbox, true, None, None),
                program,
                world,
                n,
            );
            c.pos <= k
        }),
        steps_seen_within(CtxView::start(full, inbox, true, None, None), program, world, n, k),
    ensures
        ({
            let (c, answers) = after(
                CtxView::start(full, inbox, true, None, None),
                program,
                world,
                n,
            );
            let (s, same) = after(
                CtxView::start(survived, inbox, false, None, None),
                program,
                later_world,
                n,
            );
            &&& same == answers
            &&& s.trace == c.trace
            &&& s.pos == c.pos
            &&& s.journal == survived
            &&& s.fresh == 0
        }),
    decreases n,
{
    let c0 = CtxView::start(full, inbox, true, None, None);
    let s0 = CtxView::start(survived, inbox, false, None, None);
    lemma_resume(c0, s0, program, world, later_world, k, n);
}

proof fn lemma_resume(
    c0: CtxView,
    s0: CtxView,
    program: Program,
    world: World,
    other: World,
    k: nat,
    n: nat,
)
    requires
        abreast(c0, s0, k),
        after(c0, program, world, n).0.pos <= k,
        steps_seen_within(c0, program, world, n, k),
    ensures
        ({
            let (c, answers) = after(c0, program, world, n);
            let (s, same) = after(s0, program, other, n);
            &&& same == answers
            &&& abreast(c, s, k)
            &&& s.journal == s0.journal
            &&& s.fresh == s0.fresh
        }),
    decreases n,
{
    if n > 0 {
        let m = (n - 1) as nat;
        let (p, answers) = after(c0, program, world, m);
        let (c, all) = after(c0, program, world, n);
        lemma_after_moves(c0, program, world, m);
        lemma_resume(c0, s0, program, world, other, k, m);
        let (q, same) = after(s0, program, other, m);
        match program(answers) {
            Request::End { .. } => {},
            request => {
                let a = step(p, request, world, answers.len()).1;
                assert(all[answers.len() as int] == a);
                lemma_abreast_step(p, q, k, request, world, other, answers.len());
            },
        }
    }
}

/// A budget bounds a run: with a budget of `b` draws, no more than `b` are
/// recorded, whatever the program asks.
pub proof fn law_budget_bounds_draws(
    c: CtxView,
    program: Program,
    world: World,
    answers: Seq<Answer>,
    fuel: nat,
)
    requires
        c.budget is Some,
    ensures
        run(c, program, world, answers, fuel) matches Some(e) ==> e.ctx.budget is Some
            && e.ctx.fresh + e.ctx.budget->0 <= c.fresh + c.budget->0,
    decreases fuel,
{
    match program(answers) {
        Request::End { .. } => {},
        request => {
            if fuel > 0 {
                let (c1, a) = step(c, request, world, answers.len());
                if let Request::Effect { name, arg } = request {
                    lemma_walk_keeps_journal(c, name, arg);
                }
                law_budget_bounds_draws(c1, program, world, answers.push(a), (fuel - 1) as nat);
            }
        },
    }
}

/// An exhausted budget refuses the draw before the journal or the model is
/// consulted.
pub proof fn law_exhausted_budget_refuses(c: CtxView, prompt: Seq<u8>, world: World, n: nat)
    requires
        c.budget == Some(0u64),
    ensures
        step(c, Request::Oracle { prompt }, world, n) == (
            c,
            Answer::Fault(FaultView::BudgetExhausted),
        ),
{
}

/// An effect without a capability changes nothing: not even its intent is
/// journaled.
pub proof fn law_denied_effect_changes_nothing(
    c: CtxView,
    name: Seq<char>,
    arg: Seq<u8>,
    world: World,
    n: nat,
)
    requires
        !c.allows(name),
    ensures
        step(c, Request::Effect { name, arg }, world, n) == (
            c,
            Answer::Fault(FaultView::CapabilityDenied(name)),
        ),
{
}

/// A program whose source changed is refused at the first cursor, before any
/// step can misreplay: nothing is traced and nothing is recorded.
pub proof fn law_changed_program_is_refused(
    journal: JournalView,
    inbox: Map<Seq<char>, Seq<Seq<u8>>>,
    strict: bool,
    name: Seq<char>,
    recorded: Seq<char>,
    hash: Seq<char>,
    world: World,
)
    requires
        journal.entries.len() > 0,
        journal.entries[0].event == (EventView::Program { name, hash: recorded }),
        recorded != hash,
    ensures
        ({
            let c = CtxView::start(journal, inbox, strict, None, None);
            let (c1, a) = step(c, Request::Marker { name, hash }, world, 0);
            &&& a matches Answer::Fault(FaultView::JournalDesync { cursor, .. }) && cursor == 0
            &&& c1.trace.len() == 0
            &&& c1.journal == journal
            &&& c1.fresh == 0
        }),
{
}

/// A dangling intent at the end of the journal is never passed over in
/// silence: the effect that left it is answered by a desync.
pub proof fn law_dangling_intent_is_refused(
    c: CtxView,
    name: Seq<char>,
    arg: Seq<u8>,
    world: World,
    n: nat,
)
    requires
        c.pos + 1 == c.journal.entries.len(),
        c.next_event() == Some(EventView::EffectIntent { name, arg }),
        c.allows(name),
    ensures
        ({
            let (c1, a) = step(c, Request::Effect { name, arg }, world, n);
            &&& a matches Answer::Fault(FaultView::JournalDesync { cursor, .. }) && cursor
                == c.pos as u64
            &&& c1.journal == c.journal
        }),
{
}

/// An effect whose intent was closed by a compensation is performed afresh,
/// and its own pair is what replay finds from then on: the compensated pair is
/// passed over.
pub proof fn law_compensated_pair_is_passed_over(c: CtxView, name: Seq<char>, arg: Seq<u8>)
    requires
        c.pos + 1 < c.journal.entries.len(),
        c.next_event() == Some(EventView::EffectIntent { name, arg }),
        c.advanced().next_event() == Some(EventView::EffectCompensated { name }),
        c.allows(name),
    ensures
        c.effect_replay(name, arg) == c.advanced().advanced().effect_replay(name, arg),
{
}

} // verus!
