//! What recovery guarantees: no effect is ever silently orphaned.
use vstd::prelude::*;

use crate::ctx::CtxView;
use crate::event::EventView;
use crate::fault::FaultView;
use crate::journal;
use crate::journal::{EntryView, JournalView};
use crate::journal_laws;
use crate::replay_laws;
use crate::store;
use crate::store::RecoverView;

verus! {

/// How many pairs are called `name`.
pub open spec fn count<B>(open: Seq<(Seq<char>, B)>, name: Seq<char>) -> nat
    decreases open.len(),
{
    if open.len() == 0 {
        0
    } else {
        count(open.drop_last(), name) + if open.last().0 == name {
            1nat
        } else {
            0nat
        }
    }
}

/// Appending several events one by one appends them in order.
pub proof fn lemma_append_all_events(j: JournalView, more: Seq<EventView>)
    ensures
        j.append_all(more).events() == j.events() + more,
        j.append_all(more).key == j.key,
        j.append_all(more).durable == j.durable,
    decreases more.len(),
{
    if more.len() == 0 {
        assert(j.events() + more =~= j.events());
    } else {
        lemma_append_all_events(j, more.drop_last());
        assert(j.append_all(more).events() =~= j.append_all(more.drop_last()).events().push(
            more.last(),
        ));
        assert(j.events() + more =~= (j.events() + more.drop_last()).push(more.last()));
    }
}

/// Appending several events rewrites nothing: what recovery leaves begins with
/// what the crash left.
pub proof fn law_append_all_only_appends(j: JournalView, more: Seq<EventView>)
    ensures
        replay_laws::extends(j.entries, j.append_all(more).entries),
    decreases more.len(),
{
    let all = j.append_all(more).entries;
    if more.len() > 0 {
        law_append_all_only_appends(j, more.drop_last());
        let before = j.append_all(more.drop_last()).entries;
        assert(all.take(j.entries.len() as int) =~= before.take(j.entries.len() as int));
    } else {
        assert(all.take(j.entries.len() as int) =~= j.entries);
    }
}

/// A crash between the intent of an effect and its result is noticed: the
/// effect is dangling then, behind whatever else is.
pub proof fn law_begun_effect_is_dangling(c: CtxView, name: Seq<char>, arg: Seq<u8>)
    ensures
        journal::open_intents(c.effect_begin(name, arg).journal.events())
            == journal::open_intents(c.journal.events()).push(
            (name, c.journal.entries.len() as u64),
        ),
{
    let before = c.journal.events();
    let after = c.effect_begin(name, arg).journal.events();
    assert(after =~= before.push(EventView::EffectIntent { name, arg }));
    assert(after.drop_last() =~= before);
}

/// Write-ahead: once what a context hands over after beginning an effect has
/// reached storage, a crash cannot lose the intent. What is read back then is
/// the journal with the intent at its end, and nothing torn.
pub proof fn law_synced_intent_survives_a_crash(
    c: CtxView,
    name: Seq<char>,
    arg: Seq<u8>,
    disk: Seq<u8>,
)
    requires
        c.journal.durable,
        c.journal.intact(),
        journal_laws::stored(c.journal, disk),
        journal_laws::well_sized(c.effect_begin(name, arg).journal.entries),
    ensures
        ({
            let begun = c.effect_begin(name, arg).journal;
            journal::read_image(begun.key, disk + begun.unsynced) == Ok::<
                (Seq<EntryView>, nat),
                FaultView,
            >((begun.entries, 0)) && begun.entries.last().event == (EventView::EffectIntent {
                name,
                arg,
            })
        }),
{
    let e = EventView::EffectIntent { name, arg };
    let begun = c.journal.append(e);
    journal_laws::law_append_keeps_chain(c.journal, e);
    journal_laws::law_append_is_stored(c.journal, e, disk);
    let none = Seq::<u8>::empty();
    assert(journal::image(begun.entries) + none =~= journal::image(begun.entries));
    journal_laws::law_open_reads_back(begun.key, begun.entries, none);
}

/// An effect that was begun and committed leaves dangling what was before.
pub proof fn law_committed_effect_is_settled(
    c: CtxView,
    name: Seq<char>,
    arg: Seq<u8>,
    result: Seq<u8>,
)
    ensures
        journal::open_intents(
            c.effect_begin(name, arg).effect_commit(name, result).journal.events(),
        ) == journal::open_intents(c.journal.events()),
{
    law_begun_effect_is_dangling(c, name, arg);
    let begun = c.effect_begin(name, arg);
    let open = journal::open_intents(c.journal.events());
    let after = begun.effect_commit(name, result).journal.events();
    assert(after =~= begun.journal.events().push(EventView::EffectCommit { name, result }));
    assert(after.drop_last() =~= begun.journal.events());
    assert(open.push((name, c.journal.entries.len() as u64)).drop_last() =~= open);
}

/// Appending several events keeps an intact chain intact.
pub proof fn law_append_all_keeps_chain(j: JournalView, more: Seq<EventView>)
    requires
        j.intact(),
    ensures
        j.append_all(more).intact(),
    decreases more.len(),
{
    if more.len() > 0 {
        law_append_all_keeps_chain(j, more.drop_last());
        journal_laws::law_append_keeps_chain(j.append_all(more.drop_last()), more.last());
    }
}

/// Removing the last pair of a name lowers the count of that name alone.
pub proof fn lemma_count_without<B>(open: Seq<(Seq<char>, B)>, name: Seq<char>, other: Seq<char>)
    ensures
        count(journal::without_last(open, name), other) == if other == name && count(open, name)
            > 0 {
            (count(open, other) - 1) as nat
        } else {
            count(open, other)
        },
    decreases open.len(),
{
    if open.len() > 0 {
        let rest = open.drop_last();
        lemma_count_without(rest, name, other);
        lemma_count_without(rest, name, name);
        if open.last().0 != name {
            let w = journal::without_last(rest, name);
            assert(w.push(open.last()).drop_last() =~= w);
        }
    }
}

/// A pair of a name makes its count positive.
proof fn lemma_count_positive<B>(open: Seq<(Seq<char>, B)>)
    requires
        open.len() > 0,
    ensures
        count(open, open.last().0) > 0,
{
}

proof fn lemma_count_take<B>(open: Seq<(Seq<char>, B)>, i: int, name: Seq<char>)
    requires
        0 <= i < open.len(),
    ensures
        count(open.take(i + 1), name) == count(open.take(i), name) + (if open[i].0 == name {
            1nat
        } else {
            0nat
        }),
        count(open.take(i + 1), name) <= count(open, name),
    decreases open.len(),
{
    assert(open.take(i + 1).drop_last() =~= open.take(i));
    if i + 1 == open.len() {
        assert(open.take(i + 1) =~= open);
    } else {
        lemma_count_take(open.drop_last(), i, name);
        assert(open.drop_last().take(i + 1) =~= open.take(i + 1));
        assert(open.drop_last().take(i) =~= open.take(i));
    }
}

proof fn lemma_closing_prefix(
    events: Seq<EventView>,
    decisions: Seq<RecoverView>,
    i: int,
    name: Seq<char>,
)
    requires
        0 <= i <= journal::open_intents(events).len(),
    ensures
        ({
            let open = journal::open_intents(events);
            let done = store::closings(open, decisions).take(i);
            count(journal::open_intents(events + done), name) == count(open, name) - count(
                open.take(i),
                name,
            )
        }),
    decreases i,
{
    let open = journal::open_intents(events);
    let all = store::closings(open, decisions);
    if i == 0 {
        assert(events + all.take(0) =~= events);
        assert(open.take(0) =~= Seq::empty());
    } else {
        let p = i - 1;
        lemma_closing_prefix(events, decisions, p, name);
        lemma_closing_prefix(events, decisions, p, open[p].0);
        let before = events + all.take(p);
        let after = events + all.take(i);
        assert(after.drop_last() =~= before);
        assert(after.last() == all[p]);
        let mid = journal::open_intents(before);
        assert(journal::open_intents(after) == journal::without_last(mid, open[p].0));
        lemma_count_without(mid, open[p].0, name);
        lemma_count_take(open, p, name);
        lemma_count_take(open, p, open[p].0);
    }
}

/// **No orphaned effect.** Whatever is decided about the dangling intents of a
/// journal, once they have been closed none is left.
pub proof fn law_recovery_leaves_nothing_dangling(
    events: Seq<EventView>,
    decisions: Seq<RecoverView>,
)
    ensures
        journal::open_intents(
            events + store::closings(journal::open_intents(events), decisions),
        ).len() == 0,
{
    let open = journal::open_intents(events);
    let all = store::closings(open, decisions);
    let end = journal::open_intents(events + all);
    if end.len() > 0 {
        let name = end.last().0;
        lemma_count_positive(end);
        lemma_closing_prefix(events, decisions, open.len() as int, name);
        assert(all.take(open.len() as int) =~= all);
        assert(open.take(open.len() as int) =~= open);
    }
}

/// A run that is resumed with its dangling intents written off starts from a
/// journal without any, which begins with the journal that survived.
pub proof fn law_written_off_has_nothing_dangling(j: JournalView)
    ensures
        journal::open_intents(store::written_off(j).events()).len() == 0,
        store::written_off(j).events().take(j.events().len() as int) == j.events(),
{
    let open = journal::open_intents(j.events());
    let decisions = Seq::new(open.len(), |i: int| RecoverView::Compensate);
    lemma_append_all_events(j, store::closings(open, decisions));
    law_recovery_leaves_nothing_dangling(j.events(), decisions);
    assert(store::written_off(j).events().take(j.events().len() as int) =~= j.events());
}

/// Whatever prefix of a run survives a crash, the recovered journal begins with
/// it and has nothing dangling: a resumed run goes over it exactly as the
/// recorded run did (see `law_resume_never_resamples`).
pub proof fn law_recovered_crash_agrees_with_the_run(full: JournalView, k: nat)
    requires
        k <= full.entries.len(),
    ensures
        ({
            let recovered = store::written_off(full.truncated(k));
            &&& k <= recovered.entries.len()
            &&& recovered.entries.take(k as int) == full.entries.take(k as int)
            &&& journal::open_intents(recovered.events()).len() == 0
        }),
{
    let left = full.truncated(k);
    let open = journal::open_intents(left.events());
    let decisions = Seq::new(open.len(), |i: int| RecoverView::Compensate);
    assert(left.entries =~= full.entries.take(k as int));
    law_append_all_only_appends(left, store::closings(open, decisions));
    law_written_off_has_nothing_dangling(left);
}

/// How many intents of `name` the events hold.
pub open spec fn intents(events: Seq<EventView>, name: Seq<char>) -> nat
    decreases events.len(),
{
    if events.len() == 0 {
        0
    } else {
        intents(events.drop_last(), name) + if is_intent_of(events.last(), name) {
            1nat
        } else {
            0nat
        }
    }
}

/// How many closings of `name` the events hold: commits and compensations.
pub open spec fn closed(events: Seq<EventView>, name: Seq<char>) -> nat
    decreases events.len(),
{
    if events.len() == 0 {
        0
    } else {
        closed(events.drop_last(), name) + if is_closing_of(events.last(), name) {
            1nat
        } else {
            0nat
        }
    }
}

/// Is the event an intent of `name`?
pub open spec fn is_intent_of(e: EventView, name: Seq<char>) -> bool {
    e matches EventView::EffectIntent { name: n, .. } && n == name
}

/// Is the event a commit or a compensation of `name`?
pub open spec fn is_closing_of(e: EventView, name: Seq<char>) -> bool {
    match e {
        EventView::EffectCommit { name: n, .. } => n == name,
        EventView::EffectCompensated { name: n } => n == name,
        _ => false,
    }
}

/// The events behind `c`, up to the one at `k`.
pub open spec fn behind(events: Seq<EventView>, c: int, k: int) -> Seq<EventView> {
    events.subrange(c + 1, k + 1)
}

/// Do the closings of `name` behind `c` never outnumber the intents of `name`
/// there, at any point?
pub open spec fn unmatched(events: Seq<EventView>, c: int, name: Seq<char>) -> bool {
    forall|k: int|
        c < k < events.len() ==> closed(#[trigger] behind(events, c, k), name) <= intents(
            behind(events, c, k),
            name,
        )
}

/// Is the pair at `i` an intent of its name that no closing has matched, and do
/// the pairs of its name behind it make up for what the closings leave?
spec fn tied(events: Seq<EventView>, open: Seq<(Seq<char>, u64)>, i: int) -> bool {
    let c = open[i].1 as int;
    let n = events.len() as int;
    &&& c < n
    &&& is_intent_of(events[c], open[i].0)
    &&& unmatched(events, c, open[i].0)
    &&& count(open.skip(i + 1), open[i].0) + closed(behind(events, c, n - 1), open[i].0)
        == intents(behind(events, c, n - 1), open[i].0)
}

/// How the open intents stand to the events: they are intents, in ascending
/// order, and behind each, the later open ones of its name make up for what the
/// closings leave of the intents.
spec fn balanced(events: Seq<EventView>) -> bool {
    let open = journal::open_intents(events);
    let n = events.len() as int;
    &&& forall|i: int, j: int| 0 <= i < j < open.len() ==> (#[trigger] open[i]).1 < (#[trigger] open[j]).1
    &&& forall|i: int|
        #![trigger open[i]]
        0 <= i < open.len() ==> tied(events, open, i)
    &&& forall|c: int, name: Seq<char>|
        0 <= c < n && is_intent_of(events[c], name) && #[trigger] unmatched(events, c, name)
            ==> exists|i: int| 0 <= i < open.len() && #[trigger] open[i] == (name, c as u64)
}

proof fn lemma_count_none<B>(open: Seq<(Seq<char>, B)>, name: Seq<char>)
    requires
        forall|i: int| 0 <= i < open.len() ==> (#[trigger] open[i]).0 != name,
    ensures
        count(open, name) == 0,
    decreases open.len(),
{
    if open.len() > 0 {
        assert(open[open.len() - 1].0 != name);
        assert forall|i: int| 0 <= i < open.drop_last().len() implies (
        #[trigger] open.drop_last()[i]).0 != name by {
            assert(open.drop_last()[i] == open[i]);
        }
        lemma_count_none(open.drop_last(), name);
    }
}

proof fn lemma_count_some<B>(open: Seq<(Seq<char>, B)>, name: Seq<char>, i: int)
    requires
        0 <= i < open.len(),
        open[i].0 == name,
    ensures
        count(open, name) >= 1,
    decreases open.len(),
{
    if i < open.len() - 1 {
        assert(open.drop_last()[i] == open[i]);
        lemma_count_some(open.drop_last(), name, i);
    }
}

/// The place of the last pair that is called `name`, if there is one.
proof fn last_named<B>(open: Seq<(Seq<char>, B)>, name: Seq<char>) -> (r: int)
    ensures
        -1 <= r < open.len(),
        r >= 0 ==> open[r].0 == name,
        forall|i: int| r < i < open.len() ==> (#[trigger] open[i]).0 != name,
    decreases open.len(),
{
    if open.len() == 0 {
        -1
    } else if open.last().0 == name {
        open.len() - 1
    } else {
        let r = last_named(open.drop_last(), name);
        assert forall|i: int| r < i < open.len() implies (#[trigger] open[i]).0 != name by {
            if i < open.len() - 1 {
                assert(open.drop_last()[i] == open[i]);
            }
        }
        r
    }
}

/// One more event, seen from an intent before it.
proof fn lemma_behind_push(events: Seq<EventView>, e: EventView, c: int, name: Seq<char>)
    requires
        0 <= c < events.len(),
    ensures
        ({
            let all = events.push(e);
            let n = events.len() as int;
            &&& closed(behind(all, c, n), name) == closed(behind(events, c, n - 1), name) + (
            if is_closing_of(e, name) {
                1nat
            } else {
                0nat
            })
            &&& intents(behind(all, c, n), name) == intents(behind(events, c, n - 1), name) + (
            if is_intent_of(e, name) {
                1nat
            } else {
                0nat
            })
            &&& unmatched(all, c, name) <==> unmatched(events, c, name) && closed(
                behind(all, c, n),
                name,
            ) <= intents(behind(all, c, n), name)
        }),
{
    let all = events.push(e);
    let n = events.len() as int;
    assert(behind(all, c, n).drop_last() =~= behind(events, c, n - 1));
    assert(behind(all, c, n).last() == e);
    assert forall|k: int| c < k < n implies behind(all, c, k) == #[trigger] behind(events, c, k) by {
        assert(behind(all, c, k) =~= behind(events, c, k));
    }
    if unmatched(all, c, name) {
        assert forall|k: int| c < k < events.len() implies closed(
            #[trigger] behind(events, c, k),
            name,
        ) <= intents(behind(events, c, k), name) by {
            assert(behind(all, c, k) == behind(events, c, k));
        }
    }
    if unmatched(events, c, name) && closed(behind(all, c, n), name) <= intents(
        behind(all, c, n),
        name,
    ) {
        assert forall|k: int| c < k < all.len() implies closed(#[trigger] behind(all, c, k), name)
            <= intents(behind(all, c, k), name) by {
            if k < n {
                assert(behind(all, c, k) == behind(events, c, k));
            }
        }
    }
}

proof fn lemma_balanced(events: Seq<EventView>)
    requires
        events.len() <= u64::MAX,
    ensures
        balanced(events),
    decreases events.len(),
{
    if events.len() > 0 {
        let before = events.drop_last();
        let e = events.last();
        let m = before.len() as int;
        lemma_balanced(before);
        assert(before.push(e) =~= events);
        let old_open = journal::open_intents(before);
        let open = journal::open_intents(events);
        match e {
            EventView::EffectIntent { name, .. } => {
                lemma_balanced_intent(before, e, name);
            },
            EventView::EffectCommit { name, .. } => {
                lemma_balanced_closing(before, e, name);
            },
            EventView::EffectCompensated { name } => {
                lemma_balanced_closing(before, e, name);
            },
            _ => {
                assert forall|i: int|
                    #![trigger open[i]]
                    0 <= i < open.len() implies tied(events, open, i) by {
                    lemma_behind_push(before, e, open[i].1 as int, open[i].0);
                }
                assert forall|c: int, name: Seq<char>|
                    0 <= c < m + 1 && is_intent_of(events[c], name) && #[trigger] unmatched(
                        events,
                        c,
                        name,
                    ) implies exists|i: int|
                    0 <= i < open.len() && #[trigger] open[i] == (name, c as u64) by {
                    lemma_behind_push(before, e, c, name);
                    assert(unmatched(before, c, name));
                }
            },
        }
    }
}

proof fn lemma_balanced_intent(before: Seq<EventView>, e: EventView, name: Seq<char>)
    requires
        balanced(before),
        before.len() < u64::MAX,
        is_intent_of(e, name),
    ensures
        balanced(before.push(e)),
{
    let events = before.push(e);
    let m = before.len() as int;
    let old_open = journal::open_intents(before);
    let open = journal::open_intents(events);
    assert(events.drop_last() =~= before);
    assert(open == old_open.push((name, m as u64)));
    assert forall|i: int|
        #![trigger open[i]]
        0 <= i < open.len() implies tied(events, open, i) by {
        if i < old_open.len() {
            assert(open[i] == old_open[i]);
            lemma_behind_push(before, e, open[i].1 as int, open[i].0);
            assert(open.skip(i + 1).drop_last() =~= old_open.skip(i + 1));
            assert(open.skip(i + 1).last() == (name, m as u64));
        } else {
            assert(open.skip(i + 1) =~= Seq::empty());
            assert(behind(events, m, m) =~= Seq::empty());
        }
    }
    assert forall|c: int, n: Seq<char>|
        0 <= c < m + 1 && is_intent_of(events[c], n) && #[trigger] unmatched(
            events,
            c,
            n,
        ) implies exists|i: int| 0 <= i < open.len() && #[trigger] open[i] == (n, c as u64) by {
        if c < m {
            lemma_behind_push(before, e, c, n);
            assert(unmatched(before, c, n));
            let i = choose|i: int| 0 <= i < old_open.len() && #[trigger] old_open[i] == (
                n,
                c as u64,
            );
            assert(open[i] == (n, c as u64));
        } else {
            assert(open[old_open.len() as int] == (n, c as u64));
        }
    }
}

/// A pair that a closing leaves open.
proof fn lemma_still_tied(
    before: Seq<EventView>,
    e: EventView,
    name: Seq<char>,
    old_open: Seq<(Seq<char>, u64)>,
    open: Seq<(Seq<char>, u64)>,
    r: int,
    i: int,
)
    requires
        is_closing_of(e, name),
        -1 <= r < old_open.len(),
        r >= 0 ==> old_open[r].0 == name,
        forall|k: int| r < k < old_open.len() ==> (#[trigger] old_open[k]).0 != name,
        open == (if r < 0 {
            old_open
        } else {
            old_open.remove(r)
        }),
        0 <= i < open.len(),
        tied(before, old_open, if r < 0 || i < r {
            i
        } else {
            i + 1
        }),
    ensures
        tied(before.push(e), open, i),
{
    let events = before.push(e);
    let j = if r < 0 || i < r {
        i
    } else {
        i + 1
    };
    assert(open[i] == old_open[j]);
    let n = open[i].0;
    lemma_behind_push(before, e, open[i].1 as int, n);
    if r >= 0 && i < r {
        let tail = old_open.skip(j + 1);
        let at = r - j - 1;
        assert(tail[at] == old_open[r]);
        assert forall|k: int| at < k < tail.len() implies (#[trigger] tail[k]).0 != name by {
            assert(tail[k] == old_open[j + 1 + k]);
        }
        journal::lemma_without_last(tail, name, at);
        assert(open.skip(i + 1) =~= tail.remove(at));
        lemma_count_without(tail, name, n);
        lemma_count_some(tail, name, at);
    } else {
        assert(open.skip(i + 1) =~= old_open.skip(j + 1));
        assert(n != name);
    }
}

#[verifier::rlimit(40)]
proof fn lemma_balanced_closing(before: Seq<EventView>, e: EventView, name: Seq<char>)
    requires
        balanced(before),
        before.len() < u64::MAX,
        is_closing_of(e, name),
    ensures
        balanced(before.push(e)),
{
    let events = before.push(e);
    let m = before.len() as int;
    let old_open = journal::open_intents(before);
    let open = journal::open_intents(events);
    assert(events.drop_last() =~= before);
    assert(open == journal::without_last(old_open, name));
    let r = last_named(old_open, name);
    if r < 0 {
        journal::lemma_without_none(old_open, name);
        assert(open == old_open);
    } else {
        journal::lemma_without_last(old_open, name, r);
        assert(open == old_open.remove(r));
    }
    assert forall|i: int| #![trigger open[i]] 0 <= i < open.len() implies tied(
        events,
        open,
        i,
    ) by {
        let j = if r < 0 || i < r {
            i
        } else {
            i + 1
        };
        assert(tied(before, old_open, j)) by {
            assert(old_open[j] == open[i]);
        }
        lemma_still_tied(before, e, name, old_open, open, r, i);
    }
    assert forall|c: int, n: Seq<char>|
        0 <= c < m + 1 && is_intent_of(events[c], n) && #[trigger] unmatched(
            events,
            c,
            n,
        ) implies exists|i: int| 0 <= i < open.len() && #[trigger] open[i] == (n, c as u64) by {
        if c < m {
            lemma_behind_push(before, e, c, n);
            assert(unmatched(before, c, n));
            let i = choose|i: int| 0 <= i < old_open.len() && #[trigger] old_open[i] == (
                n,
                c as u64,
            );
            if r >= 0 && i == r {
                let tail = old_open.skip(r + 1);
                assert forall|k: int| 0 <= k < tail.len() implies (#[trigger] tail[k]).0 != name by {
                    assert(tail[k] == old_open[r + 1 + k]);
                }
                lemma_count_none(tail, name);
                assert(old_open[r].1 == c as u64);
            } else if r < 0 || i < r {
                assert(open[i] == (n, c as u64));
            } else {
                assert(open[i - 1] == (n, c as u64));
            }
        }
    }
    assert forall|i: int, j: int| 0 <= i < j < open.len() implies (#[trigger] open[i]).1 < (
    #[trigger] open[j]).1 by {
        let p = if r < 0 || i < r {
            i
        } else {
            i + 1
        };
        let q = if r < 0 || j < r {
            j
        } else {
            j + 1
        };
        assert(open[i] == old_open[p] && open[j] == old_open[q]);
    }
}

/// An intent dangles exactly if, behind it, the closings of its name never
/// outnumber the intents of its name, at any point: each closing is that of the
/// latest intent of its name that is open, and one with none open closes
/// nothing. The dangling intents are listed in the order of their cursors.
pub proof fn law_dangling_is_unmatched(events: Seq<EventView>, c: nat, name: Seq<char>)
    requires
        events.len() <= u64::MAX,
        c <= u64::MAX,
    ensures
        journal::open_intents(events).contains((name, c as u64)) <==> c < events.len()
            && is_intent_of(events[c as int], name) && unmatched(events, c as int, name),
        forall|i: int, j: int|
            0 <= i < j < journal::open_intents(events).len() ==> (
            #[trigger] journal::open_intents(events)[i]).1 < (
            #[trigger] journal::open_intents(events)[j]).1,
{
    lemma_balanced(events);
    let open = journal::open_intents(events);
    if open.contains((name, c as u64)) {
        let i = choose|i: int| 0 <= i < open.len() && open[i] == (name, c as u64);
        assert(open[i].1 as int == c);
    }
    if c < events.len() && is_intent_of(events[c as int], name) && unmatched(
        events,
        c as int,
        name,
    ) {
        let i = choose|i: int| 0 <= i < open.len() && #[trigger] open[i] == (name, c as u64);
        assert(open.contains((name, c as u64)));
    }
}

} // verus!
