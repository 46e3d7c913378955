//! `JournalStore`: where a runtime keeps its journals and channel inboxes.
//!
//! Journal loading and creation, keying, dangling-intent recovery, and
//! single-process channel delivery. A durable store is told what its storage
//! holds for a run when the run is first asked for; its journals hand over
//! what must be written.
use std::collections::VecDeque;

use vstd::prelude::*;

use crate::ctx;
use crate::ctx::Inbox;
use crate::event::{Event, EventView};
use crate::fault::{Fault, FaultView};
use crate::journal;
use crate::journal::{Journal, JournalView};
use crate::table::Table;
use crate::value::Value;

verus! {

/// How a dangling effect intent (a crash inside the write-ahead window) is
/// resolved on resume.
pub enum Recover {
    /// The effect is idempotent or known to have completed: close the intent
    /// with this committed result. Replay will reuse it without touching the
    /// world again.
    Commit(Value),
    /// Undo or write off the effect. The resumed run will perform it fresh.
    Compensate,
}

/// What a [`Recover`] says.
pub enum RecoverView {
    Commit(Seq<u8>),
    Compensate,
}

impl View for Recover {
    type V = RecoverView;

    open spec fn view(&self) -> RecoverView {
        match self {
            Recover::Commit(v) => RecoverView::Commit(v@),
            Recover::Compensate => RecoverView::Compensate,
        }
    }
}

/// The event that closes the intent of `name` as decided.
pub open spec fn closing(name: Seq<char>, decision: RecoverView) -> EventView {
    match decision {
        RecoverView::Commit(result) => EventView::EffectCommit { name, result },
        RecoverView::Compensate => EventView::EffectCompensated { name },
    }
}

/// The events that close the open intents as decided, in order.
pub open spec fn closings(open: Seq<(Seq<char>, u64)>, decisions: Seq<RecoverView>) -> Seq<
    EventView,
> {
    Seq::new(open.len(), |i: int| closing(open[i].0, decisions[i]))
}

/// The journal with every dangling intent closed by a compensation.
pub open spec fn written_off(j: JournalView) -> JournalView {
    let open = journal::open_intents(j.events());
    j.append_all(closings(open, Seq::new(open.len(), |i: int| RecoverView::Compensate)))
}

/// Writing off leaves a journal as durable as it was.
pub(crate) proof fn lemma_written_off(j: JournalView)
    ensures
        written_off(j).durable == j.durable,
{
    let open = journal::open_intents(j.events());
    journal::lemma_append_all_durable(
        j,
        closings(open, Seq::new(open.len(), |i: int| RecoverView::Compensate)),
    );
}

/// The decisions in a list.
pub open spec fn decision_views(decisions: Seq<Recover>) -> Seq<RecoverView> {
    decisions.map_values(|d: Recover| d@)
}

/// The argument of the intent at `cursor`.
pub open spec fn intent_arg(events: Seq<EventView>, cursor: u64) -> Seq<u8> {
    events[cursor as int]->EffectIntent_arg
}

/// Every open intent is an intent of its name, at its cursor.
proof fn lemma_open_are_intents(events: Seq<EventView>)
    requires
        events.len() <= u64::MAX,
    ensures
        forall|i: int|
            0 <= i < journal::open_intents(events).len() ==> is_intent(
                events,
                #[trigger] journal::open_intents(events)[i],
            ),
    decreases events.len(),
{
    if events.len() > 0 {
        let before = events.drop_last();
        lemma_open_are_intents(before);
        let open = journal::open_intents(before);
        let all = journal::open_intents(events);
        assert forall|i: int| 0 <= i < open.len() implies is_intent(
            events,
            #[trigger] open[i],
        ) by {
            assert(is_intent(before, open[i]));
        }
        match events.last() {
            EventView::EffectCommit { name, .. } => lemma_without_subset(events, open, name),
            EventView::EffectCompensated { name } => lemma_without_subset(events, open, name),
            _ => {},
        }
    }
}

/// Is `o` the name and the cursor of an intent?
spec fn is_intent(events: Seq<EventView>, o: (Seq<char>, u64)) -> bool {
    &&& o.1 < events.len()
    &&& events[o.1 as int] matches EventView::EffectIntent { name, .. } && name == o.0
}

proof fn lemma_without_subset(
    events: Seq<EventView>,
    open: Seq<(Seq<char>, u64)>,
    name: Seq<char>,
)
    requires
        forall|i: int| 0 <= i < open.len() ==> is_intent(events, #[trigger] open[i]),
    ensures
        forall|i: int|
            0 <= i < journal::without_last(open, name).len() ==> is_intent(
                events,
                #[trigger] journal::without_last(open, name)[i],
            ),
    decreases open.len(),
{
    if open.len() > 0 {
        let rest = open.drop_last();
        assert forall|i: int| 0 <= i < rest.len() implies is_intent(events, #[trigger] rest[i]) by {
            assert(rest[i] == open[i]);
        }
        lemma_without_subset(events, rest, name);
        let all = journal::without_last(open, name);
        let some = journal::without_last(rest, name);
        assert(is_intent(events, open[open.len() - 1]));
        assert forall|i: int| 0 <= i < all.len() implies is_intent(events, #[trigger] all[i]) by {
            if open.last().0 != name && i < some.len() {
                assert(all[i] == some[i]);
            }
        }
    }
}

/// The dangling intents of a journal: their names and arguments.
pub fn dangling(j: &Journal) -> (r: Vec<(String, Value)>)
    ensures
        ({
            let open = journal::open_intents(j@.events());
            &&& r@.len() == open.len()
            &&& forall|i: int|
                0 <= i < r@.len() ==> (#[trigger] r@[i]).0@ == open[i].0 && r@[i].1@ == intent_arg(
                    j@.events(),
                    open[i].1,
                )
        }),
{
    // Every cursor fits: the journal's length does.
    let len: u64 = j.len();
    let list = j.dangling_intents();
    let ghost events = j@.events();
    let ghost open = journal::open_intents(events);
    proof {
        lemma_open_are_intents(events);
    }
    let mut out: Vec<(String, Value)> = Vec::new();
    let mut i: usize = 0;
    while i < list.len()
        invariant
            i <= list@.len(),
            list@.len() == open.len(),
            out@.len() == i,
            events == j@.events(),
            events.len() <= u64::MAX,
            open == journal::open_intents(events),
            forall|k: int| 0 <= k < open.len() ==> is_intent(events, #[trigger] open[k]),
            forall|k: int|
                0 <= k < list@.len() ==> (#[trigger] list@[k]).1@ == open[k].0 && list@[k].0
                    == open[k].1,
            forall|k: int|
                0 <= k < i ==> (#[trigger] out@[k]).0@ == open[k].0 && out@[k].1@ == intent_arg(
                    events,
                    open[k].1,
                ),
        decreases list@.len() - i,
    {
        assert(is_intent(events, open[i as int]));
        assert(list@[i as int].0 == open[i as int].1);
        let name = list[i].1.clone();
        match j.get(list[i].0) {
            Some(e) => match &e.event {
                Event::EffectIntent { arg, .. } => {
                    assert(events[open[i as int].1 as int] == e.event@);
                    out.push((name, arg.clone()));
                },
                _ => {
                    assert(false);
                },
            },
            None => {
                assert(false);
            },
        }
        i += 1;
    }
    out
}

/// Closes every dangling intent of a journal as decided.
pub fn close_dangling(j: &mut Journal, decisions: Vec<Recover>)
    requires
        decisions@.len() == journal::open_intents(old(j)@.events()).len(),
    ensures
        final(j)@ == old(j)@.append_all(
            closings(journal::open_intents(old(j)@.events()), decision_views(decisions@)),
        ),
{
    let list = j.dangling_intents();
    let ghost start = j@;
    let ghost open = journal::open_intents(start.events());
    let ghost all = closings(open, decision_views(decisions@));
    let mut i: usize = 0;
    assert(all.take(0) =~= Seq::empty());
    while i < list.len()
        invariant
            i <= list@.len(),
            list@.len() == open.len(),
            decisions@.len() == open.len(),
            all == closings(open, decision_views(decisions@)),
            forall|k: int| 0 <= k < list@.len() ==> (#[trigger] list@[k]).1@ == open[k].0,
            j@ == start.append_all(all.take(i as int)),
        decreases list@.len() - i,
    {
        proof {
            assert(all.take(i + 1).drop_last() =~= all.take(i as int));
            assert(all.take(i + 1).last() == all[i as int]);
            assert(list@[i as int].1@ == open[i as int].0);
        }
        let name = list[i].1.clone();
        match &decisions[i] {
            Recover::Commit(v) => {
                let c = j.append(Event::EffectCommit { name, result: v.clone() });
            },
            Recover::Compensate => {
                let c = j.append(Event::EffectCompensated { name });
            },
        }
        i += 1;
    }
    assert(all.take(all.len() as int) =~= all);
}

/// Is `d` what the policy can decide about the intent of `name` with `arg`?
pub open spec fn decided<R: FnMut(&str, &Value) -> Recover>(
    policy: R,
    name: Seq<char>,
    arg: Seq<u8>,
    d: Recover,
) -> bool {
    exists|n: &str, a: &Value|
        n@ == name && a@ == arg && #[trigger] call_ensures(policy, (n, a), d)
}

/// Is one of the pairs `name` and `arg`?
pub open spec fn listed(pairs: Seq<(String, Value)>, name: Seq<char>, arg: Seq<u8>) -> bool {
    exists|i: int| 0 <= i < pairs.len() && (#[trigger] pairs[i]).0@ == name && pairs[i].1@ == arg
}

/// Is an intent of `name` with `arg` dangling?
pub open spec fn is_dangling(events: Seq<EventView>, name: Seq<char>, arg: Seq<u8>) -> bool {
    let open = journal::open_intents(events);
    exists|i: int|
        0 <= i < open.len() && (#[trigger] open[i]).0 == name && intent_arg(events, open[i].1)
            == arg
}

/// May the policy be asked about each intent that is dangling?
pub open spec fn may_decide<R: FnMut(&str, &Value) -> Recover>(
    policy: R,
    events: Seq<EventView>,
) -> bool {
    forall|name: &str, arg: &Value|
        is_dangling(events, name@, arg@) ==> #[trigger] call_requires(policy, (name, arg))
}

/// Asks `recovery` what to do about each dangling intent, in order.
pub fn decide<R: FnMut(&str, &Value) -> Recover>(
    recovery: R,
    dangling: &Vec<(String, Value)>,
) -> (r: Vec<Recover>)
    requires
        forall|name: &str, arg: &Value|
            listed(dangling@, name@, arg@) ==> #[trigger] call_requires(recovery, (name, arg)),
    ensures
        r@.len() == dangling@.len(),
        forall|i: int|
            0 <= i < r@.len() ==> decided(recovery, dangling@[i].0@,
                dangling@[i].1@,
                #[trigger] r@[i],
            ),
{
    let ghost policy = recovery;
    let mut recovery = recovery;
    let mut out: Vec<Recover> = Vec::new();
    let mut i: usize = 0;
    while i < dangling.len()
        invariant
            recovery == policy,
            i <= dangling@.len(),
            out@.len() == i,
            forall|name: &str, arg: &Value|
                listed(dangling@, name@, arg@) ==> #[trigger] call_requires(recovery, (name, arg)),
            forall|k: int|
                0 <= k < i ==> decided(policy, dangling@[k].0@,
                    dangling@[k].1@,
                    #[trigger] out@[k],
                ),
        decreases dangling@.len() - i,
    {
        let ghost before = out@;
        let name: &str = dangling[i].0.as_str();
        assert(listed(dangling@, dangling@[i as int].0@, dangling@[i as int].1@));
        let d = recovery(name, &dangling[i].1);
        assert(decided(policy, dangling@[i as int].0@, dangling@[i as int].1@, d));
        out.push(d);
        assert forall|k: int| 0 <= k < i + 1 implies decided(policy, dangling@[k].0@,
            dangling@[k].1@,
            #[trigger] out@[k],
        ) by {
            if k < i {
                assert(out@[k] == before[k]);
            }
        }
        i += 1;
    }
    out
}

/// What a [`JournalStore`] holds.
#[verifier::ext_equal]
pub struct StoreView {
    /// Are the journals kept on stable storage?
    pub durable: bool,
    pub key: Option<Seq<u8>>,
    /// Loaded journals by run id.
    pub journals: Map<Seq<char>, JournalView>,
    /// Channel inboxes by run id.
    pub inboxes: Map<Seq<char>, Map<Seq<char>, Seq<Seq<u8>>>>,
}

/// The fault for a run that has no journal.
pub open spec fn no_journal(run_id: Seq<char>) -> FaultView {
    FaultView::Io("no journal for run '"@ + run_id + "'"@)
}

impl StoreView {
    /// The empty store.
    pub open spec fn empty(durable: bool) -> StoreView {
        StoreView { durable, key: None, journals: Map::empty(), inboxes: Map::empty() }
    }

    /// The journal of `run_id`: the loaded one, or what `stored` says, or a
    /// new one if `create`.
    pub open spec fn load(self, run_id: Seq<char>, create: bool, stored: Option<Seq<u8>>) -> Result<
        JournalView,
        FaultView,
    > {
        if self.journals.dom().contains(run_id) {
            Ok(self.journals[run_id])
        } else if !self.durable {
            if create {
                Ok(JournalView::in_memory(self.key))
            } else {
                Err(no_journal(run_id))
            }
        } else {
            match stored {
                Some(bytes) => match journal::read_image(self.key, bytes) {
                    Ok((entries, torn)) => Ok(JournalView::opened(self.key, entries)),
                    Err(f) => Err(f),
                },
                None => if create {
                    Ok(JournalView::created(self.key))
                } else {
                    Err(no_journal(run_id))
                },
            }
        }
    }

    /// The store with the journal of `run_id` set to `j`.
    pub open spec fn with_journal(self, run_id: Seq<char>, j: JournalView) -> StoreView {
        StoreView { journals: self.journals.insert(run_id, j), ..self }
    }

    /// The inbox of `run_id`, empty if nothing was ever sent.
    pub open spec fn inbox(self, run_id: Seq<char>) -> Map<Seq<char>, Seq<Seq<u8>>> {
        if self.inboxes.dom().contains(run_id) {
            self.inboxes[run_id]
        } else {
            Map::empty()
        }
    }

    /// The store after an attempt that leaves `j` and `inbox` behind.
    pub open spec fn after_attempt(
        self,
        run_id: Seq<char>,
        j: JournalView,
        inbox: Map<Seq<char>, Seq<Seq<u8>>>,
    ) -> StoreView {
        StoreView {
            journals: self.journals.insert(run_id, j),
            inboxes: self.inboxes.insert(run_id, inbox),
            ..self
        }
    }

    /// The store after `value` was sent on a channel of `run_id`.
    pub open spec fn sent(self, run_id: Seq<char>, channel: Seq<char>, value: Seq<u8>) -> StoreView {
        let inbox = self.inbox(run_id);
        let queue = if inbox.dom().contains(channel) {
            inbox[channel]
        } else {
            Seq::empty()
        };
        StoreView {
            inboxes: self.inboxes.insert(run_id, inbox.insert(channel, queue.push(value))),
            ..self
        }
    }
}

/// A runtime's journals and inboxes.
pub struct JournalStore {
    durable: bool,
    key: Option<Vec<u8>>,
    /// Loaded journals by run id. In a durable store this is a cache over the
    /// journal files.
    journals: Table<Journal>,
    /// Per-run channel inboxes (single-process delivery; receives are
    /// journaled, so replay does not need the inbox).
    inboxes: Table<Inbox>,
}

spec fn journal_views(journals: Map<Seq<char>, Journal>) -> Map<Seq<char>, JournalView> {
    journals.map_values(|j: Journal| j@)
}

spec fn inbox_views(inboxes: Map<Seq<char>, Inbox>) -> Map<
    Seq<char>,
    Map<Seq<char>, Seq<Seq<u8>>>,
> {
    inboxes.map_values(|i: Inbox| ctx::inbox_view(i@))
}

impl View for JournalStore {
    type V = StoreView;

    closed spec fn view(&self) -> StoreView {
        StoreView {
            durable: self.durable,
            key: match self.key {
                Some(k) => Some(k@),
                None => None,
            },
            journals: journal_views(self.journals@),
            inboxes: inbox_views(self.inboxes@),
        }
    }
}

impl JournalStore {
    /// A store whose journals live in memory only.
    pub fn in_memory() -> (r: Self)
        ensures
            r@ == StoreView::empty(false),
    {
        let r = JournalStore {
            durable: false,
            key: None,
            journals: Table::new(),
            inboxes: Table::new(),
        };
        assert(r@ =~= StoreView::empty(false));
        r
    }

    /// A store whose journals are kept on stable storage, one file per run.
    pub fn durable() -> (r: Self)
        ensures
            r@ == StoreView::empty(true),
    {
        let r = JournalStore {
            durable: true,
            key: None,
            journals: Table::new(),
            inboxes: Table::new(),
        };
        assert(r@ =~= StoreView::empty(true));
        r
    }

    /// Keys the chains of the journals that are loaded from now on.
    pub fn set_key(&mut self, key: &[u8])
        ensures
            final(self)@ == (StoreView { key: Some(key@), ..old(self)@ }),
    {
        self.key = Some(vstd::slice::slice_to_vec(key));
    }

    /// Is the journal of `run_id` loaded?
    pub fn is_loaded(&self, run_id: &str) -> (r: bool)
        ensures
            r == self@.journals.dom().contains(run_id@),
    {
        self.journals.contains(run_id)
    }

    /// Ensures that the journal for `run_id` is loaded (creating it if
    /// `create`), and returns it. `stored` is what the storage of a durable
    /// store holds for the run.
    pub fn load(&mut self, run_id: &str, create: bool, stored: Option<&[u8]>) -> (r: Result<
        &mut Journal,
        Fault,
    >)
        ensures
            ({
                let bytes = match stored {
                    Some(b) => Some(b@),
                    None => None,
                };
                match r {
                    Ok(j) => old(self)@.load(run_id@, create, bytes) == Ok::<
                        JournalView,
                        FaultView,
                    >(j@) && final(self)@ == old(self)@.with_journal(run_id@, final(j)@),
                    Err(f) => old(self)@.load(run_id@, create, bytes) == Err::<
                        JournalView,
                        FaultView,
                    >(f@) && final(self)@ == old(self)@,
                }
            }),
    {
        if !self.journals.contains(run_id) {
            let fresh: Journal;
            if self.durable {
                match stored {
                    Some(bytes) => {
                        let loaded = match &self.key {
                            Some(k) => Journal::open_keyed(bytes, k.as_slice()),
                            None => Journal::open(bytes),
                        };
                        match loaded {
                            Ok(l) => {
                                fresh = l.journal;
                            },
                            Err(f) => {
                                return Err(f);
                            },
                        }
                    },
                    None => {
                        if !create {
                            return Err(missing(run_id));
                        }
                        fresh =
                        match &self.key {
                            Some(k) => Journal::create_keyed(k.as_slice()),
                            None => Journal::create(),
                        };
                    },
                }
            } else {
                if !create {
                    return Err(missing(run_id));
                }
                fresh =
                match &self.key {
                    Some(k) => Journal::in_memory_keyed(k.as_slice()),
                    None => Journal::in_memory(),
                };
            }
            let ghost before = self.journals@;
            self.journals.insert(run_id.to_owned(), fresh);
        }
        let ghost base = self.journals@;
        proof {
            assert forall|j: Journal| #[trigger]
                journal_views(base.insert(run_id@, j)) == old(self)@.journals.insert(
                    run_id@,
                    j@,
                ) by {
                assert(journal_views(base.insert(run_id@, j)) =~= old(self)@.journals.insert(
                    run_id@,
                    j@,
                ));
            }
        }
        match self.journals.get_mut(run_id) {
            Some(j) => Ok(j),
            None => Err(missing(run_id)),
        }
    }

    /// The loaded journal of `run_id`.
    pub fn loaded(&self, run_id: &str) -> (r: Option<&Journal>)
        ensures
            match r {
                Some(j) => self@.journals.dom().contains(run_id@) && j@ == self@.journals[run_id@],
                None => !self@.journals.dom().contains(run_id@),
            },
    {
        self.journals.get(run_id)
    }

    /// The journal and the inbox of `run_id`, both to be changed in place;
    /// none if the journal is not loaded.
    pub fn parts(&mut self, run_id: &str) -> (r: Option<(&mut Journal, &mut Inbox)>)
        ensures
            match r {
                Some((j, i)) => {
                    &&& old(self)@.journals.dom().contains(run_id@)
                    &&& j@ == old(self)@.journals[run_id@]
                    &&& ctx::inbox_view(i@) == old(self)@.inbox(run_id@)
                    &&& final(self)@ == old(self)@.after_attempt(
                        run_id@,
                        final(j)@,
                        ctx::inbox_view(final(i)@),
                    )
                },
                None => !old(self)@.journals.dom().contains(run_id@) && final(self)@ == old(self)@,
            },
    {
        if !self.journals.contains(run_id) {
            return None;
        }
        if !self.inboxes.contains(run_id) {
            self.inboxes.insert(run_id.to_owned(), Table::new());
        }
        let ghost journals = self.journals@;
        let ghost inboxes = self.inboxes@;
        proof {
            assert(ctx::inbox_view(inboxes[run_id@]@) =~= old(self)@.inbox(run_id@));
            assert forall|j: Journal| #[trigger]
                journal_views(journals.insert(run_id@, j)) == old(self)@.journals.insert(
                    run_id@,
                    j@,
                ) by {
                assert(journal_views(journals.insert(run_id@, j)) =~= old(self)@.journals.insert(
                    run_id@,
                    j@,
                ));
            }
            assert forall|i: Inbox| #[trigger]
                inbox_views(inboxes.insert(run_id@, i)) == old(self)@.inboxes.insert(
                    run_id@,
                    ctx::inbox_view(i@),
                ) by {
                assert(inbox_views(inboxes.insert(run_id@, i)) =~= old(self)@.inboxes.insert(
                    run_id@,
                    ctx::inbox_view(i@),
                ));
            }
        }
        match (self.journals.get_mut(run_id), self.inboxes.get_mut(run_id)) {
            (Some(j), Some(i)) => Some((j, i)),
            _ => None,
        }
    }

    /// Delivers a value to a channel of a run.
    pub fn send(&mut self, run_id: &str, channel: &str, value: Value)
        ensures
            final(self)@ == old(self)@.sent(run_id@, channel@, value@),
    {
        let mut inbox: Inbox = match self.inboxes.remove(run_id) {
            Some(i) => i,
            None => Table::new(),
        };
        assert(ctx::inbox_view(inbox@) =~= old(self)@.inbox(run_id@));
        let ghost before = inbox@;
        let mut queue: VecDeque<Value> = match inbox.remove(channel) {
            Some(q) => q,
            None => VecDeque::new(),
        };
        let ghost waiting = queue@;
        queue.push_back(value);
        assert(ctx::queue_view(queue@) =~= ctx::queue_view(waiting).push(value@));
        inbox.insert(channel.to_owned(), queue);
        proof {
            let was = ctx::inbox_view(before);
            let q = if was.dom().contains(channel@) {
                was[channel@]
            } else {
                Seq::empty()
            };
            assert(ctx::queue_view(waiting) =~= q);
            assert(ctx::inbox_view(inbox@) =~= was.insert(channel@, q.push(value@)));
        }
        self.inboxes.insert(run_id.to_owned(), inbox);
        assert(self@ =~= old(self)@.sent(run_id@, channel@, value@));
    }

    /// Drops the loaded journal of `run_id`.
    pub fn evict(&mut self, run_id: &str)
        ensures
            final(self)@ == (StoreView {
                journals: old(self)@.journals.remove(run_id@),
                ..old(self)@
            }),
    {
        let gone = self.journals.remove(run_id);
        assert(self@.journals =~= old(self)@.journals.remove(run_id@));
    }

    /// Closes every dangling intent of `run_id` by a compensation.
    pub fn write_off_dangling(&mut self, run_id: &str, stored: Option<&[u8]>) -> (r: Result<
        (),
        Fault,
    >)
        ensures
            ({
                let bytes = match stored {
                    Some(b) => Some(b@),
                    None => None,
                };
                match old(self)@.load(run_id@, false, bytes) {
                    Err(f) => (r matches Err(g) && g@ == f) && final(self)@ == old(self)@,
                    Ok(j) => r is Ok && final(self)@ == old(self)@.with_journal(
                        run_id@,
                        written_off(j),
                    ),
                }
            }),
    {
        match self.load(run_id, false, stored) {
            Err(f) => Err(f),
            Ok(j) => {
                let list = dangling(j);
                let mut decisions: Vec<Recover> = Vec::new();
                let mut i: usize = 0;
                while i < list.len()
                    invariant
                        i <= list@.len(),
                        decisions@.len() == i,
                        forall|k: int|
                            0 <= k < i ==> (#[trigger] decisions@[k])@ == RecoverView::Compensate,
                    decreases list@.len() - i,
                {
                    decisions.push(Recover::Compensate);
                    i += 1;
                }
                proof {
                    let open = journal::open_intents(j@.events());
                    assert(closings(open, decision_views(decisions@)) =~= closings(
                        open,
                        Seq::new(open.len(), |k: int| RecoverView::Compensate),
                    ));
                }
                close_dangling(j, decisions);
                Ok(())
            },
        }
    }

    /// Closes every dangling intent of `run_id` per `recovery`, before a resume
    /// re-enters the program.
    pub fn recover_dangling<R: FnMut(&str, &Value) -> Recover>(
        &mut self,
        run_id: &str,
        stored: Option<&[u8]>,
        recovery: R,
    ) -> (r: Result<(), Fault>)
        requires
            ({
                let bytes = match stored {
                    Some(b) => Some(b@),
                    None => None,
                };
                old(self)@.load(run_id@, false, bytes) matches Ok(j) ==> may_decide(
                    recovery,
                    j.events(),
                )
            }),
        ensures
            ({
                let bytes = match stored {
                    Some(b) => Some(b@),
                    None => None,
                };
                match old(self)@.load(run_id@, false, bytes) {
                    Err(f) => (r matches Err(g) && g@ == f) && final(self)@ == old(self)@,
                    Ok(j) => {
                        let open = journal::open_intents(j.events());
                        &&& r is Ok
                        &&& exists|decisions: Seq<Recover>| #[trigger]
                            decision_views(decisions).len() == open.len() && final(self)@ == old(
                                self)@.with_journal(
                                run_id@,
                                j.append_all(closings(open, decision_views(decisions))),
                            ) && forall|i: int|
                                0 <= i < open.len() ==> decided(
                                    recovery,
                                    open[i].0,
                                    intent_arg(j.events(), open[i].1),
                                    #[trigger] decisions[i],
                                )
                    },
                }
            }),
    {
        match self.load(run_id, false, stored) {
            Err(f) => Err(f),
            Ok(j) => {
                let list = dangling(j);
                proof {
                    let open = journal::open_intents(j@.events());
                    assert forall|name: &str, arg: &Value|
                        listed(list@, name@, arg@) implies #[trigger] call_requires(
                        recovery,
                        (name, arg),
                    ) by {
                        let i = choose|i: int|
                            0 <= i < list@.len() && (#[trigger] list@[i]).0@ == name@
                                && list@[i].1@ == arg@;
                        assert(open[i].0 == name@);
                        assert(is_dangling(j@.events(), name@, arg@));
                    }
                }
                let decisions = decide(recovery, &list);
                let ghost chosen = decisions@;
                let ghost start = j@;
                let ghost open = journal::open_intents(start.events());
                close_dangling(j, decisions);
                proof {
                    assert(decision_views(chosen).len() == open.len());
                    assert forall|i: int| 0 <= i < open.len() implies decided(recovery, open[i].0,
                        intent_arg(start.events(), open[i].1),
                        #[trigger] chosen[i],
                    ) by {
                        assert(list@[i].0@ == open[i].0);
                    }
                }
                Ok(())
            },
        }
    }
}

/// An open intent is an intent of its name, at its cursor.
pub(crate) proof fn lemma_open_intent(events: Seq<EventView>, i: int)
    requires
        events.len() <= u64::MAX,
        0 <= i < journal::open_intents(events).len(),
    ensures
        ({
            let (name, cursor) = journal::open_intents(events)[i];
            &&& cursor < events.len()
            &&& events[cursor as int] is EffectIntent
            &&& events[cursor as int]->EffectIntent_name == name
        }),
{
    lemma_open_are_intents(events);
    assert(is_intent(events, journal::open_intents(events)[i]));
}

/// What is listed of the dangling intents of a journal is what their events
/// say: the `i`-th pair is the name and the argument of the intent at the
/// `i`-th open cursor, and no open intent is left out.
pub proof fn law_dangling_tells_the_intent(j: &Journal, r: Vec<(String, Value)>, i: int)
    requires
        call_ensures(dangling, (j,), r),
        j@.events().len() <= u64::MAX,
    ensures
        r@.len() == journal::open_intents(j@.events()).len(),
        0 <= i < r@.len() ==> j@.events()[journal::open_intents(j@.events())[i].1 as int] == (
        EventView::EffectIntent { name: r@[i].0@, arg: r@[i].1@ }),
{
    let events = j@.events();
    lemma_open_are_intents(events);
    if 0 <= i < r@.len() {
        assert(is_intent(events, journal::open_intents(events)[i]));
        assert(r@[i].0@ == journal::open_intents(events)[i].0);
    }
}

/// A policy is asked about an intent of `name` with `arg` if and only if the
/// event at an open cursor is that intent.
pub proof fn law_dangling_is_an_open_intent(events: Seq<EventView>, name: Seq<char>, arg: Seq<u8>)
    requires
        events.len() <= u64::MAX,
    ensures
        is_dangling(events, name, arg) <==> exists|c: u64|
            #![trigger events[c as int]]
            journal::open_intents(events).contains((name, c)) && c < events.len()
                && events[c as int] == (EventView::EffectIntent { name, arg }),
{
    let open = journal::open_intents(events);
    lemma_open_are_intents(events);
    if is_dangling(events, name, arg) {
        let i = choose|i: int|
            0 <= i < open.len() && (#[trigger] open[i]).0 == name && intent_arg(events, open[i].1)
                == arg;
        assert(is_intent(events, open[i]));
        assert(open.contains((name, open[i].1)));
        assert(events[open[i].1 as int] == (EventView::EffectIntent { name, arg }));
    }
    if exists|c: u64|
        #![trigger events[c as int]]
        open.contains((name, c)) && c < events.len() && events[c as int] == (
        EventView::EffectIntent { name, arg }) {
        let c = choose|c: u64|
            #![trigger events[c as int]]
            open.contains((name, c)) && c < events.len() && events[c as int] == (
            EventView::EffectIntent { name, arg });
        let i = choose|i: int| 0 <= i < open.len() && open[i] == (name, c);
        assert(open[i].0 == name);
    }
}

/// Recovery closes the `i`-th open intent behind all that the journal held, in
/// order: by a commit of the result that was decided, or by a compensation of
/// its name.
pub proof fn law_closings_follow_the_decisions(
    j: JournalView,
    decisions: Seq<RecoverView>,
    i: int,
)
    requires
        decisions.len() == journal::open_intents(j.events()).len(),
        0 <= i < decisions.len(),
    ensures
        ({
            let open = journal::open_intents(j.events());
            let after = j.append_all(closings(open, decisions)).events();
            &&& after.len() == j.events().len() + open.len()
            &&& after.take(j.events().len() as int) == j.events()
            &&& match decisions[i] {
                RecoverView::Commit(v) => after[j.events().len() + i] == (EventView::EffectCommit {
                    name: open[i].0,
                    result: v,
                }),
                RecoverView::Compensate => after[j.events().len() + i] == (
                EventView::EffectCompensated { name: open[i].0 }),
            }
        }),
{
    let open = journal::open_intents(j.events());
    lemma_events_after(j, closings(open, decisions));
    let after = j.append_all(closings(open, decisions)).events();
    assert(after.take(j.events().len() as int) =~= j.events());
}

/// The events of a journal after more of them.
pub(crate) proof fn lemma_events_after(j: JournalView, more: Seq<EventView>)
    ensures
        j.append_all(more).events() == j.events() + more,
    decreases more.len(),
{
    if more.len() == 0 {
        assert(j.append_all(more).events() =~= j.events() + more);
    } else {
        lemma_events_after(j, more.drop_last());
        let before = j.append_all(more.drop_last());
        assert(before.append(more.last()).events() =~= before.events().push(more.last()));
        assert(j.append_all(more).events() =~= j.events() + more);
    }
}

/// What is sent waits behind all that was sent before on that channel of that
/// run, and nowhere else: no other channel, no other run and no journal is
/// touched.
pub proof fn law_sent_value_waits_last(
    s: StoreView,
    run_id: Seq<char>,
    channel: Seq<char>,
    value: Seq<u8>,
    run: Seq<char>,
    other: Seq<char>,
)
    ensures
        ({
            let after = s.sent(run_id, channel, value);
            let was = s.inbox(run_id);
            let queue = after.inbox(run_id)[channel];
            &&& after.inbox(run_id).dom().contains(channel)
            &&& queue.len() > 0 && queue.last() == value
            &&& was.dom().contains(channel) ==> queue.drop_last() == was[channel]
            &&& !was.dom().contains(channel) ==> queue.len() == 1
            &&& other != channel ==> after.inbox(run_id).dom().contains(other)
                == was.dom().contains(other)
            &&& other != channel && was.dom().contains(other) ==> after.inbox(run_id)[other]
                == was[other]
            &&& run != run_id ==> after.inbox(run) == s.inbox(run)
            &&& after.journals == s.journals && after.key == s.key && after.durable == s.durable
        }),
{
    let was = s.inbox(run_id);
    if was.dom().contains(channel) {
        assert(was[channel].push(value).drop_last() =~= was[channel]);
    }
}

/// A loaded journal is what a store gives, whatever storage holds and whether
/// or not it may create one. A run that is nowhere gets an empty journal under
/// the store's key, if it may be created, and is refused otherwise.
pub proof fn law_load_prefers_what_is_loaded(
    s: StoreView,
    run_id: Seq<char>,
    create: bool,
    stored: Option<Seq<u8>>,
)
    ensures
        s.journals.dom().contains(run_id) ==> s.load(run_id, create, stored) == Ok::<
            JournalView,
            FaultView,
        >(s.journals[run_id]),
        !s.journals.dom().contains(run_id) && (stored is None || !s.durable) ==> match s.load(
            run_id,
            create,
            stored,
        ) {
            Ok(j) => create && j.events().len() == 0 && j.key == s.key && j.durable == s.durable,
            Err(f) => !create && f == FaultView::Io("no journal for run '"@ + run_id + "'"@),
        },
        !s.journals.dom().contains(run_id) && s.durable ==> (stored matches Some(bytes)
            ==> match s.load(run_id, create, stored) {
            Ok(j) => j.key == s.key && j.durable && (journal::read_image(s.key, bytes) matches Ok(x)
                && x.0 == j.entries),
            Err(f) => journal::read_image(s.key, bytes) matches Err(g) && g == f,
        }),
{
}

pub(crate) fn missing(run_id: &str) -> (r: Fault)
    ensures
        r@ == no_journal(run_id@),
{
    Fault::Io("no journal for run '".to_owned().concat(run_id).concat("'"))
}

} // verus!
