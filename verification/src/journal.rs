//! The journal: an append-only, hash-chained event history.
//!
//! Every externally determined outcome of a run is appended as the run
//! proceeds, and replay reads outcomes back instead of sampling again.
//!
//! - **Cursor keys.** An entry's key is its position in the log.
//! - **Tamper evidence.** Entries form a hash chain,
//!   `h_i = H(h_{i-1} ‖ cursor ‖ payload)`, with `H` either SHA-256 or, when a
//!   runtime key is configured, HMAC-SHA-256.
//! - **Torn-tail recovery.** The durable form is a header and length-prefixed
//!   records. A partial final record (a crash mid-write) is recognised when
//!   the bytes are read back, and left out.
//!
//! A journal holds no file. A durable one collects the bytes that must reach
//! stable storage, and [`Journal::sync`] hands them over.
use vstd::bytes::*;
use vstd::prelude::*;

use crate::event::{Event, EventView};
use crate::fault::{Fault, FaultView};
use crate::sha256;
use crate::sha256::Digest;
use crate::text;

verus! {

/// A journal key: the entry's position in the append-only log.
pub type Cursor = u64;

/// One committed entry: the event, its position and its chain hash.
#[derive(Debug, PartialEq, Eq)]
pub struct Entry {
    pub cursor: Cursor,
    pub event: Event,
    /// `H(prev_hash ‖ cursor ‖ payload)`, the link in the chain.
    pub hash: Digest,
}

/// An entry without its position, which is its index in the journal.
#[verifier::ext_equal]
pub struct EntryView {
    pub event: EventView,
    pub hash: Seq<u8>,
}

impl View for Entry {
    type V = EntryView;

    open spec fn view(&self) -> EntryView {
        EntryView { event: self.event@, hash: self.hash@ }
    }
}

impl Clone for Entry {
    fn clone(&self) -> (r: Self)
        ensures
            r@ == self@,
            r.cursor == self.cursor,
    {
        Entry { cursor: self.cursor, event: self.event.clone(), hash: self.hash }
    }
}

/// What a [`Journal`] holds.
#[verifier::ext_equal]
pub struct JournalView {
    /// The key of the chain, if it has one.
    pub key: Option<Seq<u8>>,
    pub entries: Seq<EntryView>,
    /// Is the journal kept on stable storage?
    pub durable: bool,
    /// Bytes that have not been handed over for writing yet.
    pub unsynced: Seq<u8>,
}

/// The hash that precedes the first entry.
pub open spec fn genesis() -> Seq<u8> {
    Seq::new(32, |i: int| 0u8)
}

/// What is hashed for one link.
pub open spec fn link_input(prev: Seq<u8>, cursor: nat, payload: Seq<u8>) -> Seq<u8> {
    prev + spec_u64_to_le_bytes(cursor as u64) + payload
}

/// The chain's hash function: SHA-256, or HMAC-SHA-256 under a key.
pub open spec fn chain_digest(key: Option<Seq<u8>>, input: Seq<u8>) -> Seq<u8> {
    match key {
        Some(k) => sha256::hmac_spec(k, input),
        None => sha256::sha256_spec(input),
    }
}

/// The hash of the entry at `cursor` that follows an entry with hash `prev`.
pub open spec fn link(key: Option<Seq<u8>>, prev: Seq<u8>, cursor: nat, payload: Seq<u8>) -> Seq<
    u8,
> {
    chain_digest(key, link_input(prev, cursor, payload))
}

/// The hash that the entry at `i` is chained to.
pub open spec fn hash_before(entries: Seq<EntryView>, i: int) -> Seq<u8> {
    if i <= 0 {
        genesis()
    } else {
        entries[i - 1].hash
    }
}

/// Does the entry at `i` carry the hash that the chain demands?
pub open spec fn link_holds(key: Option<Seq<u8>>, entries: Seq<EntryView>, i: int) -> bool {
    entries[i].hash == link(key, hash_before(entries, i), i as nat, entries[i].event.encode())
}

/// Does every entry carry the hash that the chain demands?
pub open spec fn chain_holds(key: Option<Seq<u8>>, entries: Seq<EntryView>) -> bool {
    forall|i: int| 0 <= i < entries.len() ==> #[trigger] link_holds(key, entries, i)
}

/// The events of a sequence of entries.
pub open spec fn events_of(entries: Seq<EntryView>) -> Seq<EventView> {
    entries.map_values(|e: EntryView| e.event)
}

/// The magic bytes at the head of a durable journal, `PRAGJRNL`.
pub open spec fn magic() -> Seq<u8> {
    seq![80u8, 82, 65, 71, 74, 82, 78, 76]
}

/// The header of a durable journal: the magic bytes and the format version, 1.
pub open spec fn header() -> Seq<u8> {
    magic() + spec_u32_to_le_bytes(1)
}

/// The record of one entry: payload length, payload, hash.
pub open spec fn frame(e: EntryView) -> Seq<u8> {
    spec_u32_to_le_bytes(e.event.encode().len() as u32) + e.event.encode() + e.hash
}

/// The records of all entries, in order.
pub open spec fn frames(entries: Seq<EntryView>) -> Seq<u8>
    decreases entries.len(),
{
    if entries.len() == 0 {
        Seq::empty()
    } else {
        frames(entries.drop_last()) + frame(entries.last())
    }
}

/// The bytes of a durable journal on stable storage.
pub open spec fn image(entries: Seq<EntryView>) -> Seq<u8> {
    header() + frames(entries)
}

/// The first record of `bytes` and what follows it, unless `bytes` ends inside
/// the record.
pub open spec fn first_frame(bytes: Seq<u8>) -> Option<(Seq<u8>, Seq<u8>, Seq<u8>)> {
    if bytes.len() < 4 {
        None
    } else {
        let n = spec_u32_from_le_bytes(bytes.take(4));
        if bytes.len() < 4 + n + 32 {
            None
        } else {
            Some((bytes.subrange(4, 4 + n), bytes.subrange(4 + n, 36 + n), bytes.skip(36 + n)))
        }
    }
}

/// The fault for a broken chain.
pub open spec fn broken_at(cursor: nat) -> FaultView {
    FaultView::Io("journal hash chain broken at cursor "@ + text::decimal(cursor))
}

/// The fault for a record whose payload is no event.
pub open spec fn undecodable_at(cursor: nat) -> FaultView {
    FaultView::Io("undecodable journal event at cursor "@ + text::decimal(cursor))
}

/// Reads records from `bytes`, the first of which is the entry at `cursor`:
/// the entries, and how many bytes of an unfinished record follow them.
pub open spec fn scan(key: Option<Seq<u8>>, prev: Seq<u8>, cursor: nat, bytes: Seq<u8>) -> Result<
    (Seq<EntryView>, nat),
    FaultView,
>
    decreases bytes.len(),
{
    match first_frame(bytes) {
        None => Ok((Seq::empty(), bytes.len())),
        Some((payload, hash, rest)) => if hash != link(key, prev, cursor, payload) {
            Err(broken_at(cursor))
        } else {
            match EventView::decode(payload) {
                None => Err(undecodable_at(cursor)),
                Some(event) => match scan(key, hash, cursor + 1, rest) {
                    Ok((more, torn)) => Ok((seq![EntryView { event, hash }] + more, torn)),
                    Err(f) => Err(f),
                },
            }
        },
    }
}

/// Reads a durable journal: the entries and the length of the torn tail.
pub open spec fn read_image(key: Option<Seq<u8>>, bytes: Seq<u8>) -> Result<
    (Seq<EntryView>, nat),
    FaultView,
> {
    if bytes.len() < 12 || bytes.take(8) != magic() {
        Err(FaultView::Io("not a pragmatic journal (bad magic)"@))
    } else if spec_u32_from_le_bytes(bytes.subrange(8, 12)) != 1 {
        Err(
            FaultView::Io(
                "unsupported journal version "@ + text::decimal(
                    spec_u32_from_le_bytes(bytes.subrange(8, 12)) as nat,
                ),
            ),
        )
    } else {
        scan(key, genesis(), 0, bytes.skip(12))
    }
}

/// `open` without the last pair that is called `name`, if there is one.
pub open spec fn without_last<B>(open: Seq<(Seq<char>, B)>, name: Seq<char>) -> Seq<(Seq<char>, B)>
    decreases open.len(),
{
    if open.len() == 0 {
        open
    } else if open.last().0 == name {
        open.drop_last()
    } else {
        without_last(open.drop_last(), name).push(open.last())
    }
}

/// The intents that no later commit or compensation of the same name has
/// closed, with their cursors, in order. A commit or compensation closes the
/// last open intent of its name.
pub open spec fn open_intents(events: Seq<EventView>) -> Seq<(Seq<char>, u64)>
    decreases events.len(),
{
    if events.len() == 0 {
        Seq::empty()
    } else {
        let before = open_intents(events.drop_last());
        match events.last() {
            EventView::EffectIntent { name, .. } => before.push(
                (name, (events.len() - 1) as u64),
            ),
            EventView::EffectCommit { name, .. } => without_last(before, name),
            EventView::EffectCompensated { name } => without_last(before, name),
            _ => before,
        }
    }
}

impl JournalView {
    /// An empty journal that lives in memory only.
    pub open spec fn in_memory(key: Option<Seq<u8>>) -> JournalView {
        JournalView { key, entries: Seq::empty(), durable: false, unsynced: Seq::empty() }
    }

    /// An empty durable journal, whose header has not been written yet.
    pub open spec fn created(key: Option<Seq<u8>>) -> JournalView {
        JournalView { key, entries: Seq::empty(), durable: true, unsynced: header() }
    }

    /// A durable journal that holds what was read from storage.
    pub open spec fn opened(key: Option<Seq<u8>>, entries: Seq<EntryView>) -> JournalView {
        JournalView { key, entries, durable: true, unsynced: Seq::empty() }
    }

    /// The entry that appending `event` adds.
    pub open spec fn next_entry(self, event: EventView) -> EntryView {
        EntryView {
            event,
            hash: link(
                self.key,
                hash_before(self.entries, self.entries.len() as int),
                self.entries.len(),
                event.encode(),
            ),
        }
    }

    /// The journal with `event` appended.
    pub open spec fn append(self, event: EventView) -> JournalView {
        let e = self.next_entry(event);
        JournalView {
            entries: self.entries.push(e),
            unsynced: if self.durable {
                self.unsynced + frame(e)
            } else {
                self.unsynced
            },
            ..self
        }
    }

    /// The journal with all `events` appended, in order.
    pub open spec fn append_all(self, events: Seq<EventView>) -> JournalView
        decreases events.len(),
    {
        if events.len() == 0 {
            self
        } else {
            self.append_all(events.drop_last()).append(events.last())
        }
    }

    pub open spec fn events(self) -> Seq<EventView> {
        events_of(self.entries)
    }

    /// Is the chain intact?
    pub open spec fn intact(self) -> bool {
        chain_holds(self.key, self.entries)
    }

    /// The first `keep` entries, with nothing left to write.
    pub open spec fn truncated(self, keep: nat) -> JournalView {
        JournalView {
            entries: if keep < self.entries.len() {
                self.entries.take(keep as int)
            } else {
                self.entries
            },
            unsynced: if self.durable {
                Seq::empty()
            } else {
                self.unsynced
            },
            ..self
        }
    }

    /// The journal with the event at `cursor` replaced and its hash kept.
    pub open spec fn tampered(self, cursor: nat, event: EventView) -> JournalView {
        if cursor < self.entries.len() {
            JournalView {
                entries: self.entries.update(
                    cursor as int,
                    EntryView { event, hash: self.entries[cursor as int].hash },
                ),
                ..self
            }
        } else {
            self
        }
    }
}

/// Appending leaves a journal as durable as it was.
pub(crate) proof fn lemma_append_all_durable(j: JournalView, more: Seq<EventView>)
    ensures
        j.append_all(more).durable == j.durable,
    decreases more.len(),
{
    if more.len() > 0 {
        lemma_append_all_durable(j, more.drop_last());
    }
}

/// An append-only, hash-chained journal for one run.
pub struct Journal {
    entries: Vec<Entry>,
    /// Is the journal kept on stable storage?
    durable: bool,
    /// Appended records that have not been handed over for writing yet.
    unsynced: Vec<u8>,
    /// Optional runtime key: entries are chained with HMAC-SHA-256 instead of
    /// plain SHA-256, making the log attributable as well as tamper-evident.
    key: Option<Vec<u8>>,
}

impl View for Journal {
    type V = JournalView;

    closed spec fn view(&self) -> JournalView {
        JournalView {
            key: match self.key {
                Some(k) => Some(k@),
                None => None,
            },
            entries: entry_views(self.entries@),
            durable: self.durable,
            unsynced: self.unsynced@,
        }
    }
}

/// The views of a sequence of entries.
pub open spec fn entry_views(entries: Seq<Entry>) -> Seq<EntryView> {
    entries.map_values(|e: Entry| e@)
}

/// The result of reading a durable journal.
pub struct Loaded {
    pub journal: Journal,
    /// Number of trailing bytes left out because the final record was torn
    /// (crash mid-write). Zero for a cleanly closed journal.
    pub torn_bytes: u64,
}

/// How the file of a durable journal is cut back: write `pending`, then cut
/// the file to `len` bytes.
pub struct Cut {
    pub pending: Vec<u8>,
    pub len: u64,
}

/// The hash of one link of the chain.
pub fn chain_hash(key: Option<&[u8]>, prev: &Digest, cursor: Cursor, payload: &[u8]) -> (d: Digest)
    ensures
        d@ == link(
            match key {
                Some(k) => Some(k@),
                None => None,
            },
            prev@,
            cursor as nat,
            payload@,
        ),
{
    let mut buf: Vec<u8> = Vec::new();
    buf.extend_from_slice(prev.as_slice());
    let at: Vec<u8> = u64_to_le_bytes(cursor);
    buf.extend_from_slice(at.as_slice());
    buf.extend_from_slice(payload);
    assert(buf@ =~= link_input(prev@, cursor as nat, payload@));
    match key {
        Some(k) => sha256::hmac_sha256(k, buf.as_slice()),
        None => sha256::sha256(buf.as_slice()),
    }
}

/// Appends the record of an entry.
fn push_frame(out: &mut Vec<u8>, payload: &[u8], hash: &Digest)
    ensures
        final(out)@ == old(out)@ + (spec_u32_to_le_bytes(payload@.len() as u32) + payload@ + hash@),
{
    let n: Vec<u8> = u32_to_le_bytes(#[verifier::truncate] (payload.len() as u32));
    out.extend_from_slice(n.as_slice());
    out.extend_from_slice(payload);
    out.extend_from_slice(hash.as_slice());
    assert(out@ =~= old(out)@ + (spec_u32_to_le_bytes(payload@.len() as u32) + payload@ + hash@));
}

/// Removes the last pair that is called `name`, if there is one.
pub fn remove_last<B: View>(open: &mut Vec<(String, B)>, name: &str)
    ensures
        pair_views(final(open)@) == without_last(pair_views(old(open)@), name@),
{
    let ghost start = open@;
    let mut i: usize = open.len();
    while i > 0
        invariant
            i <= open.len(),
            open@ == start,
            start == old(open)@,
            forall|j: int| i <= j < open.len() ==> (#[trigger] open@[j]).0@ != name@,
        decreases i,
    {
        i -= 1;
        if text::same_text(open[i].0.as_str(), name) {
            proof {
                lemma_without_last(pair_views(start), name@, i as int);
            }
            open.remove(i);
            assert(pair_views(open@) =~= pair_views(start).remove(i as int));
            return;
        }
    }
    proof {
        lemma_without_none(pair_views(start), name@);
    }
}

/// The views of a sequence of named things.
pub open spec fn pair_views<B: View>(s: Seq<(String, B)>) -> Seq<(Seq<char>, B::V)> {
    s.map_values(|p: (String, B)| (p.0@, p.1@))
}

pub(crate) proof fn lemma_without_last<B>(open: Seq<(Seq<char>, B)>, name: Seq<char>, i: int)
    requires
        0 <= i < open.len(),
        open[i].0 == name,
        forall|j: int| i < j < open.len() ==> (#[trigger] open[j]).0 != name,
    ensures
        without_last(open, name) == open.remove(i),
    decreases open.len(),
{
    if i == open.len() - 1 {
        assert(open.remove(i) =~= open.drop_last());
    } else {
        lemma_without_last(open.drop_last(), name, i);
        assert(open.drop_last().remove(i).push(open.last()) =~= open.remove(i));
    }
}

pub(crate) proof fn lemma_without_none<B>(open: Seq<(Seq<char>, B)>, name: Seq<char>)
    requires
        forall|j: int| 0 <= j < open.len() ==> (#[trigger] open[j]).0 != name,
    ensures
        without_last(open, name) == open,
    decreases open.len(),
{
    if open.len() > 0 {
        lemma_without_none(open.drop_last(), name);
        assert(open.drop_last().push(open.last()) =~= open);
    }
}

impl Journal {
    #[verifier::type_invariant]
    spec fn cursors_are_positions(self) -> bool {
        forall|i: int| 0 <= i < self.entries@.len() ==> (#[trigger] self.entries@[i]).cursor == i
    }

    /// A fresh in-memory journal (nothing persisted).
    pub fn in_memory() -> (r: Self)
        ensures
            r@ == JournalView::in_memory(None),
    {
        let r = Journal { entries: Vec::new(), durable: false, unsynced: Vec::new(), key: None };
        assert(r@ =~= JournalView::in_memory(None));
        r
    }

    /// A fresh in-memory journal whose chain is keyed with HMAC-SHA-256.
    pub fn in_memory_keyed(key: &[u8]) -> (r: Self)
        ensures
            r@ == JournalView::in_memory(Some(key@)),
    {
        let r = Journal {
            entries: Vec::new(),
            durable: false,
            unsynced: Vec::new(),
            key: Some(vstd::slice::slice_to_vec(key)),
        };
        assert(r@ =~= JournalView::in_memory(Some(key@)));
        r
    }

    /// A new durable journal. Its header is the first thing to write.
    pub fn create() -> (r: Self)
        ensures
            r@ == JournalView::created(None),
    {
        let r = Journal {
            entries: Vec::new(),
            durable: true,
            unsynced: header_bytes(),
            key: None,
        };
        assert(r@ =~= JournalView::created(None));
        r
    }

    /// A new durable, keyed journal.
    pub fn create_keyed(key: &[u8]) -> (r: Self)
        ensures
            r@ == JournalView::created(Some(key@)),
    {
        let r = Journal {
            entries: Vec::new(),
            durable: true,
            unsynced: header_bytes(),
            key: Some(vstd::slice::slice_to_vec(key)),
        };
        assert(r@ =~= JournalView::created(Some(key@)));
        r
    }

    /// Reads an existing durable journal from its bytes, verifying the hash
    /// chain and leaving out any torn tail left by a crash mid-append.
    pub fn open(bytes: &[u8]) -> (r: Result<Loaded, Fault>)
        ensures
            match r {
                Ok(loaded) => read_image(None, bytes@) matches Ok((entries, torn)) && loaded.journal@
                    == JournalView::opened(None, entries) && loaded.torn_bytes == torn,
                Err(f) => read_image(None, bytes@) == Err::<(Seq<EntryView>, nat), FaultView>(f@),
            },
    {
        Self::open_inner(bytes, None)
    }

    /// Reads an existing keyed journal from its bytes.
    pub fn open_keyed(bytes: &[u8], key: &[u8]) -> (r: Result<Loaded, Fault>)
        ensures
            match r {
                Ok(loaded) => read_image(Some(key@), bytes@) matches Ok((entries, torn))
                    && loaded.journal@ == JournalView::opened(Some(key@), entries)
                    && loaded.torn_bytes == torn,
                Err(f) => read_image(Some(key@), bytes@) == Err::<(Seq<EntryView>, nat), FaultView>(
                    f@,
                ),
            },
    {
        Self::open_inner(bytes, Some(key))
    }

    fn open_inner(bytes: &[u8], key: Option<&[u8]>) -> (r: Result<Loaded, Fault>)
        ensures
            ({
                let k = match key {
                    Some(k) => Some(k@),
                    None => None,
                };
                match r {
                    Ok(loaded) => read_image(k, bytes@) matches Ok((entries, torn))
                        && loaded.journal@ == JournalView::opened(k, entries) && loaded.torn_bytes
                        == torn,
                    Err(f) => read_image(k, bytes@) == Err::<(Seq<EntryView>, nat), FaultView>(f@),
                }
            }),
    {
        let ghost k = match key {
            Some(k) => Some(k@),
            None => None,
        };
        let magic: Vec<u8> = magic_bytes();
        if bytes.len() < 12 || !text::same_bytes(
            vstd::slice::slice_subrange(bytes, 0, 8),
            magic.as_slice(),
        ) {
            assert(bytes@.len() >= 12 ==> bytes@.take(8) =~= bytes@.subrange(0, 8));
            return Err(Fault::Io("not a pragmatic journal (bad magic)".to_owned()));
        }
        assert(bytes@.take(8) =~= bytes@.subrange(0, 8));
        let version: u32 = u32_from_le_bytes(vstd::slice::slice_subrange(bytes, 8, 12));
        if version != 1 {
            let v = text::decimal_text(version as u64);
            return Err(Fault::Io("unsupported journal version ".to_owned().concat(v.as_str())));
        }
        let ghost body = bytes@.skip(12);
        let mut entries: Vec<Entry> = Vec::new();
        let mut prev: Digest = [0u8; 32];
        let mut pos: usize = 12;
        assert(prev@ =~= genesis());
        assert(entry_views(entries@) =~= Seq::empty());
        assert(body.skip(0) =~= body);
        proof {
            lemma_put_before_nothing(scan(k, genesis(), 0, body));
        }
        let mut more: bool = true;
        while more
            invariant
                12 <= pos <= bytes.len(),
                read_image(k, bytes@) == scan(k, genesis(), 0, bytes@.skip(12)),
                forall|i: int|
                    0 <= i < entries@.len() ==> (#[trigger] entries@[i]).cursor == i,
                scan(k, genesis(), 0, bytes@.skip(12)) == put_before(
                    entry_views(entries@),
                    scan(k, prev@, entries@.len(), bytes@.skip(pos as int)),
                ),
                k == match key {
                    Some(k) => Some(k@),
                    None => None,
                },
                !more ==> first_frame(bytes@.skip(pos as int)) is None,
            decreases bytes.len() - pos + (if more { 1int } else { 0int }),
        {
            let ghost done = entry_views(entries@);
            match next_entry(bytes, pos, key, &prev, entries.len() as u64) {
                Err(f) => {
                    return Err(f);
                },
                Ok(None) => {
                    more = false;
                },
                Ok(Some((e, next))) => {
                    proof {
                        lemma_put_before_one(
                            done,
                            e@,
                            scan(k, e@.hash, entries@.len() + 1, bytes@.skip(next as int)),
                        );
                    }
                    prev = e.hash;
                    pos = next;
                    entries.push(e);
                    assert(entry_views(entries@) =~= done.push(e@));
                },
            }
        }
        let torn: u64 = (bytes.len() - pos) as u64;
        proof {
            assert(entry_views(entries@) + Seq::empty() =~= entry_views(entries@));
        }
        let journal = Journal {
            entries,
            durable: true,
            unsynced: Vec::new(),
            key: match key {
                Some(k) => Some(vstd::slice::slice_to_vec(k)),
                None => None,
            },
        };
        assert(journal@ =~= JournalView::opened(k, entry_views(entries@)));
        Ok(Loaded { journal, torn_bytes: torn })
    }

    /// The hash of the entry that would be appended for this payload.
    fn next_hash(&self, payload: &[u8]) -> (hash: Digest)
        ensures
            hash@ == link(
                self@.key,
                hash_before(self@.entries, self@.entries.len() as int),
                self@.entries.len(),
                payload@,
            ),
    {
        let prev: Digest = if self.entries.len() == 0 {
            [0u8; 32]
        } else {
            self.entries[self.entries.len() - 1].hash
        };
        assert(prev@ =~= hash_before(self@.entries, self@.entries.len() as int));
        chain_hash(
            match &self.key {
                Some(k) => Some(k.as_slice()),
                None => None,
            },
            &prev,
            self.entries.len() as u64,
            payload,
        )
    }

    /// Appends an event: one hash over the encoded event, one push, and for a
    /// durable journal one record to write.
    pub fn append(&mut self, event: Event) -> (cursor: Cursor)
        ensures
            cursor == old(self)@.entries.len(),
            final(self)@ == old(self)@.append(event@),
            event@.fits(),
    {
        proof {
            use_type_invariant(&*self);
        }
        let cursor: Cursor = self.entries.len() as u64;
        let payload: Vec<u8> = event.encode();
        let hash = self.next_hash(payload.as_slice());
        let entry = Entry { cursor, event, hash };
        if self.durable {
            let mut unsynced: Vec<u8> = Vec::new();
            std::mem::swap(&mut unsynced, &mut self.unsynced);
            push_frame(&mut unsynced, payload.as_slice(), &hash);
            assert(unsynced@ =~= old(self)@.unsynced + frame(entry@));
            self.unsynced = unsynced;
        }
        let mut entries: Vec<Entry> = Vec::new();
        std::mem::swap(&mut entries, &mut self.entries);
        entries.push(entry);
        self.entries = entries;
        assert(self@ =~= old(self)@.append(event@));
        cursor
    }

    /// The bytes that must reach stable storage for `event` to be appended.
    pub fn unsynced_with(&self, event: &Event) -> (r: Vec<u8>)
        ensures
            r@ == self@.append(event@).unsynced,
    {
        let mut out: Vec<u8> = Vec::new();
        out.extend_from_slice(self.unsynced.as_slice());
        assert(out@ =~= self@.unsynced);
        if self.durable {
            let payload: Vec<u8> = event.encode();
            let hash = self.next_hash(payload.as_slice());
            push_frame(&mut out, payload.as_slice(), &hash);
            assert(out@ =~= self@.append(event@).unsynced);
        }
        out
    }

    /// The bytes that must still reach stable storage.
    pub fn unsynced(&self) -> (r: &[u8])
        ensures
            r@ == self@.unsynced,
    {
        self.unsynced.as_slice()
    }

    /// Hands over the bytes that must reach stable storage. The journal length
    /// at the moment they are on disk is a checkpoint: a crash after this
    /// point loses nothing before it.
    pub fn sync(&mut self) -> (r: Vec<u8>)
        ensures
            r@ == old(self)@.unsynced,
            final(self)@ == (JournalView { unsynced: Seq::empty(), ..old(self)@ }),
    {
        proof {
            use_type_invariant(&*self);
        }
        let mut out: Vec<u8> = Vec::new();
        std::mem::swap(&mut out, &mut self.unsynced);
        assert(self@ =~= (JournalView { unsynced: Seq::empty(), ..old(self)@ }));
        out
    }

    /// Number of committed entries (the write cursor).
    pub fn len(&self) -> (r: u64)
        ensures
            r == self@.entries.len(),
    {
        self.entries.len() as u64
    }

    pub fn is_empty(&self) -> (r: bool)
        ensures
            r == (self@.entries.len() == 0),
    {
        self.entries.len() == 0
    }

    /// Is the journal kept on stable storage?
    pub fn is_durable(&self) -> (r: bool)
        ensures
            r == self@.durable,
    {
        self.durable
    }

    /// The entry at `cursor`, if committed.
    pub fn get(&self, cursor: Cursor) -> (r: Option<&Entry>)
        ensures
            match r {
                Some(e) => cursor < self@.entries.len() && e@ == self@.entries[cursor as int]
                    && e.cursor == cursor,
                None => cursor >= self@.entries.len(),
            },
    {
        proof {
            use_type_invariant(self);
        }
        if cursor < self.entries.len() as u64 {
            Some(&self.entries[cursor as usize])
        } else {
            None
        }
    }

    /// All committed entries, in order.
    pub fn entries(&self) -> (r: &[Entry])
        ensures
            entry_views(r@) == self@.entries,
            forall|i: int| 0 <= i < r@.len() ==> (#[trigger] r@[i]).cursor == i,
    {
        proof {
            use_type_invariant(self);
        }
        self.entries.as_slice()
    }

    /// The head of the hash chain (the whole run's integrity commitment).
    pub fn head(&self) -> (r: Option<Digest>)
        ensures
            match r {
                Some(d) => self@.entries.len() > 0 && d@ == self@.entries.last().hash,
                None => self@.entries.len() == 0,
            },
    {
        if self.entries.len() == 0 {
            None
        } else {
            Some(self.entries[self.entries.len() - 1].hash)
        }
    }

    /// Walks the full chain and confirms every link. Returns the first bad
    /// cursor on failure.
    pub fn verify(&self) -> (r: Result<(), Cursor>)
        ensures
            match r {
                Ok(()) => self@.intact(),
                Err(c) => {
                    &&& c < self@.entries.len()
                    &&& !link_holds(self@.key, self@.entries, c as int)
                    &&& forall|i: int|
                        0 <= i < c ==> #[trigger] link_holds(self@.key, self@.entries, i)
                },
            },
    {
        proof {
            use_type_invariant(self);
        }
        let mut prev: Digest = [0u8; 32];
        assert(prev@ =~= genesis());
        let mut i: usize = 0;
        while i < self.entries.len()
            invariant
                i <= self.entries@.len(),
                self@.entries == entry_views(self.entries@),
                self@.key == match self.key {
                    Some(k) => Some(k@),
                    None => None,
                },
                forall|j: int|
                    0 <= j < self.entries@.len() ==> (#[trigger] self.entries@[j]).cursor == j,
                prev@ == hash_before(self@.entries, i as int),
                forall|j: int| 0 <= j < i ==> #[trigger] link_holds(self@.key, self@.entries, j),
            decreases self.entries@.len() - i,
        {
            let e = &self.entries[i];
            let payload: Vec<u8> = e.event.encode();
            let expect = chain_hash(
                match &self.key {
                    Some(k) => Some(k.as_slice()),
                    None => None,
                },
                &prev,
                e.cursor,
                payload.as_slice(),
            );
            assert(self@.entries[i as int] == e@);
            if !text::same_bytes(e.hash.as_slice(), expect.as_slice()) {
                return Err(e.cursor);
            }
            prev = e.hash;
            i += 1;
        }
        Ok(())
    }

    /// Effect names whose `EffectIntent` has no matching `EffectCommit` or
    /// `EffectCompensated`: crashes inside the write-ahead window.
    pub fn dangling_intents(&self) -> (r: Vec<(Cursor, String)>)
        ensures
            r@.len() == open_intents(self@.events()).len(),
            forall|i: int|
                0 <= i < r@.len() ==> (#[trigger] r@[i]).1@ == open_intents(self@.events())[i].0
                    && r@[i].0 == open_intents(self@.events())[i].1,
    {
        proof {
            use_type_invariant(self);
        }
        let ghost events = self@.events();
        let mut open: Vec<(String, u64)> = Vec::new();
        assert(pair_views(open@) =~= Seq::empty());
        assert(events.take(0) =~= Seq::empty());
        let mut i: usize = 0;
        while i < self.entries.len()
            invariant
                i <= self.entries@.len(),
                events == events_of(entry_views(self.entries@)),
                forall|j: int|
                    0 <= j < self.entries@.len() ==> (#[trigger] self.entries@[j]).cursor == j,
                pair_views(open@) == open_intents(events.take(i as int)),
            decreases self.entries@.len() - i,
        {
            let e = &self.entries[i];
            let ghost seen = events.take(i + 1);
            assert(seen.drop_last() =~= events.take(i as int));
            assert(seen.last() == e.event@);
            match &e.event {
                Event::EffectIntent { name, .. } => {
                    let ghost before = open@;
                    open.push((name.clone(), e.cursor));
                    assert(pair_views(open@) =~= pair_views(before).push((name@, i as u64)));
                },
                Event::EffectCommit { name, .. } => {
                    remove_last(&mut open, name.as_str());
                },
                Event::EffectCompensated { name } => {
                    remove_last(&mut open, name.as_str());
                },
                _ => {},
            }
            i += 1;
        }
        assert(events.take(events.len() as int) =~= events);
        let mut out: Vec<(Cursor, String)> = Vec::new();
        let mut k: usize = 0;
        while k < open.len()
            invariant
                k <= open@.len(),
                out@.len() == k,
                pair_views(open@) == open_intents(events),
                forall|j: int|
                    0 <= j < k ==> (#[trigger] out@[j]).1@ == open_intents(events)[j].0
                        && out@[j].0 == open_intents(events)[j].1,
            decreases open@.len() - k,
        {
            assert(pair_views(open@)[k as int] == (open@[k as int].0@, open@[k as int].1));
            out.push((open[k].1, open[k].0.clone()));
            k += 1;
        }
        out
    }

    /// Keeps the first `keep` entries and discards the rest, modelling a disk
    /// that held only a prefix. For a durable journal, says how its file is
    /// cut back.
    pub fn truncate(&mut self, keep: u64) -> (r: Option<Cut>)
        requires
            old(self)@.durable ==> image(old(self)@.truncated(keep as nat).entries).len()
                <= u64::MAX,
        ensures
            final(self)@ == old(self)@.truncated(keep as nat),
            match r {
                Some(cut) => old(self)@.durable && cut.pending@ == old(self)@.unsynced && cut.len
                    == image(final(self)@.entries).len(),
                None => !old(self)@.durable,
            },
    {
        proof {
            use_type_invariant(&*self);
        }
        if keep < self.entries.len() as u64 {
            let mut entries: Vec<Entry> = Vec::new();
            std::mem::swap(&mut entries, &mut self.entries);
            entries.truncate(keep as usize);
            self.entries = entries;
        }
        let ghost kept = old(self)@.truncated(keep as nat).entries;
        assert(self@.entries =~= kept);
        if self.durable {
            let mut pending: Vec<u8> = Vec::new();
            std::mem::swap(&mut pending, &mut self.unsynced);
            assert(self@ =~= old(self)@.truncated(keep as nat));
            let mut len: u64 = 12;
            let mut i: usize = 0;
            assert(kept.take(0) =~= Seq::empty());
            proof {
                lemma_auto_spec_u32_to_from_le_bytes();
                assert(header().len() == 12);
            }
            while i < self.entries.len()
                invariant
                    i <= self.entries@.len(),
                    entry_views(self.entries@) == kept,
                    len == 12 + frames(kept.take(i as int)).len(),
                    image(kept).len() <= u64::MAX,
                decreases self.entries@.len() - i,
            {
                let payload: Vec<u8> = self.entries[i].event.encode();
                proof {
                    let one = kept.take(i + 1);
                    assert(one.drop_last() =~= kept.take(i as int));
                    assert(one.last() == self.entries@[i as int]@);
                    lemma_frames_split(kept, i + 1);
                    lemma_auto_spec_u32_to_from_le_bytes();
                    assert(frame(one.last()).len() == 36 + payload@.len());
                }
                len = len + 36 + payload.len() as u64;
                i += 1;
            }
            assert(kept.take(kept.len() as int) =~= kept);
            Some(Cut { pending, len })
        } else {
            assert(self@ =~= old(self)@.truncated(keep as nat));
            None
        }
    }

    /// Replaces the stored event at `cursor` without touching its hash (for
    /// tamper-evidence tests).
    pub fn tamper(&mut self, cursor: Cursor, event: Event)
        ensures
            final(self)@ == old(self)@.tampered(cursor as nat, event@),
    {
        proof {
            use_type_invariant(&*self);
        }
        if cursor < self.entries.len() as u64 {
            let i: usize = cursor as usize;
            let mut entries: Vec<Entry> = Vec::new();
            std::mem::swap(&mut entries, &mut self.entries);
            let hash: Digest = entries[i].hash;
            entries[i] = Entry { cursor, event, hash };
            self.entries = entries;
            assert(self@ =~= old(self)@.tampered(cursor as nat, event@));
        }
    }
}

fn magic_bytes() -> (r: Vec<u8>)
    ensures
        r@ == magic(),
{
    let r: Vec<u8> = vec![80u8, 82, 65, 71, 74, 82, 78, 76];
    assert(r@ =~= magic());
    r
}

fn header_bytes() -> (r: Vec<u8>)
    ensures
        r@ == header(),
{
    let mut r: Vec<u8> = magic_bytes();
    let version: Vec<u8> = u32_to_le_bytes(1);
    r.extend_from_slice(version.as_slice());
    assert(r@ =~= header());
    r
}

/// Reads the record that starts at `pos` as the entry at `cursor`: `None` if
/// `bytes` ends inside it, else the entry and the position of the next record.
fn next_entry(
    bytes: &[u8],
    pos: usize,
    key: Option<&[u8]>,
    prev: &Digest,
    cursor: Cursor,
) -> (r: Result<Option<(Entry, usize)>, Fault>)
    requires
        pos <= bytes.len(),
    ensures
        ({
            let k = match key {
                Some(k) => Some(k@),
                None => None,
            };
            let rest = bytes@.skip(pos as int);
            match r {
                Err(f) => scan(k, prev@, cursor as nat, rest) == Err::<
                    (Seq<EntryView>, nat),
                    FaultView,
                >(f@),
                Ok(None) => first_frame(rest) is None,
                Ok(Some((e, next))) => {
                    &&& pos < next <= bytes.len()
                    &&& e.cursor == cursor
                    &&& scan(k, prev@, cursor as nat, rest) == put_before(
                        seq![e@],
                        scan(k, e@.hash, cursor as nat + 1, bytes@.skip(next as int)),
                    )
                },
            }
        }),
{
    let ghost rest = bytes@.skip(pos as int);
    if bytes.len() - pos < 4 {
        return Ok(None);
    }
    let head = vstd::slice::slice_subrange(bytes, pos, pos + 4);
    assert(head@ =~= rest.take(4));
    let len: u32 = u32_from_le_bytes(head);
    if ((bytes.len() - pos) as u64) < 36 + len as u64 {
        return Ok(None);
    }
    let n: usize = len as usize;
    let payload = vstd::slice::slice_subrange(bytes, pos + 4, pos + 4 + n);
    assert(payload@ =~= rest.subrange(4, 4 + n));
    let stored = vstd::slice::slice_subrange(bytes, pos + 4 + n, pos + 36 + n);
    assert(stored@ =~= rest.subrange(4 + n, 36 + n));
    let next: usize = pos + 36 + n;
    assert(bytes@.skip(next as int) =~= rest.skip(36 + n));
    let hash = chain_hash(key, prev, cursor, payload);
    if !text::same_bytes(stored, hash.as_slice()) {
        let c = text::decimal_text(cursor);
        return Err(Fault::Io("journal hash chain broken at cursor ".to_owned().concat(c.as_str())));
    }
    match Event::decode(payload) {
        None => {
            let c = text::decimal_text(cursor);
            Err(Fault::Io("undecodable journal event at cursor ".to_owned().concat(c.as_str())))
        },
        Some(event) => Ok(Some((Entry { cursor, event, hash }, next))),
    }
}

/// What was read before, followed by what is read from there on.
spec fn put_before(
    done: Seq<EntryView>,
    more: Result<(Seq<EntryView>, nat), FaultView>,
) -> Result<(Seq<EntryView>, nat), FaultView> {
    match more {
        Ok((entries, torn)) => Ok((done + entries, torn)),
        Err(f) => Err(f),
    }
}

proof fn lemma_put_before_nothing(more: Result<(Seq<EntryView>, nat), FaultView>)
    ensures
        put_before(Seq::empty(), more) == more,
{
    if let Ok((entries, torn)) = more {
        assert(Seq::<EntryView>::empty() + entries =~= entries);
    }
}

proof fn lemma_put_before_one(
    done: Seq<EntryView>,
    e: EntryView,
    more: Result<(Seq<EntryView>, nat), FaultView>,
)
    ensures
        put_before(done, put_before(seq![e], more)) == put_before(done.push(e), more),
{
    if let Ok((entries, torn)) = more {
        assert(done + (seq![e] + entries) =~= done.push(e) + entries);
    }
}

/// The records of a prefix are a prefix of the records.
proof fn lemma_frames_split(entries: Seq<EntryView>, n: int)
    requires
        0 <= n <= entries.len(),
    ensures
        frames(entries) == frames(entries.take(n)) + frames_from(entries, n),
        frames(entries.take(n)).len() <= frames(entries).len(),
    decreases entries.len(),
{
    if n == entries.len() {
        assert(entries.take(n) =~= entries);
        assert(frames(entries) + Seq::empty() =~= frames(entries));
    } else {
        lemma_frames_split(entries.drop_last(), n);
        assert(entries.drop_last().take(n) =~= entries.take(n));
        assert(frames(entries) =~= frames(entries.take(n)) + frames_from(entries, n));
    }
}

spec fn frames_from(entries: Seq<EntryView>, n: int) -> Seq<u8>
    decreases entries.len(),
{
    if entries.len() == 0 || n >= entries.len() {
        Seq::empty()
    } else {
        frames_from(entries.drop_last(), n) + frame(entries.last())
    }
}

} // verus!
