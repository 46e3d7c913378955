//! What holds of every journal: the chain, the bytes on stable storage, and
//! the evidence that tampering leaves.
use vstd::bytes::*;
use vstd::prelude::*;

use crate::event;
use crate::event::{Event, EventView};
use crate::fault::{Fault, FaultView};
use crate::journal;
use crate::journal::{Cut, Entry, EntryView, Journal, JournalView, Loaded};
use crate::sha256;

verus! {

/// Are these entries such as a journal holds: digests of 32 bytes, events
/// whose fields fit, payloads whose length fits its 32-bit prefix?
pub open spec fn well_sized(entries: Seq<EntryView>) -> bool {
    forall|i: int| 0 <= i < entries.len() ==> well_sized_entry(#[trigger] entries[i])
}

/// Is this entry such as a journal holds?
pub open spec fn well_sized_entry(e: EntryView) -> bool {
    e.hash.len() == 32 && e.event.fits() && e.event.encode().len() <= u32::MAX
}

/// Are these two different inputs with the same hash under the chain's
/// function?
pub open spec fn collision(key: Option<Seq<u8>>, x: Seq<u8>, y: Seq<u8>) -> bool {
    x != y && journal::chain_digest(key, x) == journal::chain_digest(key, y)
}

/// Is `disk`, with what the journal has still to write, the journal's image?
pub open spec fn stored(j: JournalView, disk: Seq<u8>) -> bool {
    disk + j.unsynced == journal::image(j.entries)
}

/// A new journal's chain is intact.
pub proof fn law_new_chain_holds(key: Option<Seq<u8>>)
    ensures
        JournalView::in_memory(key).intact(),
        JournalView::created(key).intact(),
{
}

/// Appending keeps an intact chain intact.
pub proof fn law_append_keeps_chain(j: JournalView, e: EventView)
    requires
        j.intact(),
    ensures
        j.append(e).intact(),
{
    let k = j.append(e);
    assert forall|i: int| 0 <= i < k.entries.len() implies #[trigger] journal::link_holds(
        k.key,
        k.entries,
        i,
    ) by {
        assert(journal::hash_before(k.entries, i) == journal::hash_before(j.entries, i));
        if i < j.entries.len() {
            assert(journal::link_holds(j.key, j.entries, i));
        }
    }
}

/// Cutting a journal back keeps an intact chain intact.
pub proof fn law_truncate_keeps_chain(j: JournalView, keep: nat)
    requires
        j.intact(),
    ensures
        j.truncated(keep).intact(),
{
    let k = j.truncated(keep);
    assert forall|i: int| 0 <= i < k.entries.len() implies #[trigger] journal::link_holds(
        k.key,
        k.entries,
        i,
    ) by {
        assert(journal::hash_before(k.entries, i) == journal::hash_before(j.entries, i));
        assert(journal::link_holds(j.key, j.entries, i));
    }
}

/// Appending never touches what is there: the old entries are a prefix of the
/// new ones.
pub proof fn law_append_only(j: JournalView, e: EventView)
    ensures
        j.append(e).entries.len() == j.entries.len() + 1,
        j.append(e).entries.take(j.entries.len() as int) == j.entries,
        j.append(e).entries.last().event == e,
{
    assert(j.append(e).entries.take(j.entries.len() as int) =~= j.entries);
}

/// A new durable journal owes its whole image.
pub proof fn law_created_is_stored(key: Option<Seq<u8>>)
    ensures
        stored(JournalView::created(key), Seq::empty()),
{
    assert(journal::frames(Seq::empty()) =~= Seq::<u8>::empty());
    assert(Seq::<u8>::empty() + journal::header() =~= journal::image(Seq::empty()));
}

/// Appending to a durable journal owes exactly the new record.
pub proof fn law_append_is_stored(j: JournalView, e: EventView, disk: Seq<u8>)
    requires
        j.durable,
        stored(j, disk),
    ensures
        stored(j.append(e), disk),
{
    let k = j.append(e);
    assert(k.entries.drop_last() =~= j.entries);
    assert(disk + k.unsynced =~= (disk + j.unsynced) + journal::frame(k.entries.last()));
    assert(journal::image(k.entries) =~= journal::image(j.entries) + journal::frame(
        k.entries.last(),
    ));
}

/// Writing what `sync` hands over brings the disk up to date.
pub proof fn law_sync_is_stored(j: JournalView, disk: Seq<u8>)
    requires
        stored(j, disk),
    ensures
        stored((JournalView { unsynced: Seq::empty(), ..j }), disk + j.unsynced),
        disk + j.unsynced == journal::image(j.entries),
{
    assert(disk + j.unsynced + Seq::empty() =~= disk + j.unsynced);
}

/// The image of the first `n` entries is a prefix of the image.
pub proof fn lemma_image_prefix(entries: Seq<EntryView>, n: int)
    requires
        0 <= n <= entries.len(),
    ensures
        journal::image(entries.take(n)).len() <= journal::image(entries).len(),
        journal::image(entries).take(journal::image(entries.take(n)).len() as int)
            == journal::image(entries.take(n)),
    decreases entries.len() - n,
{
    if n == entries.len() {
        assert(entries.take(n) =~= entries);
        assert(journal::image(entries).take(journal::image(entries).len() as int)
            =~= journal::image(entries));
    } else {
        lemma_image_prefix(entries, n + 1);
        let one = entries.take(n + 1);
        assert(one.drop_last() =~= entries.take(n));
        let small = journal::image(entries.take(n));
        let mid = journal::image(one);
        assert(mid =~= small + journal::frame(one.last()));
        assert(journal::image(entries).take(small.len() as int) =~= mid.take(small.len() as int));
        assert(mid.take(small.len() as int) =~= small);
    }
}

/// Cutting the file as `truncate` says leaves the image of the entries kept.
pub proof fn law_truncate_is_stored(j: JournalView, keep: nat, disk: Seq<u8>)
    requires
        j.durable,
        stored(j, disk),
    ensures
        stored(
            j.truncated(keep),
            (disk + j.unsynced).take(journal::image(j.truncated(keep).entries).len() as int),
        ),
{
    let kept = j.truncated(keep).entries;
    if keep < j.entries.len() {
        lemma_image_prefix(j.entries, keep as int);
    } else {
        lemma_image_prefix(j.entries, j.entries.len() as int);
        assert(j.entries.take(j.entries.len() as int) =~= j.entries);
    }
    let cut = (disk + j.unsynced).take(journal::image(kept).len() as int);
    assert(cut + Seq::empty() =~= cut);
}

/// A whole record is read back, whatever follows it.
proof fn lemma_first_frame(e: EntryView, rest: Seq<u8>)
    requires
        well_sized_entry(e),
    ensures
        journal::first_frame(journal::frame(e) + rest) == Some((e.event.encode(), e.hash, rest)),
{
    lemma_auto_spec_u32_to_from_le_bytes();
    let bytes = journal::frame(e) + rest;
    let payload = e.event.encode();
    let n = spec_u32_to_le_bytes(payload.len() as u32);
    assert(n.len() == 4);
    assert(bytes.take(4) =~= n);
    assert(bytes.subrange(4, 4 + payload.len() as int) =~= payload);
    assert(bytes.subrange(4 + payload.len() as int, 36 + payload.len() as int) =~= e.hash);
    assert(bytes.skip(36 + payload.len() as int) =~= rest);
}

/// Of a record cut short, nothing is read.
pub proof fn law_torn_record(e: EntryView, k: int)
    requires
        well_sized_entry(e),
        0 <= k < journal::frame(e).len(),
    ensures
        journal::first_frame(journal::frame(e).take(k)) is None,
{
    lemma_auto_spec_u32_to_from_le_bytes();
    let payload = e.event.encode();
    let n = spec_u32_to_le_bytes(payload.len() as u32);
    assert(n.len() == 4);
    if k >= 4 {
        assert(journal::frame(e).take(k).take(4) =~= n);
    }
}

/// The records from entry `n` on.
spec fn records_from(entries: Seq<EntryView>, n: nat) -> Seq<u8>
    decreases entries.len() - n,
{
    if n >= entries.len() {
        Seq::empty()
    } else {
        journal::frame(entries[n as int]) + records_from(entries, n + 1)
    }
}

proof fn lemma_records(entries: Seq<EntryView>, n: nat)
    requires
        n <= entries.len(),
    ensures
        journal::frames(entries) == journal::frames(entries.take(n as int)) + records_from(
            entries,
            n,
        ),
    decreases entries.len() - n,
{
    if n == entries.len() {
        assert(entries.take(n as int) =~= entries);
        assert(journal::frames(entries) + Seq::empty() =~= journal::frames(entries));
    } else {
        lemma_records(entries, n + 1);
        let one = entries.take(n as int + 1);
        assert(one.drop_last() =~= entries.take(n as int));
        assert(journal::frames(one) + records_from(entries, n + 1) =~= journal::frames(
            entries.take(n as int),
        ) + (journal::frame(one.last()) + records_from(entries, n + 1)));
    }
}

proof fn lemma_scan_reads_back(
    key: Option<Seq<u8>>,
    entries: Seq<EntryView>,
    n: nat,
    tail: Seq<u8>,
)
    requires
        n <= entries.len(),
        well_sized(entries),
        journal::chain_holds(key, entries),
        journal::first_frame(tail) is None,
    ensures
        journal::scan(
            key,
            journal::hash_before(entries, n as int),
            n,
            records_from(entries, n) + tail,
        ) == Ok::<(Seq<EntryView>, nat), FaultView>((entries.skip(n as int), tail.len())),
    decreases entries.len() - n,
{
    if n == entries.len() {
        assert(records_from(entries, n) + tail =~= tail);
        assert(entries.skip(n as int) =~= Seq::empty());
    } else {
        let e = entries[n as int];
        let rest = records_from(entries, n + 1) + tail;
        lemma_scan_reads_back(key, entries, n + 1, tail);
        assert(records_from(entries, n) + tail =~= journal::frame(e) + rest);
        lemma_first_frame(e, rest);
        assert(journal::link_holds(key, entries, n as int));
        event::law_decode_encode(e.event);
        assert(seq![e] + entries.skip(n as int + 1) =~= entries.skip(n as int));
        assert((EntryView { event: e.event, hash: e.hash }) == e);
    }
}

/// What was written is what is read: the image of an intact journal, followed
/// by any unfinished record, opens as the same entries, and the unfinished
/// record is reported as torn.
pub proof fn law_open_reads_back(key: Option<Seq<u8>>, entries: Seq<EntryView>, tail: Seq<u8>)
    requires
        well_sized(entries),
        journal::chain_holds(key, entries),
        journal::first_frame(tail) is None,
    ensures
        journal::read_image(key, journal::image(entries) + tail) == Ok::<
            (Seq<EntryView>, nat),
            FaultView,
        >((entries, tail.len())),
{
    lemma_auto_spec_u32_to_from_le_bytes();
    let bytes = journal::image(entries) + tail;
    let version = spec_u32_to_le_bytes(1);
    assert(version.len() == 4);
    assert(bytes.take(8) =~= journal::magic());
    assert(bytes.subrange(8, 12) =~= version);
    lemma_records(entries, 0);
    assert(entries.take(0) =~= Seq::empty());
    assert(bytes.skip(12) =~= records_from(entries, 0) + tail);
    lemma_scan_reads_back(key, entries, 0, tail);
    assert(entries.skip(0) =~= entries);
}

/// A crash in the middle of an append loses that record and nothing else.
pub proof fn law_crash_mid_append(j: JournalView, e: EventView, k: int)
    requires
        j.intact(),
        well_sized(j.append(e).entries),
        0 <= k < journal::frame(j.next_entry(e)).len(),
    ensures
        journal::read_image(
            j.key,
            journal::image(j.entries) + journal::frame(j.next_entry(e)).take(k),
        ) == Ok::<(Seq<EntryView>, nat), FaultView>((j.entries, k as nat)),
{
    let all = j.append(e).entries;
    assert(well_sized_entry(all[all.len() - 1]));
    assert forall|i: int| 0 <= i < j.entries.len() implies well_sized_entry(
        #[trigger] j.entries[i],
    ) by {
        assert(all[i] == j.entries[i]);
    }
    law_torn_record(j.next_entry(e), k);
    law_open_reads_back(j.key, j.entries, journal::frame(j.next_entry(e)).take(k));
}

/// Does the entry at `i` carry the hash that the chain demands, if `entries`
/// follow the entry with hash `prev` and start at `cursor`?
spec fn linked(
    key: Option<Seq<u8>>,
    prev: Seq<u8>,
    cursor: nat,
    entries: Seq<EntryView>,
    i: int,
) -> bool {
    entries[i].hash == journal::link(
        key,
        if i == 0 {
            prev
        } else {
            entries[i - 1].hash
        },
        (cursor + i) as nat,
        entries[i].event.encode(),
    )
}

proof fn lemma_scan_sound(key: Option<Seq<u8>>, prev: Seq<u8>, cursor: nat, bytes: Seq<u8>)
    ensures
        journal::scan(key, prev, cursor, bytes) matches Ok((entries, torn)) ==> {
            &&& torn <= bytes.len()
            &&& journal::first_frame(bytes.skip(bytes.len() - torn)) is None
            &&& bytes.take(bytes.len() - torn) == records_from(entries, 0)
            &&& forall|i: int| 0 <= i < entries.len() ==> (#[trigger] entries[i]).event.fits()
            &&& forall|i: int|
                0 <= i < entries.len() ==> #[trigger] linked(key, prev, cursor, entries, i)
        },
    decreases bytes.len(),
{
    lemma_auto_spec_u32_to_from_le_bytes();
    if let Ok((entries, torn)) = journal::scan(key, prev, cursor, bytes) {
        match journal::first_frame(bytes) {
            None => {
                assert(bytes.skip(0) =~= bytes);
                assert(bytes.take(0) =~= Seq::empty());
            },
            Some((payload, hash, rest)) => {
                lemma_scan_sound(key, hash, cursor + 1, rest);
                let more = journal::scan(key, hash, cursor + 1, rest)->Ok_0.0;
                let e = EntryView { event: EventView::decode(payload).unwrap(), hash };
                event::law_encode_decode(payload);
                let n = spec_u32_from_le_bytes(bytes.take(4));
                assert(entries =~= seq![e] + more);
                assert(bytes.skip(bytes.len() - torn) =~= rest.skip(rest.len() - torn));
                assert(bytes.take(4) == spec_u32_to_le_bytes(n));
                assert(bytes.take(36 + n) =~= journal::frame(e));
                lemma_records_shift(e, more, 0);
                assert(bytes.take(bytes.len() - torn) =~= bytes.take(36 + n) + rest.take(
                    rest.len() - torn,
                ));
                assert forall|i: int| 0 <= i < entries.len() implies #[trigger] linked(
                    key,
                    prev,
                    cursor,
                    entries,
                    i,
                ) by {
                    if i > 0 {
                        assert(entries[i] == more[i - 1]);
                        assert(linked(key, hash, cursor + 1, more, i - 1));
                    }
                }
                assert forall|i: int| 0 <= i < entries.len() implies (
                #[trigger] entries[i]).event.fits() by {
                    if i > 0 {
                        assert(entries[i] == more[i - 1]);
                    }
                }
            },
        }
    }
}

proof fn lemma_records_shift(e: EntryView, more: Seq<EntryView>, n: nat)
    requires
        n <= more.len(),
    ensures
        records_from(seq![e] + more, n + 1) == records_from(more, n),
    decreases more.len() - n,
{
    if n < more.len() {
        lemma_records_shift(e, more, n + 1);
        assert((seq![e] + more)[n as int + 1] == more[n as int]);
    }
}

/// The bytes before the torn tail are the image of the entries read.
proof fn lemma_read_image_bytes(key: Option<Seq<u8>>, bytes: Seq<u8>)
    ensures
        journal::read_image(key, bytes) matches Ok((entries, torn)) ==> torn <= bytes.len()
            && bytes.take(bytes.len() - torn) == journal::image(entries),
{
    if let Ok((entries, torn)) = journal::read_image(key, bytes) {
        let body = bytes.skip(12);
        lemma_scan_sound(key, journal::genesis(), 0, body);
        lemma_records(entries, 0);
        assert(entries.take(0) =~= Seq::empty());
        let version = bytes.subrange(8, 12);
        assert(version == spec_u32_to_le_bytes(1)) by {
            lemma_auto_spec_u32_to_from_le_bytes();
            assert(version.len() == 4);
        }
        assert(bytes.take(12) =~= journal::magic() + version);
        assert(journal::frames(entries) =~= records_from(entries, 0));
        let good = bytes.take(bytes.len() - torn);
        assert(good =~= bytes.take(12) + body.take(body.len() - torn));
    }
}

/// Only what an intact journal wrote can be opened: the bytes are the image of
/// the entries that come out and an unfinished record, and the chain of those
/// entries is intact.
pub proof fn law_opened_is_intact(key: Option<Seq<u8>>, bytes: Seq<u8>)
    ensures
        journal::read_image(key, bytes) matches Ok((entries, torn)) ==> {
            &&& journal::chain_holds(key, entries)
            &&& torn <= bytes.len()
            &&& bytes.take(bytes.len() - torn) == journal::image(entries)
            &&& stored(JournalView::opened(key, entries), bytes.take(bytes.len() - torn))
        },
{
    lemma_read_image_bytes(key, bytes);
    if let Ok((entries, torn)) = journal::read_image(key, bytes) {
        let good = bytes.take(bytes.len() - torn);
        assert(good + Seq::empty() =~= good);
        assert(journal::chain_holds(key, entries)) by {
            lemma_scan_sound(key, journal::genesis(), 0, bytes.skip(12));
            assert forall|i: int| 0 <= i < entries.len() implies #[trigger] journal::link_holds(
                key,
                entries,
                i,
            ) by {
                assert(linked(key, journal::genesis(), 0, entries, i));
            }
        }
    }
}

/// A journal keyed under one key does not open under another: the first link
/// is refused, unless the two keys happen to give the first entry the same
/// hash.
pub proof fn law_wrong_key_is_refused(
    key: Option<Seq<u8>>,
    other: Option<Seq<u8>>,
    entries: Seq<EntryView>,
    tail: Seq<u8>,
)
    requires
        entries.len() > 0,
        well_sized(entries),
        journal::chain_holds(key, entries),
        journal::chain_digest(
            key,
            journal::link_input(journal::genesis(), 0, entries[0].event.encode()),
        ) != journal::chain_digest(
            other,
            journal::link_input(journal::genesis(), 0, entries[0].event.encode()),
        ),
    ensures
        journal::read_image(other, journal::image(entries) + tail) == Err::<
            (Seq<EntryView>, nat),
            FaultView,
        >(journal::broken_at(0)),
{
    lemma_auto_spec_u32_to_from_le_bytes();
    let bytes = journal::image(entries) + tail;
    let version = spec_u32_to_le_bytes(1);
    assert(version.len() == 4);
    assert(bytes.take(8) =~= journal::magic());
    assert(bytes.subrange(8, 12) =~= version);
    lemma_records(entries, 0);
    assert(entries.take(0) =~= Seq::empty());
    let rest = records_from(entries, 1) + tail;
    assert(bytes.skip(12) =~= journal::frame(entries[0]) + rest);
    lemma_first_frame(entries[0], rest);
    assert(journal::link_holds(key, entries, 0));
}

/// Any edit of a committed event breaks the chain at that event, and every
/// link before it still holds; otherwise the edit has found a collision of the
/// hash function.
pub proof fn law_tampering_breaks_the_chain(j: JournalView, c: nat, forged: EventView)
    requires
        j.intact(),
        c < j.entries.len(),
        j.entries[c as int].event.fits(),
        forged.fits(),
        forged != j.entries[c as int].event,
    ensures
        ({
            let t = j.tampered(c, forged);
            let prev = journal::hash_before(j.entries, c as int);
            &&& forall|i: int| 0 <= i < c ==> #[trigger] journal::link_holds(t.key, t.entries, i)
            &&& !journal::link_holds(t.key, t.entries, c as int) || collision(
                j.key,
                journal::link_input(prev, c, j.entries[c as int].event.encode()),
                journal::link_input(prev, c, forged.encode()),
            )
        }),
{
    let t = j.tampered(c, forged);
    let prev = journal::hash_before(j.entries, c as int);
    let was = j.entries[c as int].event.encode();
    assert forall|i: int| 0 <= i < c implies #[trigger] journal::link_holds(
        t.key,
        t.entries,
        i,
    ) by {
        assert(journal::link_holds(j.key, j.entries, i));
        assert(journal::hash_before(t.entries, i) == journal::hash_before(j.entries, i));
    }
    assert(journal::hash_before(t.entries, c as int) == prev);
    assert(journal::link_holds(j.key, j.entries, c as int));
    if journal::link_input(prev, c, was) == journal::link_input(prev, c, forged.encode()) {
        let head = prev + spec_u64_to_le_bytes(c as u64);
        let a = journal::link_input(prev, c, was);
        let b = journal::link_input(prev, c, forged.encode());
        assert(a.skip(head.len() as int) =~= was);
        assert(b.skip(head.len() as int) =~= forged.encode());
        event::law_encode_injective(forged, j.entries[c as int].event);
    }
}

/// What the hash of the entry at `i` is taken of.
pub open spec fn hashed_at(entries: Seq<EntryView>, i: int) -> Seq<u8> {
    journal::link_input(journal::hash_before(entries, i), i as nat, entries[i].event.encode())
}

/// The head of the chain commits to the whole run: two intact journals of the
/// same length with the same head hold the same events, or their entries at
/// some cursor are a collision of the hash function.
pub proof fn law_head_commits_to_events(
    key: Option<Seq<u8>>,
    a: Seq<EntryView>,
    b: Seq<EntryView>,
)
    requires
        a.len() == b.len(),
        well_sized(a),
        well_sized(b),
        journal::chain_holds(key, a),
        journal::chain_holds(key, b),
        a.len() > 0 ==> a.last().hash == b.last().hash,
    ensures
        a == b || exists|i: int|
            0 <= i < a.len() && collision(key, #[trigger] hashed_at(a, i), hashed_at(b, i)),
    decreases a.len(),
{
    if a.len() > 0 {
        let n = a.len() - 1;
        let x = hashed_at(a, n);
        let y = hashed_at(b, n);
        assert(journal::link_holds(key, a, n));
        assert(journal::link_holds(key, b, n));
        if x != y {
            assert(collision(key, x, y));
        } else {
            lemma_auto_spec_u64_to_from_le_bytes();
            let le = spec_u64_to_le_bytes(n as u64);
            assert(le.len() == 8);
            assert(journal::hash_before(a, n).len() == 32);
            assert(journal::hash_before(b, n).len() == 32);
            assert(x.take(32) =~= journal::hash_before(a, n));
            assert(y.take(32) =~= journal::hash_before(b, n));
            assert(x.skip(40) =~= a[n].event.encode());
            assert(y.skip(40) =~= b[n].event.encode());
            event::law_encode_injective(a[n].event, b[n].event);
            let p = a.drop_last();
            let q = b.drop_last();
            assert forall|i: int| 0 <= i < p.len() implies journal::link_holds(key, p, i) by {
                assert(journal::link_holds(key, a, i));
                assert(journal::hash_before(p, i) == journal::hash_before(a, i));
            }
            assert forall|i: int| 0 <= i < q.len() implies journal::link_holds(key, q, i) by {
                assert(journal::link_holds(key, b, i));
                assert(journal::hash_before(q, i) == journal::hash_before(b, i));
            }
            law_head_commits_to_events(key, p, q);
            if p == q {
                assert(a =~= p.push(a[n]));
                assert(b =~= q.push(b[n]));
                assert(a[n] == b[n]);
            } else {
                let i = choose|i: int|
                    0 <= i < p.len() && collision(key, #[trigger] hashed_at(p, i), hashed_at(q, i));
                assert(hashed_at(a, i) == hashed_at(p, i));
                assert(hashed_at(b, i) == hashed_at(q, i));
            }
        }
    } else {
        assert(a =~= b);
    }
}

/// What is hashed for a link tells all that went into it: the hash before, the
/// cursor and the payload. Two links are hashed alike only if they agree in all
/// three.
pub proof fn law_link_binds_its_place(
    prev: Seq<u8>,
    cursor: u64,
    payload: Seq<u8>,
    other_prev: Seq<u8>,
    other_cursor: u64,
    other_payload: Seq<u8>,
)
    requires
        prev.len() == 32,
        other_prev.len() == 32,
        journal::link_input(prev, cursor as nat, payload) == journal::link_input(
            other_prev,
            other_cursor as nat,
            other_payload,
        ),
    ensures
        prev == other_prev,
        cursor == other_cursor,
        payload == other_payload,
{
    lemma_auto_spec_u64_to_from_le_bytes();
    let a = journal::link_input(prev, cursor as nat, payload);
    let b = journal::link_input(other_prev, other_cursor as nat, other_payload);
    assert(prev =~= a.take(32));
    assert(other_prev =~= b.take(32));
    assert(spec_u64_to_le_bytes(cursor) =~= a.subrange(32, 40));
    assert(spec_u64_to_le_bytes(other_cursor) =~= b.subrange(32, 40));
    assert(payload =~= a.skip(40));
    assert(other_payload =~= b.skip(40));
}

/// A journal without a key is chained by the plain digest, and one with a key
/// by the digest under that key.
pub proof fn law_key_signs_the_chain(j: JournalView, e: EventView)
    ensures
        ({
            let n = j.entries.len();
            let prev = if n == 0 {
                Seq::new(32, |i: int| 0u8)
            } else {
                j.entries.last().hash
            };
            let input = prev + spec_u64_to_le_bytes(n as u64) + e.encode();
            let hash = j.append(e).entries.last().hash;
            match j.key {
                Some(k) => hash == sha256::hmac_spec(k, input),
                None => hash == sha256::sha256_spec(input),
            }
        }),
{
}

/// Bytes that are no journal are refused: too short for a header, another
/// magic, another version, or a first record whose hash does not fit it.
pub proof fn law_foreign_bytes_are_refused(key: Option<Seq<u8>>, bytes: Seq<u8>)
    ensures
        bytes.len() < 12 ==> journal::read_image(key, bytes) is Err,
        bytes.len() >= 12 && bytes.take(12) != journal::header() ==> journal::read_image(
            key,
            bytes,
        ) is Err,
        journal::read_image(key, bytes) matches Err(f) ==> f is Io,
        bytes == journal::header() ==> journal::read_image(key, bytes) == Ok::<
            (Seq<EntryView>, nat),
            FaultView,
        >((Seq::empty(), 0)),
{
    lemma_auto_spec_u32_to_from_le_bytes();
    let version = spec_u32_to_le_bytes(1);
    assert(version.len() == 4);
    if journal::read_image(key, bytes) is Ok {
        lemma_read_image_bytes(key, bytes);
        let (entries, torn) = journal::read_image(key, bytes)->Ok_0;
        assert(bytes.subrange(8, 12) =~= version);
        assert(bytes.take(12) =~= bytes.take(8) + version);
    } else {
        lemma_scan_fault(key, journal::genesis(), 0, bytes.skip(12));
    }
    if bytes == journal::header() {
        assert(bytes.take(8) =~= journal::magic());
        assert(bytes.subrange(8, 12) =~= version);
        assert(bytes.skip(12) =~= Seq::empty());
    }
}

proof fn lemma_scan_fault(key: Option<Seq<u8>>, prev: Seq<u8>, cursor: nat, bytes: Seq<u8>)
    ensures
        journal::scan(key, prev, cursor, bytes) matches Err(f) ==> f is Io,
    decreases bytes.len(),
{
    if let Some((payload, hash, rest)) = journal::first_frame(bytes) {
        lemma_scan_fault(key, hash, cursor + 1, rest);
    }
}

/// A truncated journal keeps its first entries, as many as it is told or as it
/// has, and its key; a tampered one differs in one event only.
pub proof fn law_truncation_and_tampering_are_exact(
    j: JournalView,
    keep: nat,
    c: nat,
    forged: EventView,
    i: int,
)
    ensures
        ({
            let t = j.truncated(keep);
            let f = j.tampered(c, forged);
            &&& t.entries.len() == (if keep < j.entries.len() {
                keep
            } else {
                j.entries.len()
            })
            &&& 0 <= i < t.entries.len() ==> t.entries[i] == j.entries[i]
            &&& t.key == j.key && t.durable == j.durable
            &&& f.entries.len() == j.entries.len() && f.key == j.key
            &&& 0 <= i < j.entries.len() && i != c ==> f.entries[i] == j.entries[i]
            &&& c < j.entries.len() ==> f.entries[c as int].event == forged
                && f.entries[c as int].hash == j.entries[c as int].hash
        }),
{
}

/// What is appended is what is read at the cursor that appending returned, and
/// the head of the chain is its hash. All that was there before is read as
/// before, and nothing is read behind it. An intact journal still verifies.
pub proof fn law_appended_event_is_read_back(
    before: Journal,
    after: Journal,
    event: Event,
    cursor: u64,
    at: u64,
    was: Option<&Entry>,
    now: Option<&Entry>,
    head: Option<sha256::Digest>,
    len: u64,
    checked: Result<(), u64>,
)
    requires
        exists|j: &mut Journal| #[trigger]
            call_ensures(Journal::append, (j, event), cursor) && *j == before && *final(j) == after,
        call_ensures(Journal::get, (&before, at), was),
        call_ensures(Journal::get, (&after, at), now),
        call_ensures(Journal::head, (&after,), head),
        call_ensures(Journal::len, (&after,), len),
        call_ensures(Journal::verify, (&after,), checked),
    ensures
        len == cursor + 1,
        at == cursor ==> was is None && (now matches Some(e) && e.event@ == event@ && e.cursor == at
            && (head matches Some(d) && d@ == e.hash@)),
        at < cursor ==> was is Some && (now matches Some(e) && e@ == was->0@ && e.cursor == at),
        at > cursor ==> was is None && now is None,
        before@.intact() ==> checked is Ok,
{
    let j = choose|j: &mut Journal| #[trigger]
        call_ensures(Journal::append, (j, event), cursor) && *j == before && *final(j) == after;
    assert(call_ensures(Journal::append, (j, event), cursor));
    if before@.intact() {
        law_append_keeps_chain(before@, event@);
    }
}

/// A durable journal starts with the eight letters `PRAGJRNL` and the number 1 in
/// four bytes, and the records of its entries follow.
pub proof fn law_journal_file_starts_with_its_header(entries: Seq<EntryView>)
    ensures
        ({
            let image = journal::image(entries);
            &&& image.len() >= 12
            &&& image.take(8) == seq![80u8, 82, 65, 71, 74, 82, 78, 76]
            &&& spec_u32_from_le_bytes(image.subrange(8, 12)) == 1
            &&& image.skip(12) == journal::frames(entries)
        }),
{
    lemma_auto_spec_u32_to_from_le_bytes();
    let version = spec_u32_to_le_bytes(1);
    assert(version.len() == 4);
    let image = journal::image(entries);
    assert(image.take(8) =~= seq![80u8, 82, 65, 71, 74, 82, 78, 76]);
    assert(image.subrange(8, 12) =~= version);
    assert(image.skip(12) =~= journal::frames(entries));
}

/// The record of an entry is the length of its payload in four bytes, the
/// payload and its hash.
pub proof fn law_record_holds_the_entry(e: EntryView)
    requires
        well_sized_entry(e),
    ensures
        ({
            let n = e.event.encode().len() as int;
            let record = journal::frame(e);
            &&& record.len() == n + 36
            &&& spec_u32_from_le_bytes(record.take(4)) == n
            &&& record.subrange(4, 4 + n) == e.event.encode()
            &&& record.skip(4 + n) == e.hash
        }),
{
    lemma_auto_spec_u32_to_from_le_bytes();
    let payload = e.event.encode();
    let n = payload.len() as int;
    let size = spec_u32_to_le_bytes(payload.len() as u32);
    let record = journal::frame(e);
    assert(size.len() == 4);
    assert(record.take(4) =~= size);
    assert(record.subrange(4, 4 + n) =~= payload);
    assert(record.skip(4 + n) =~= e.hash);
}

/// What a durable journal has written can be opened again under its key: the
/// journal that comes out holds the same entries, and the bytes of a record that
/// a crash cut off behind them are counted and left out.
pub proof fn law_written_journal_opens_again(
    j: JournalView,
    bytes: &[u8],
    key: &[u8],
    tail: Seq<u8>,
    plain: Result<Loaded, Fault>,
    keyed: Result<Loaded, Fault>,
)
    requires
        j.intact(),
        well_sized(j.entries),
        j.entries.len() <= u64::MAX,
        bytes@ == journal::image(j.entries) + tail,
        journal::first_frame(tail) is None,
        call_ensures(Journal::open, (bytes,), plain),
        call_ensures(Journal::open_keyed, (bytes, key), keyed),
    ensures
        j.key is None ==> (plain matches Ok(l) && l.journal@.entries == j.entries
            && l.journal@.key is None && l.journal@.durable && l.torn_bytes == tail.len()),
        j.key == Some(key@) ==> (keyed matches Ok(l) && l.journal@.entries == j.entries
            && l.journal@.key == j.key && l.journal@.durable && l.torn_bytes == tail.len()),
{
    law_open_reads_back(j.key, j.entries, tail);
}

/// A journal is cut back to its first entries. A durable one says what has still
/// to be written, and how long the file of what is kept is.
pub proof fn law_cut_is_the_length_of_what_is_kept(
    before: Journal,
    after: Journal,
    keep: u64,
    cut: Option<Cut>,
    i: int,
)
    requires
        exists|j: &mut Journal| #[trigger]
            call_ensures(Journal::truncate, (j, keep), cut) && *j == before && *final(j) == after,
    ensures
        after@.entries.len() <= keep,
        after@.entries.len() == keep || after@.entries.len() == before@.entries.len(),
        0 <= i < after@.entries.len() ==> after@.entries[i] == before@.entries[i],
        cut is Some <==> before@.durable,
        cut matches Some(c) ==> c.pending@ == before@.unsynced && c.len == journal::image(
            after@.entries,
        ).len(),
{
    let j = choose|j: &mut Journal| #[trigger]
        call_ensures(Journal::truncate, (j, keep), cut) && *j == before && *final(j) == after;
    assert(call_ensures(Journal::truncate, (j, keep), cut));
}

/// New journals are empty, under the key that they are given; only a durable one
/// has something to write, its header.
pub proof fn law_new_journals_are_empty(
    key: &[u8],
    a: Journal,
    b: Journal,
    c: Journal,
    d: Journal,
)
    requires
        call_ensures(Journal::in_memory, (), a),
        call_ensures(Journal::in_memory_keyed, (key,), b),
        call_ensures(Journal::create, (), c),
        call_ensures(Journal::create_keyed, (key,), d),
    ensures
        a@.entries.len() == 0 && b@.entries.len() == 0 && c@.entries.len() == 0
            && d@.entries.len() == 0,
        a@.key is None && b@.key == Some(key@) && c@.key is None && d@.key == Some(key@),
        !a@.durable && !b@.durable && c@.durable && d@.durable,
        a@.unsynced.len() == 0 && b@.unsynced.len() == 0,
        c@.unsynced == journal::image(Seq::empty()) && d@.unsynced == journal::image(Seq::empty()),
{
    let none = Seq::<EntryView>::empty();
    assert(journal::image(none) =~= journal::header());
}

/// What is handed over for writing is what was owed, and then nothing is owed;
/// the entries stay.
pub proof fn law_sync_hands_over_what_is_owed(before: Journal, after: Journal, bytes: Vec<u8>)
    requires
        exists|j: &mut Journal| #[trigger]
            call_ensures(Journal::sync, (j,), bytes) && *j == before && *final(j) == after,
    ensures
        bytes@ == before@.unsynced,
        after@.unsynced.len() == 0,
        after@.entries == before@.entries && after@.key == before@.key && after@.durable
            == before@.durable,
{
    let j = choose|j: &mut Journal| #[trigger]
        call_ensures(Journal::sync, (j,), bytes) && *j == before && *final(j) == after;
    assert(call_ensures(Journal::sync, (j,), bytes));
}

} // verus!
