use pragmatic::event::Event;
use pragmatic::fault::Fault;
use pragmatic::journal::{chain_hash, Journal};
use pragmatic::sha256::{hex, hmac_sha256, sha256};
use pragmatic::value::Value;

fn draw(p: &str, o: &str) -> Event {
    Event::OracleDraw {
        prompt: p.into(),
        outcome: o.into(),
        provenance: "test".into(),
    }
}

#[test]
fn encode_decode_roundtrip() {
    let events = vec![
        draw("plan the task", "step1;step2"),
        Event::ChannelRecv {
            channel: "c".into(),
            value: "hello".into(),
        },
        Event::EffectIntent {
            name: "write_report".into(),
            arg: "v1".into(),
        },
        Event::EffectCommit {
            name: "write_report".into(),
            result: "ok".into(),
        },
        Event::EffectCompensated {
            name: "write_report".into(),
        },
        Event::Clock { nanos: 123_456_789 },
    ];
    for ev in events {
        assert_eq!(Event::decode(&ev.encode()).unwrap(), ev);
    }
}

#[test]
fn encoding_of_a_program_marker_is_exact() {
    let ev = Event::Program {
        name: "ab".into(),
        hash: "c".into(),
    };
    let bytes = ev.encode();
    assert_eq!(Event::decode(&bytes), Some(ev));
    // Trailing bytes, a missing tail and an unknown tag are all refused.
    let mut longer = bytes.clone();
    longer.push(0);
    assert_eq!(Event::decode(&longer), None);
    assert_eq!(Event::decode(&bytes[..bytes.len() - 1]), None);
    assert_eq!(Event::decode(&[250, 0, 0, 0, 0]), None);
    assert_eq!(Event::decode(&[]), None);
}

#[test]
fn clock_encoding_is_little_endian() {
    let bytes = Event::Clock { nanos: 0x0102 }.encode();
    assert_eq!(bytes[1..], [2, 1, 0, 0, 0, 0, 0, 0]);
}

#[test]
fn non_utf8_names_do_not_decode() {
    let mut bytes = Event::EffectCompensated { name: "ab".into() }.encode();
    let n = bytes.len();
    bytes[n - 1] = 0xff;
    assert_eq!(Event::decode(&bytes), None);
}

#[test]
fn chain_verifies_and_detects_tamper() {
    let mut j = Journal::in_memory();
    for i in 0..10 {
        j.append(draw(&format!("p{i}"), &format!("o{i}")));
    }
    assert!(j.verify().is_ok());
    j.tamper(4, draw("p4", "FORGED"));
    assert_eq!(j.verify(), Err(4));
}

#[test]
fn keyed_chain_differs_from_unkeyed() {
    let mut a = Journal::in_memory();
    let mut b = Journal::in_memory_keyed(b"runtime-key");
    a.append(draw("p", "o"));
    b.append(draw("p", "o"));
    assert_ne!(a.head(), b.head());
}

#[test]
fn dangling_intent_detection() {
    let mut j = Journal::in_memory();
    j.append(Event::EffectIntent {
        name: "a".into(),
        arg: "x".into(),
    });
    j.append(Event::EffectCommit {
        name: "a".into(),
        result: "ok".into(),
    });
    j.append(Event::EffectIntent {
        name: "b".into(),
        arg: "y".into(),
    });
    let d = j.dangling_intents();
    assert_eq!(d.len(), 1);
    assert_eq!(d[0].1, "b");
    assert_eq!(d[0].0, 2);
}

#[test]
fn a_closing_event_settles_the_last_open_intent_of_its_name() {
    let mut j = Journal::in_memory();
    let intent = |arg: &str| Event::EffectIntent {
        name: "a".into(),
        arg: arg.into(),
    };
    j.append(intent("1"));
    j.append(intent("2"));
    j.append(Event::EffectCompensated { name: "a".into() });
    assert_eq!(j.dangling_intents(), vec![(0, "a".to_string())]);
}

#[test]
fn sha256_known_answers() {
    assert_eq!(
        hex(&sha256(b"")),
        "e3b0c44298fc1c149afbf4c8996fb92427ae41e4649b934ca495991b7852b855"
    );
    assert_eq!(
        hex(&sha256(b"abc")),
        "ba7816bf8f01cfea414140de5dae2223b00361a396177a9cb410ff61f20015ad"
    );
    assert_eq!(
        hex(&sha256(
            b"abcdbcdecdefdefgefghfghighijhijkijkljklmklmnlmnomnopnopq"
        )),
        "248d6a61d20638b8e5c026930c3e6039a33ce45964ff2167f6ecedd419db06c1"
    );
}

#[test]
fn hmac_known_answers() {
    assert_eq!(
        hex(&hmac_sha256(b"Jefe", b"what do ya want for nothing?")),
        "5bdcc146bf60754e6a042426089575c75a003f089d2739839dec58b964ec3843"
    );
    assert_eq!(
        hex(&hmac_sha256(
            &[0xaa; 131],
            b"Test Using Larger Than Block-Size Key - Hash Key First"
        )),
        "60e431591ee0b67f0d8a26aacbf5b77f8e0bc6213728c5140546040f0ee37f54"
    );
}

#[test]
fn the_first_link_hashes_genesis_cursor_and_payload() {
    let mut j = Journal::in_memory();
    let ev = draw("p", "o");
    let payload = ev.encode();
    j.append(ev);
    let mut msg = vec![0u8; 32];
    msg.extend_from_slice(&0u64.to_le_bytes());
    msg.extend_from_slice(&payload);
    assert_eq!(j.head(), Some(sha256(&msg)));
    assert_eq!(j.head(), Some(chain_hash(None, &[0; 32], 0, &payload)));
    let mut k = Journal::in_memory_keyed(b"key");
    k.append(draw("p", "o"));
    assert_eq!(k.head(), Some(hmac_sha256(b"key", &msg)));
}

/// A stored journal: what its `create` and `sync` calls handed over.
fn stored(n: u64, key: Option<&[u8]>) -> (Journal, Vec<u8>) {
    let mut j = match key {
        Some(k) => Journal::create_keyed(k),
        None => Journal::create(),
    };
    let mut disk = j.sync();
    for i in 0..n {
        j.append(draw(&format!("p{i}"), &format!("o{i}")));
        disk.extend(j.sync());
    }
    (j, disk)
}

#[test]
fn a_stored_journal_reads_back() {
    let (j, disk) = stored(5, None);
    let loaded = Journal::open(&disk).unwrap();
    assert_eq!(loaded.torn_bytes, 0);
    assert_eq!(loaded.journal.entries(), j.entries());
    assert_eq!(loaded.journal.head(), j.head());
    assert!(loaded.journal.verify().is_ok());
}

#[test]
fn a_torn_tail_is_dropped_at_every_cut() {
    let (_, disk) = stored(3, None);
    let (_, two) = stored(2, None);
    for cut in two.len()..disk.len() {
        let loaded = Journal::open(&disk[..cut]).unwrap();
        assert_eq!(loaded.journal.len(), 2, "cut at {cut}");
        assert_eq!(loaded.torn_bytes as usize, cut - two.len());
    }
}

#[test]
fn appending_after_a_torn_tail_continues_the_chain() {
    let (_, disk) = stored(3, None);
    let mut loaded = Journal::open(&disk[..disk.len() - 7]).unwrap().journal;
    assert_eq!(loaded.append(draw("q", "r")), 2);
    assert!(loaded.verify().is_ok());
}

#[test]
fn a_foreign_file_is_refused() {
    assert!(matches!(Journal::open(b"not a journal"), Err(Fault::Io(_))));
    assert!(matches!(Journal::open(b""), Err(Fault::Io(_))));
}

#[test]
fn a_broken_stored_chain_is_refused() {
    let (_, mut disk) = stored(3, None);
    let n = disk.len();
    disk[n - 1] ^= 1;
    assert!(Journal::open(&disk).is_err());
}

#[test]
fn a_journal_keyed_under_one_key_does_not_open_under_another() {
    let (j, disk) = stored(2, Some(b"org-signing-key"));
    let again = Journal::open_keyed(&disk, b"org-signing-key").unwrap();
    assert_eq!(again.journal.head(), j.head());
    assert!(Journal::open_keyed(&disk, b"some-other-key").is_err());
    assert!(Journal::open(&disk).is_err());
}

#[test]
fn truncation_keeps_a_prefix() {
    let (mut j, _) = stored(5, None);
    let head_of_two = stored(2, None).0.head();
    let cut = j.truncate(2).unwrap();
    assert_eq!(j.len(), 2);
    assert_eq!(j.head(), head_of_two);
    assert_eq!(cut.len as usize, stored(2, None).1.len());
    assert!(j.verify().is_ok());
    // Keeping more than there is keeps everything.
    assert_eq!(j.truncate(9).unwrap().len, cut.len);
    assert_eq!(j.len(), 2);
    assert!(Journal::in_memory().truncate(0).is_none());
}

#[test]
fn cursors_count_up_and_find_entries() {
    let mut j = Journal::in_memory();
    assert!(j.is_empty() && !j.is_durable() && j.head().is_none());
    assert_eq!(j.append(draw("a", "b")), 0);
    assert_eq!(j.append(draw("c", "d")), 1);
    assert_eq!(j.get(1).unwrap().event, draw("c", "d"));
    assert!(j.get(2).is_none());
    assert_eq!(j.entries().len(), 2);
}

#[test]
fn values_convert_and_compare() {
    let v = Value::from("hé");
    assert_eq!(v.len(), 3);
    assert_eq!(v.as_bytes(), "hé".as_bytes());
    assert_eq!(v.as_str(), "hé");
    assert_eq!(Value::new(vec![104u8, 0xff]).as_str(), "h\u{FFFD}");
    assert!(Value::default().is_empty());
    assert!(v.same(&Value::from("hé".to_string())));
    assert!(!v.same(&Value::from(vec![1u8, 2])));
}

#[test]
fn fault_messages() {
    assert_eq!(Fault::OracleErr("x".into()).to_string(), "oracle error: x");
    assert_eq!(Fault::ToolErr("x".into()).to_string(), "tool error: x");
    assert_eq!(Fault::Timeout.to_string(), "timeout");
    assert_eq!(Fault::BudgetExhausted.to_string(), "budget exhausted");
    assert_eq!(Fault::ContractViol("x".into()).to_string(), "contract violated: x");
    assert_eq!(Fault::CapabilityDenied("x".into()).to_string(), "capability denied: x");
    assert_eq!(
        Fault::Escalated(Box::new(Fault::Timeout)).to_string(),
        "escalated: timeout"
    );
    assert_eq!(
        Fault::JournalDesync {
            cursor: 7,
            expected: "a".into(),
            found: "b".into()
        }
        .to_string(),
        "journal desync at cursor 7: program asked for a, journal holds b"
    );
    assert_eq!(
        Fault::ReplayExhausted { cursor: 12 }.to_string(),
        "replay exhausted at cursor 12: recorded run ended here"
    );
    assert_eq!(Fault::Io("x".into()).to_string(), "io error: x");
}

#[test]
fn different_histories_have_different_heads() {
    let mut a = Journal::in_memory();
    let mut b = Journal::in_memory();
    let mut c = Journal::in_memory();
    a.append(draw("p", "1"));
    a.append(draw("p", "2"));
    b.append(draw("p", "2"));
    b.append(draw("p", "1"));
    c.append(draw("p", "1"));
    c.append(draw("p", "2"));
    assert_ne!(a.head(), b.head());
    assert_eq!(a.head(), c.head());
}

#[test]
fn different_events_have_different_encodings() {
    let a = draw("ab", "c").encode();
    let b = draw("a", "bc").encode();
    assert_ne!(a, b);
    let intent = Event::EffectIntent {
        name: "n".into(),
        arg: "v".into(),
    };
    let commit = Event::EffectCommit {
        name: "n".into(),
        result: "v".into(),
    };
    assert_ne!(intent.encode(), commit.encode());
}

#[test]
fn a_crash_in_the_middle_of_an_append_keeps_the_entries_before_it() {
    let (_, before) = stored(2, None);
    let (_, after) = stored(3, None);
    for written in before.len()..after.len() {
        let loaded = Journal::open(&after[..written]).unwrap();
        assert_eq!(loaded.journal.len(), 2);
        assert!(loaded.journal.verify().is_ok());
    }
}

#[test]
fn a_truncated_file_reads_back_as_the_prefix() {
    let (mut j, disk) = stored(4, None);
    let cut = j.truncate(3).unwrap();
    let loaded = Journal::open(&disk[..cut.len as usize]).unwrap();
    assert_eq!(loaded.torn_bytes, 0);
    assert_eq!(loaded.journal.entries(), j.entries());
}
