//! The journal's event alphabet and its stable binary encoding.
//!
//! Only externally determined outcomes are journaled. Deterministic
//! computation between events is reconstructed by re-execution during replay.
use vstd::bytes::*;
use vstd::prelude::*;
use vstd::utf8::*;

use crate::text;
use crate::value::Value;

verus! {

/// One externally determined outcome.
#[derive(Debug, PartialEq, Eq)]
pub enum Event {
    /// A realized oracle outcome: the model was called with `prompt` and the
    /// sampled completion was `outcome`. `provenance` identifies the model or
    /// sampler that produced it (for audit; not consulted during replay).
    OracleDraw { prompt: Value, outcome: Value, provenance: String },
    /// A value received on a channel.
    ChannelRecv { channel: String, value: Value },
    /// Write-ahead intent for a durable effect: journaled before the effect
    /// runs.
    EffectIntent { name: String, arg: Value },
    /// The effect's committed result, journaled after it succeeds. An
    /// `EffectIntent` without a matching `EffectCommit` is a dangling intent:
    /// a crash inside the write-ahead window.
    EffectCommit { name: String, result: Value },
    /// A saga compensation closed this effect's open intent. Tagged distinctly
    /// so that replay never undoes twice.
    EffectCompensated { name: String },
    /// A realized clock read.
    Clock { nanos: u64 },
    /// Identity of the agent program driving this run: its name and a hash of
    /// its source tokens. Replay checks it first.
    Program { name: String, hash: String },
}

/// What an [`Event`] says.
#[verifier::ext_equal]
pub enum EventView {
    OracleDraw { prompt: Seq<u8>, outcome: Seq<u8>, provenance: Seq<char> },
    ChannelRecv { channel: Seq<char>, value: Seq<u8> },
    EffectIntent { name: Seq<char>, arg: Seq<u8> },
    EffectCommit { name: Seq<char>, result: Seq<u8> },
    EffectCompensated { name: Seq<char> },
    Clock { nanos: u64 },
    Program { name: Seq<char>, hash: Seq<char> },
}

impl View for Event {
    type V = EventView;

    open spec fn view(&self) -> EventView {
        match self {
            Event::OracleDraw { prompt, outcome, provenance } => EventView::OracleDraw {
                prompt: prompt@,
                outcome: outcome@,
                provenance: provenance@,
            },
            Event::ChannelRecv { channel, value } => EventView::ChannelRecv {
                channel: channel@,
                value: value@,
            },
            Event::EffectIntent { name, arg } => EventView::EffectIntent { name: name@, arg: arg@ },
            Event::EffectCommit { name, result } => EventView::EffectCommit {
                name: name@,
                result: result@,
            },
            Event::EffectCompensated { name } => EventView::EffectCompensated { name: name@ },
            Event::Clock { nanos } => EventView::Clock { nanos: *nanos },
            Event::Program { name, hash } => EventView::Program { name: name@, hash: hash@ },
        }
    }
}

/// A length-prefixed field: the length as a little-endian 64-bit number, then
/// the bytes.
pub open spec fn field(b: Seq<u8>) -> Seq<u8> {
    spec_u64_to_le_bytes(b.len() as u64) + b
}

/// A length-prefixed text.
pub open spec fn text_field(s: Seq<char>) -> Seq<u8> {
    field(encode_utf8(s))
}

/// Can the length of `b` be written in 64 bits?
pub open spec fn short(b: Seq<u8>) -> bool {
    b.len() <= u64::MAX
}

impl EventView {
    /// The stable encoding: a tag, then the fields.
    pub open spec fn encode(self) -> Seq<u8> {
        match self {
            EventView::OracleDraw { prompt, outcome, provenance } => seq![1u8] + (field(prompt) + (
            field(outcome) + text_field(provenance))),
            EventView::ChannelRecv { channel, value } => seq![2u8] + (text_field(channel) + field(
                value,
            )),
            EventView::EffectIntent { name, arg } => seq![3u8] + (text_field(name) + field(arg)),
            EventView::EffectCommit { name, result } => seq![4u8] + (text_field(name) + field(
                result,
            )),
            EventView::EffectCompensated { name } => seq![5u8] + text_field(name),
            EventView::Clock { nanos } => seq![6u8] + spec_u64_to_le_bytes(nanos),
            EventView::Program { name, hash } => seq![7u8] + (text_field(name) + text_field(hash)),
        }
    }

    /// Do the lengths of all fields fit their prefixes? Every event in memory
    /// meets this.
    pub open spec fn fits(self) -> bool {
        match self {
            EventView::OracleDraw { prompt, outcome, provenance } => short(prompt) && short(outcome)
                && short(encode_utf8(provenance)),
            EventView::ChannelRecv { channel, value } => short(encode_utf8(channel)) && short(
                value,
            ),
            EventView::EffectIntent { name, arg } => short(encode_utf8(name)) && short(arg),
            EventView::EffectCommit { name, result } => short(encode_utf8(name)) && short(result),
            EventView::EffectCompensated { name } => short(encode_utf8(name)),
            EventView::Clock { nanos } => true,
            EventView::Program { name, hash } => short(encode_utf8(name)) && short(
                encode_utf8(hash),
            ),
        }
    }

    /// The event that `bytes` encode, if there is one.
    pub open spec fn decode(bytes: Seq<u8>) -> Option<EventView> {
        if exists|e: EventView| e.encodes_as(bytes) {
            Some(choose|e: EventView| e.encodes_as(bytes))
        } else {
            None
        }
    }

    /// Is `bytes` the encoding of this event?
    pub open spec fn encodes_as(self, bytes: Seq<u8>) -> bool {
        self.fits() && self.encode() == bytes
    }

    /// The event as it is quoted in messages.
    pub open spec fn quoted(self) -> Seq<char> {
        match self {
            EventView::OracleDraw { prompt, outcome, provenance } => "OracleDraw { prompt: "@
                + quoted_value(prompt) + ", outcome: "@ + quoted_value(outcome) + ", provenance: "@
                + text::debug_text(provenance) + " }"@,
            EventView::ChannelRecv { channel, value } => "ChannelRecv { channel: "@
                + text::debug_text(channel) + ", value: "@ + quoted_value(value) + " }"@,
            EventView::EffectIntent { name, arg } => "EffectIntent { name: "@ + text::debug_text(
                name,
            ) + ", arg: "@ + quoted_value(arg) + " }"@,
            EventView::EffectCommit { name, result } => "EffectCommit { name: "@ + text::debug_text(
                name,
            ) + ", result: "@ + quoted_value(result) + " }"@,
            EventView::EffectCompensated { name } => "EffectCompensated { name: "@
                + text::debug_text(name) + " }"@,
            EventView::Clock { nanos } => "Clock { nanos: "@ + text::decimal(nanos as nat) + " }"@,
            EventView::Program { name, hash } => "Program { name: "@ + text::debug_text(name)
                + ", hash: "@ + text::debug_text(hash) + " }"@,
        }
    }
}

/// A value as it is quoted in messages.
pub open spec fn quoted_value(v: Seq<u8>) -> Seq<char> {
    "Value("@ + text::debug_text(text::lossy_text(v)) + ")"@
}

/// The first field of `s` and what follows it.
spec fn first_field(s: Seq<u8>) -> Option<(Seq<u8>, Seq<u8>)> {
    if s.len() < 8 {
        None
    } else {
        let n = spec_u64_from_le_bytes(s.take(8));
        if s.len() - 8 < n {
            None
        } else {
            Some((s.subrange(8, 8 + n), s.skip(8 + n)))
        }
    }
}

/// The first text field of `s` and what follows it.
spec fn first_text(s: Seq<u8>) -> Option<(Seq<char>, Seq<u8>)> {
    match first_field(s) {
        Some((b, rest)) if valid_utf8(b) => Some((decode_utf8(b), rest)),
        _ => None,
    }
}

/// Decoding, field by field.
spec fn parse(bytes: Seq<u8>) -> Option<EventView> {
    if bytes.len() == 0 {
        None
    } else {
        let body = bytes.skip(1);
        if bytes[0] == 1 {
            match first_field(body) {
                Some((prompt, s1)) => match first_field(s1) {
                    Some((outcome, s2)) => match first_text(s2) {
                        Some((provenance, s3)) if s3.len() == 0 => Some(
                            EventView::OracleDraw { prompt, outcome, provenance },
                        ),
                        _ => None,
                    },
                    None => None,
                },
                None => None,
            }
        } else if bytes[0] == 2 {
            match first_text(body) {
                Some((channel, s1)) => match first_field(s1) {
                    Some((value, s2)) if s2.len() == 0 => Some(
                        EventView::ChannelRecv { channel, value },
                    ),
                    _ => None,
                },
                None => None,
            }
        } else if bytes[0] == 3 {
            match first_text(body) {
                Some((name, s1)) => match first_field(s1) {
                    Some((arg, s2)) if s2.len() == 0 => Some(EventView::EffectIntent { name, arg }),
                    _ => None,
                },
                None => None,
            }
        } else if bytes[0] == 4 {
            match first_text(body) {
                Some((name, s1)) => match first_field(s1) {
                    Some((result, s2)) if s2.len() == 0 => Some(
                        EventView::EffectCommit { name, result },
                    ),
                    _ => None,
                },
                None => None,
            }
        } else if bytes[0] == 5 {
            match first_text(body) {
                Some((name, s1)) if s1.len() == 0 => Some(EventView::EffectCompensated { name }),
                _ => None,
            }
        } else if bytes[0] == 6 {
            if body.len() == 8 {
                Some(EventView::Clock { nanos: spec_u64_from_le_bytes(body) })
            } else {
                None
            }
        } else if bytes[0] == 7 {
            match first_text(body) {
                Some((name, s1)) => match first_text(s1) {
                    Some((hash, s2)) if s2.len() == 0 => Some(EventView::Program { name, hash }),
                    _ => None,
                },
                None => None,
            }
        } else {
            None
        }
    }
}

proof fn lemma_field_reads_back(b: Seq<u8>, rest: Seq<u8>)
    requires
        short(b),
    ensures
        first_field(field(b) + rest) == Some((b, rest)),
{
    lemma_auto_spec_u64_to_from_le_bytes();
    let s = field(b) + rest;
    let n = spec_u64_to_le_bytes(b.len() as u64);
    assert(n.len() == 8);
    assert(s.take(8) =~= n);
    assert(s.subrange(8, 8 + b.len() as int) =~= b);
    assert(s.skip(8 + b.len() as int) =~= rest);
}

proof fn lemma_text_reads_back(t: Seq<char>, rest: Seq<u8>)
    requires
        short(encode_utf8(t)),
    ensures
        first_text(text_field(t) + rest) == Some((t, rest)),
{
    lemma_field_reads_back(encode_utf8(t), rest);
    encode_utf8_valid_utf8(t);
    encode_utf8_decode_utf8(t);
}

proof fn lemma_field_splits(s: Seq<u8>)
    ensures
        first_field(s) matches Some((b, rest)) ==> short(b) && s == field(b) + rest,
{
    lemma_auto_spec_u64_to_from_le_bytes();
    if let Some((b, rest)) = first_field(s) {
        assert(s.take(8).len() == 8);
        assert(s =~= s.take(8) + b + rest);
        assert(s =~= field(b) + rest);
    }
}

proof fn lemma_text_splits(s: Seq<u8>)
    ensures
        first_text(s) matches Some((t, rest)) ==> short(encode_utf8(t)) && s == text_field(t)
            + rest,
{
    lemma_field_splits(s);
    if let Some((b, rest)) = first_field(s) {
        if valid_utf8(b) {
            decode_utf8_encode_utf8(b);
        }
    }
}

/// Every encoding parses back to its event.
proof fn lemma_parse_encode(e: EventView)
    requires
        e.fits(),
    ensures
        parse(e.encode()) == Some(e),
{
    lemma_auto_spec_u64_to_from_le_bytes();
    let bytes = e.encode();
    let body = bytes.skip(1);
    let none = Seq::<u8>::empty();
    match e {
        EventView::OracleDraw { prompt, outcome, provenance } => {
            assert(body =~= field(prompt) + (field(outcome) + text_field(provenance)));
            lemma_field_reads_back(prompt, field(outcome) + text_field(provenance));
            lemma_field_reads_back(outcome, text_field(provenance));
            lemma_text_reads_back(provenance, none);
            assert(text_field(provenance) + none =~= text_field(provenance));
        },
        EventView::ChannelRecv { channel, value } => {
            assert(body =~= text_field(channel) + field(value));
            lemma_text_reads_back(channel, field(value));
            lemma_field_reads_back(value, none);
            assert(field(value) + none =~= field(value));
        },
        EventView::EffectIntent { name, arg } => {
            assert(body =~= text_field(name) + field(arg));
            lemma_text_reads_back(name, field(arg));
            lemma_field_reads_back(arg, none);
            assert(field(arg) + none =~= field(arg));
        },
        EventView::EffectCommit { name, result } => {
            assert(body =~= text_field(name) + field(result));
            lemma_text_reads_back(name, field(result));
            lemma_field_reads_back(result, none);
            assert(field(result) + none =~= field(result));
        },
        EventView::EffectCompensated { name } => {
            assert(body =~= text_field(name) + none);
            lemma_text_reads_back(name, none);
        },
        EventView::Clock { nanos } => {
            assert(body =~= spec_u64_to_le_bytes(nanos));
        },
        EventView::Program { name, hash } => {
            assert(body =~= text_field(name) + text_field(hash));
            lemma_text_reads_back(name, text_field(hash));
            lemma_text_reads_back(hash, none);
            assert(text_field(hash) + none =~= text_field(hash));
        },
    }
}

/// What parses is the encoding of what it parses to.
proof fn lemma_encode_parse(bytes: Seq<u8>)
    ensures
        parse(bytes) matches Some(e) ==> e.encodes_as(bytes),
{
    lemma_auto_spec_u64_to_from_le_bytes();
    if let Some(e) = parse(bytes) {
        let body = bytes.skip(1);
        assert(bytes =~= seq![bytes[0]] + body);
        lemma_field_splits(body);
        lemma_text_splits(body);
        match e {
            EventView::OracleDraw { prompt, outcome, provenance } => {
                let s1 = first_field(body).unwrap().1;
                lemma_field_splits(s1);
                let s2 = first_field(s1).unwrap().1;
                lemma_text_splits(s2);
                assert(s2 =~= text_field(provenance));
                assert(s1 =~= field(outcome) + text_field(provenance));
            },
            EventView::ChannelRecv { channel, value } => {
                let s1 = first_text(body).unwrap().1;
                lemma_field_splits(s1);
                assert(s1 =~= field(value));
            },
            EventView::EffectIntent { name, arg } => {
                let s1 = first_text(body).unwrap().1;
                lemma_field_splits(s1);
                assert(s1 =~= field(arg));
            },
            EventView::EffectCommit { name, result } => {
                let s1 = first_text(body).unwrap().1;
                lemma_field_splits(s1);
                assert(s1 =~= field(result));
            },
            EventView::EffectCompensated { name } => {
                assert(body =~= text_field(name));
            },
            EventView::Clock { nanos } => {},
            EventView::Program { name, hash } => {
                let s1 = first_text(body).unwrap().1;
                lemma_text_splits(s1);
                assert(s1 =~= text_field(hash));
            },
        }
        assert(e.encode() =~= bytes);
    }
}

/// Parsing is decoding.
proof fn lemma_parse_is_decode(bytes: Seq<u8>)
    ensures
        EventView::decode(bytes) == parse(bytes),
{
    lemma_encode_parse(bytes);
    if exists|e: EventView| e.encodes_as(bytes) {
        let e = choose|e: EventView| e.encodes_as(bytes);
        lemma_parse_encode(e);
    } else if parse(bytes) is Some {
        assert(parse(bytes).unwrap().encodes_as(bytes));
    }
}

/// Decoding undoes encoding: every event is read back as it was written.
pub proof fn law_decode_encode(e: EventView)
    requires
        e.fits(),
    ensures
        EventView::decode(e.encode()) == Some(e),
{
    lemma_parse_is_decode(e.encode());
    lemma_parse_encode(e);
}

/// Encoding undoes decoding: no two byte strings decode to the same event.
pub proof fn law_encode_decode(bytes: Seq<u8>)
    ensures
        EventView::decode(bytes) matches Some(e) ==> e.fits() && e.encode() == bytes,
{
}

/// Different events have different encodings.
pub proof fn law_encode_injective(a: EventView, b: EventView)
    requires
        a.fits(),
        b.fits(),
        a.encode() == b.encode(),
    ensures
        a == b,
{
    lemma_parse_encode(a);
    lemma_parse_encode(b);
}

fn put(buf: &mut Vec<u8>, bytes: &[u8])
    ensures
        final(buf)@ == old(buf)@ + field(bytes@),
        short(bytes@),
{
    let n: Vec<u8> = u64_to_le_bytes(bytes.len() as u64);
    buf.extend_from_slice(n.as_slice());
    assert(buf@ =~= old(buf)@ + n@);
    buf.extend_from_slice(bytes);
    assert(buf@ =~= old(buf)@ + field(bytes@));
}

/// Takes the first field off `bytes`, starting at `at`.
fn take(bytes: &[u8], at: usize) -> (r: Option<(Vec<u8>, usize)>)
    requires
        at <= bytes.len(),
    ensures
        match r {
            Some((b, next)) => next <= bytes.len() && first_field(bytes@.skip(at as int)) == Some(
                (b@, bytes@.skip(next as int)),
            ),
            None => first_field(bytes@.skip(at as int)) is None,
        },
{
    let ghost s = bytes@.skip(at as int);
    if bytes.len() - at < 8 {
        return None;
    }
    let head = vstd::slice::slice_subrange(bytes, at, at + 8);
    let n: u64 = u64_from_le_bytes(head);
    assert(s.take(8) =~= head@);
    let left: usize = bytes.len() - at - 8;
    if (left as u64) < n {
        return None;
    }
    let len: usize = n as usize;
    let body = vstd::slice::slice_subrange(bytes, at + 8, at + 8 + len);
    let mut out: Vec<u8> = Vec::new();
    out.extend_from_slice(body);
    assert(out@ =~= s.subrange(8, 8 + n));
    assert(s.skip(8 + n) =~= bytes@.skip(at + 8 + len));
    Some((out, at + 8 + len))
}

/// Takes the first text field off `bytes`, starting at `at`.
fn take_text(bytes: &[u8], at: usize) -> (r: Option<(String, usize)>)
    requires
        at <= bytes.len(),
    ensures
        match r {
            Some((t, next)) => next <= bytes.len() && first_text(bytes@.skip(at as int)) == Some(
                (t@, bytes@.skip(next as int)),
            ),
            None => first_text(bytes@.skip(at as int)) is None,
        },
{
    match take(bytes, at) {
        None => None,
        Some((b, next)) => match text::utf8_string(b) {
            None => None,
            Some(t) => Some((t, next)),
        },
    }
}

impl Event {
    /// Stable binary encoding: a tag, then length-prefixed fields with
    /// little-endian 64-bit lengths. This is what gets framed on disk and fed
    /// to the hash chain.
    pub fn encode(&self) -> (r: Vec<u8>)
        ensures
            r@ == self@.encode(),
            self@.fits(),
    {
        let mut buf: Vec<u8> = Vec::new();
        match self {
            Event::OracleDraw { prompt, outcome, provenance } => {
                buf.push(1);
                put(&mut buf, prompt.as_bytes());
                put(&mut buf, outcome.as_bytes());
                put(&mut buf, provenance.as_str().as_bytes());
            },
            Event::ChannelRecv { channel, value } => {
                buf.push(2);
                put(&mut buf, channel.as_str().as_bytes());
                put(&mut buf, value.as_bytes());
            },
            Event::EffectIntent { name, arg } => {
                buf.push(3);
                put(&mut buf, name.as_str().as_bytes());
                put(&mut buf, arg.as_bytes());
            },
            Event::EffectCommit { name, result } => {
                buf.push(4);
                put(&mut buf, name.as_str().as_bytes());
                put(&mut buf, result.as_bytes());
            },
            Event::EffectCompensated { name } => {
                buf.push(5);
                put(&mut buf, name.as_str().as_bytes());
            },
            Event::Clock { nanos } => {
                buf.push(6);
                let n: Vec<u8> = u64_to_le_bytes(*nanos);
                buf.extend_from_slice(n.as_slice());
            },
            Event::Program { name, hash } => {
                buf.push(7);
                put(&mut buf, name.as_str().as_bytes());
                put(&mut buf, hash.as_str().as_bytes());
            },
        }
        assert(buf@ =~= self@.encode());
        buf
    }

    /// Decodes an event from its stable encoding. Returns `None` on any
    /// malformed input.
    pub fn decode(bytes: &[u8]) -> (r: Option<Event>)
        ensures
            match r {
                Some(e) => EventView::decode(bytes@) == Some(e@),
                None => EventView::decode(bytes@) is None,
            },
    {
        proof {
            lemma_parse_is_decode(bytes@);
            assert(bytes@.skip(bytes@.len() as int) =~= Seq::<u8>::empty());
        }
        if bytes.len() == 0 {
            return None;
        }
        let tag: u8 = bytes[0];
        let end: usize = bytes.len();
        match tag {
            1 => match take(bytes, 1) {
                None => None,
                Some((prompt, s1)) => match take(bytes, s1) {
                    None => None,
                    Some((outcome, s2)) => match take_text(bytes, s2) {
                        None => None,
                        Some((provenance, s3)) => if s3 == end {
                            Some(
                                Event::OracleDraw {
                                    prompt: Value::new(prompt),
                                    outcome: Value::new(outcome),
                                    provenance,
                                },
                            )
                        } else {
                            None
                        },
                    },
                },
            },
            2 => match take_text(bytes, 1) {
                None => None,
                Some((channel, s1)) => match take(bytes, s1) {
                    None => None,
                    Some((value, s2)) => if s2 == end {
                        Some(Event::ChannelRecv { channel, value: Value::new(value) })
                    } else {
                        None
                    },
                },
            },
            3 => match take_text(bytes, 1) {
                None => None,
                Some((name, s1)) => match take(bytes, s1) {
                    None => None,
                    Some((arg, s2)) => if s2 == end {
                        Some(Event::EffectIntent { name, arg: Value::new(arg) })
                    } else {
                        None
                    },
                },
            },
            4 => match take_text(bytes, 1) {
                None => None,
                Some((name, s1)) => match take(bytes, s1) {
                    None => None,
                    Some((result, s2)) => if s2 == end {
                        Some(Event::EffectCommit { name, result: Value::new(result) })
                    } else {
                        None
                    },
                },
            },
            5 => match take_text(bytes, 1) {
                None => None,
                Some((name, s1)) => if s1 == end {
                    Some(Event::EffectCompensated { name })
                } else {
                    None
                },
            },
            6 => {
                if bytes.len() != 9 {
                    None
                } else {
                    let body = vstd::slice::slice_subrange(bytes, 1, 9);
                    assert(body@ =~= bytes@.skip(1));
                    Some(Event::Clock { nanos: u64_from_le_bytes(body) })
                }
            },
            7 => match take_text(bytes, 1) {
                None => None,
                Some((name, s1)) => match take_text(bytes, s1) {
                    None => None,
                    Some((hash, s2)) => if s2 == end {
                        Some(Event::Program { name, hash })
                    } else {
                        None
                    },
                },
            },
            _ => None,
        }
    }

    /// The event as it is quoted in messages.
    pub fn quoted(&self) -> (r: String)
        ensures
            r@ == self@.quoted(),
    {
        match self {
            Event::OracleDraw { prompt, outcome, provenance } => "OracleDraw { prompt: ".to_owned()
                .concat(quote_value(prompt).as_str()).concat(", outcome: ").concat(
                quote_value(outcome).as_str(),
            ).concat(", provenance: ").concat(text::debug(provenance.as_str()).as_str()).concat(
                " }",
            ),
            Event::ChannelRecv { channel, value } => "ChannelRecv { channel: ".to_owned().concat(
                text::debug(channel.as_str()).as_str(),
            ).concat(", value: ").concat(quote_value(value).as_str()).concat(" }"),
            Event::EffectIntent { name, arg } => "EffectIntent { name: ".to_owned().concat(
                text::debug(name.as_str()).as_str(),
            ).concat(", arg: ").concat(quote_value(arg).as_str()).concat(" }"),
            Event::EffectCommit { name, result } => "EffectCommit { name: ".to_owned().concat(
                text::debug(name.as_str()).as_str(),
            ).concat(", result: ").concat(quote_value(result).as_str()).concat(" }"),
            Event::EffectCompensated { name } => "EffectCompensated { name: ".to_owned().concat(
                text::debug(name.as_str()).as_str(),
            ).concat(" }"),
            Event::Clock { nanos } => "Clock { nanos: ".to_owned().concat(
                text::decimal_text(*nanos).as_str(),
            ).concat(" }"),
            Event::Program { name, hash } => "Program { name: ".to_owned().concat(
                text::debug(name.as_str()).as_str(),
            ).concat(", hash: ").concat(text::debug(hash.as_str()).as_str()).concat(" }"),
        }
    }
}

impl Clone for Event {
    fn clone(&self) -> (r: Self)
        ensures
            r@ == self@,
    {
        match self {
            Event::OracleDraw { prompt, outcome, provenance } => Event::OracleDraw {
                prompt: prompt.clone(),
                outcome: outcome.clone(),
                provenance: provenance.clone(),
            },
            Event::ChannelRecv { channel, value } => Event::ChannelRecv {
                channel: channel.clone(),
                value: value.clone(),
            },
            Event::EffectIntent { name, arg } => Event::EffectIntent {
                name: name.clone(),
                arg: arg.clone(),
            },
            Event::EffectCommit { name, result } => Event::EffectCommit {
                name: name.clone(),
                result: result.clone(),
            },
            Event::EffectCompensated { name } => Event::EffectCompensated { name: name.clone() },
            Event::Clock { nanos } => Event::Clock { nanos: *nanos },
            Event::Program { name, hash } => Event::Program {
                name: name.clone(),
                hash: hash.clone(),
            },
        }
    }
}

/// A value as it is quoted in messages.
pub fn quote_value(v: &Value) -> (r: String)
    ensures
        r@ == quoted_value(v@),
{
    "Value(".to_owned().concat(text::debug(v.as_str().as_str()).as_str()).concat(")")
}

/// A quoted event tells its kind and all that it holds, each part under its own
/// name: where two events of a kind are quoted, they differ where the events'
/// texts do.
pub proof fn law_quote_tells_the_event(e: &Event, q: String)
    requires
        call_ensures(Event::quoted, (e,), q),
    ensures
        match e@ {
            EventView::OracleDraw { prompt, outcome, provenance } => text::holds(
                q@,
                "OracleDraw { prompt: "@ + quoted_text(prompt),
            ) && text::holds(q@, ", outcome: "@ + quoted_text(outcome)) && text::holds(
                q@,
                ", provenance: "@ + text::debug_text(provenance),
            ),
            EventView::ChannelRecv { channel, value } => text::holds(
                q@,
                "ChannelRecv { channel: "@ + text::debug_text(channel),
            ) && text::holds(q@, ", value: "@ + quoted_text(value)),
            EventView::EffectIntent { name, arg } => text::holds(
                q@,
                "EffectIntent { name: "@ + text::debug_text(name),
            ) && text::holds(q@, ", arg: "@ + quoted_text(arg)),
            EventView::EffectCommit { name, result } => text::holds(
                q@,
                "EffectCommit { name: "@ + text::debug_text(name),
            ) && text::holds(q@, ", result: "@ + quoted_text(result)),
            EventView::EffectCompensated { name } => text::holds(
                q@,
                "EffectCompensated { name: "@ + text::debug_text(name),
            ),
            EventView::Clock { nanos } => text::holds(
                q@,
                "Clock { nanos: "@ + text::decimal(nanos as nat),
            ),
            EventView::Program { name, hash } => text::holds(
                q@,
                "Program { name: "@ + text::debug_text(name),
            ) && text::holds(q@, ", hash: "@ + text::debug_text(hash)),
        },
{
    let end = " }"@;
    match e@ {
        EventView::OracleDraw { prompt, outcome, provenance } => {
            let a = "OracleDraw { prompt: "@ + quoted_text(prompt);
            let b = ", outcome: "@ + quoted_text(outcome);
            let c = ", provenance: "@ + text::debug_text(provenance);
            text::lemma_regroup(a, ", outcome: "@, quoted_text(outcome));
            text::lemma_regroup(a + b, ", provenance: "@, text::debug_text(provenance));
            lemma_two_parts(a, b);
            text::lemma_holds_itself(c);
            text::lemma_holds_in_sum(a + b, c, a);
            text::lemma_holds_in_sum(a + b, c, b);
            text::lemma_holds_in_sum(a + b, c, c);
            text::lemma_holds_in_sum(a + b + c, end, a);
            text::lemma_holds_in_sum(a + b + c, end, b);
            text::lemma_holds_in_sum(a + b + c, end, c);
        },
        EventView::ChannelRecv { channel, value } => {
            let a = "ChannelRecv { channel: "@ + text::debug_text(channel);
            text::lemma_regroup(a, ", value: "@, quoted_text(value));
            lemma_two_parts(a, ", value: "@ + quoted_text(value));
        },
        EventView::EffectIntent { name, arg } => {
            let a = "EffectIntent { name: "@ + text::debug_text(name);
            text::lemma_regroup(a, ", arg: "@, quoted_text(arg));
            lemma_two_parts(a, ", arg: "@ + quoted_text(arg));
        },
        EventView::EffectCommit { name, result } => {
            let a = "EffectCommit { name: "@ + text::debug_text(name);
            text::lemma_regroup(a, ", result: "@, quoted_text(result));
            lemma_two_parts(a, ", result: "@ + quoted_text(result));
        },
        EventView::EffectCompensated { name } => {
            let a = "EffectCompensated { name: "@ + text::debug_text(name);
            text::lemma_holds_itself(a);
            text::lemma_holds_in_sum(a, end, a);
        },
        EventView::Clock { nanos } => {
            let a = "Clock { nanos: "@ + text::decimal(nanos as nat);
            text::lemma_holds_itself(a);
            text::lemma_holds_in_sum(a, end, a);
        },
        EventView::Program { name, hash } => {
            let a = "Program { name: "@ + text::debug_text(name);
            text::lemma_regroup(a, ", hash: "@, text::debug_text(hash));
            lemma_two_parts(a, ", hash: "@ + text::debug_text(hash));
        },
    }
}

/// The text of a value, quoted as such.
pub open spec fn quoted_text(v: Seq<u8>) -> Seq<char> {
    "Value("@ + text::debug_text(text::lossy_text(v)) + ")"@
}

proof fn lemma_two_parts(a: Seq<char>, b: Seq<char>)
    ensures
        text::holds(a + b, a),
        text::holds(a + b, b),
        text::holds(a + b + " }"@, a),
        text::holds(a + b + " }"@, b),
{
    text::lemma_holds_itself(a);
    text::lemma_holds_itself(b);
    text::lemma_holds_in_sum(a, b, a);
    text::lemma_holds_in_sum(a, b, b);
    text::lemma_holds_in_sum(a + b, " }"@, a);
    text::lemma_holds_in_sum(a + b, " }"@, b);
}

/// The encoding of an event starts with the tag of its kind, and then, but for a
/// clock read, with the length of its first field in eight bytes and that field.
pub proof fn law_encoding_starts_with_the_tag(e: EventView)
    ensures
        ({
            let b = e.encode();
            match e {
                EventView::OracleDraw { prompt, .. } => b[0] == 1 && starts_with_field(b, prompt),
                EventView::ChannelRecv { channel, .. } => b[0] == 2 && starts_with_field(
                    b,
                    encode_utf8(channel),
                ),
                EventView::EffectIntent { name, .. } => b[0] == 3 && starts_with_field(
                    b,
                    encode_utf8(name),
                ),
                EventView::EffectCommit { name, .. } => b[0] == 4 && starts_with_field(
                    b,
                    encode_utf8(name),
                ),
                EventView::EffectCompensated { name } => b[0] == 5 && starts_with_field(
                    b,
                    encode_utf8(name),
                ),
                EventView::Clock { nanos } => b[0] == 6 && b.len() == 9
                    && spec_u64_from_le_bytes(b.skip(1)) == nanos,
                EventView::Program { name, .. } => b[0] == 7 && starts_with_field(
                    b,
                    encode_utf8(name),
                ),
            }
        }),
{
    lemma_auto_spec_u64_to_from_le_bytes();
    let b = e.encode();
    match e {
        EventView::OracleDraw { prompt, outcome, provenance } => lemma_first_is_field(
            b,
            1,
            prompt,
            field(outcome) + text_field(provenance),
        ),
        EventView::ChannelRecv { channel, value } => lemma_first_is_field(
            b,
            2,
            encode_utf8(channel),
            field(value),
        ),
        EventView::EffectIntent { name, arg } => lemma_first_is_field(
            b,
            3,
            encode_utf8(name),
            field(arg),
        ),
        EventView::EffectCommit { name, result } => lemma_first_is_field(
            b,
            4,
            encode_utf8(name),
            field(result),
        ),
        EventView::EffectCompensated { name } => {
            assert(b =~= seq![5u8] + (text_field(name) + Seq::empty()));
            lemma_first_is_field(b, 5, encode_utf8(name), Seq::empty());
        },
        EventView::Clock { nanos } => {
            assert(b.skip(1) =~= spec_u64_to_le_bytes(nanos));
        },
        EventView::Program { name, hash } => lemma_first_is_field(
            b,
            7,
            encode_utf8(name),
            text_field(hash),
        ),
    }
}

/// Do the bytes behind the first one start with the length of `f`, in eight
/// bytes, the lowest first, and then with `f`?
pub open spec fn starts_with_field(b: Seq<u8>, f: Seq<u8>) -> bool {
    &&& b.len() >= 9 + f.len()
    &&& b.subrange(1, 9) == spec_u64_to_le_bytes(f.len() as u64)
    &&& b.subrange(9, 9int + f.len()) == f
}

proof fn lemma_first_is_field(b: Seq<u8>, tag: u8, f: Seq<u8>, rest: Seq<u8>)
    requires
        b == seq![tag] + (field(f) + rest),
    ensures
        b[0] == tag,
        starts_with_field(b, f),
{
    lemma_auto_spec_u64_to_from_le_bytes();
    assert(b.subrange(1, 9) =~= spec_u64_to_le_bytes(f.len() as u64));
    assert(b.subrange(9, 9int + f.len()) =~= f);
}

} // verus!
