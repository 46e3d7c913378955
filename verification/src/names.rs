//! The names of journal files: one file per run.
//!
//! A run id becomes a file name that is safe on every file system: letters,
//! digits and `-` stand for themselves, and every other byte is written as `_`
//! and two hexadecimal digits. No two runs share a file, and the run id can be
//! read back from the name.
use vstd::prelude::*;
use vstd::utf8::*;

use crate::text;

verus! {

/// May the character stand in a file name?
pub open spec fn is_safe(c: char) -> bool {
    is_plain(c) || c == '_'
}

/// Does the character stand for itself in a file name?
pub open spec fn is_plain(c: char) -> bool {
    ('a' <= c && c <= 'z') || ('A' <= c && c <= 'Z') || ('0' <= c && c <= '9') || c == '-'
}

/// May the character stand in a file name?
pub fn safe(c: char) -> (r: bool)
    ensures
        r == is_safe(c),
{
    plain(c) || c == '_'
}

/// Does the character stand for itself in a file name?
fn plain(c: char) -> (r: bool)
    ensures
        r == is_plain(c),
{
    (c >= 'a' && c <= 'z') || (c >= 'A' && c <= 'Z') || (c >= '0' && c <= '9') || c == '-'
}

/// How a byte is written in a file name.
pub open spec fn safe_byte(b: u8) -> Seq<char> {
    if is_plain(b as char) {
        seq![b as char]
    } else {
        seq!['_', text::digit((b / 16) as nat), text::digit((b % 16) as nat)]
    }
}

/// How bytes are written in a file name.
pub open spec fn safe_bytes(bytes: Seq<u8>) -> Seq<char>
    decreases bytes.len(),
{
    if bytes.len() == 0 {
        Seq::empty()
    } else {
        safe_byte(bytes[0]) + safe_bytes(bytes.skip(1))
    }
}

/// How a run id is written in a file name.
pub open spec fn safe_name(run_id: Seq<char>) -> Seq<char> {
    safe_bytes(encode_utf8(run_id))
}

/// The run id that is written as `stem`; `stem` itself if none is.
pub open spec fn run_named(stem: Seq<char>) -> Seq<char> {
    if exists|id: Seq<char>| safe_name(id) == stem {
        choose|id: Seq<char>| safe_name(id) == stem
    } else {
        stem
    }
}

fn push_safe_byte(out: &mut String, b: u8)
    ensures
        final(out)@ == old(out)@ + safe_byte(b),
{
    if plain(b as char) {
        out.push(b as char);
    } else {
        out.push('_');
        out.push(text::digit_char(b / 16));
        out.push(text::digit_char(b % 16));
    }
    assert(out@ =~= old(out)@ + safe_byte(b));
}

fn written(bytes: &[u8]) -> (r: String)
    ensures
        r@ == safe_bytes(bytes@),
{
    let mut out = String::new();
    let mut i: usize = 0;
    assert(bytes@.skip(0) =~= bytes@);
    assert(out@ + safe_bytes(bytes@) =~= safe_bytes(bytes@));
    while i < bytes.len()
        invariant
            i <= bytes@.len(),
            out@ + safe_bytes(bytes@.skip(i as int)) == safe_bytes(bytes@),
        decreases bytes@.len() - i,
    {
        let ghost before = out@;
        let ghost rest = bytes@.skip(i as int);
        assert(rest.skip(1) =~= bytes@.skip(i + 1));
        push_safe_byte(&mut out, bytes[i]);
        assert(out@ + safe_bytes(rest.skip(1)) =~= before + (safe_byte(rest[0]) + safe_bytes(
            rest.skip(1),
        )));
        i += 1;
    }
    assert(out@ + safe_bytes(bytes@.skip(i as int)) =~= out@);
    out
}

/// The name of the file that holds the journal of `run_id`.
pub fn file_name(run_id: &str) -> (r: String)
    ensures
        r@ == safe_name(run_id@) + ".journal"@,
{
    written(run_id.as_bytes()).concat(".journal")
}

/// The value of a hexadecimal digit.
pub open spec fn hex_value(c: char) -> Option<u8> {
    if '0' <= c && c <= '9' {
        Some((c as u8 - '0' as u8) as u8)
    } else if 'a' <= c && c <= 'f' {
        Some((c as u8 - 'a' as u8 + 10) as u8)
    } else {
        None
    }
}

/// The bytes that `s` reads as.
pub open spec fn read_bytes(s: Seq<char>) -> Option<Seq<u8>>
    decreases s.len(),
{
    if s.len() == 0 {
        Some(Seq::empty())
    } else if is_plain(s[0]) {
        match read_bytes(s.skip(1)) {
            Some(rest) => Some(seq![s[0] as u8] + rest),
            None => None,
        }
    } else if s.len() < 3 || s[0] != '_' {
        None
    } else {
        match (hex_value(s[1]), hex_value(s[2]), read_bytes(s.skip(3))) {
            (Some(h), Some(l), Some(rest)) => Some(seq![(16 * h + l) as u8] + rest),
            _ => None,
        }
    }
}

proof fn lemma_digit(d: nat)
    requires
        d < 16,
    ensures
        hex_value(text::digit(d)) == Some(d as u8),
        is_plain(text::digit(d)),
{
}

/// What is written reads back.
proof fn lemma_read_back(bytes: Seq<u8>)
    ensures
        read_bytes(safe_bytes(bytes)) == Some(bytes),
    decreases bytes.len(),
{
    if bytes.len() == 0 {
        assert(safe_bytes(bytes) =~= Seq::empty());
        assert(bytes =~= Seq::empty());
    } else {
        let b = bytes[0];
        let rest = bytes.skip(1);
        let s = safe_bytes(bytes);
        lemma_read_back(rest);
        assert(seq![b] + rest =~= bytes);
        if is_plain(b as char) {
            assert(s.skip(1) =~= safe_bytes(rest));
            assert(s[0] as u8 == b);
        } else {
            assert(s.skip(3) =~= safe_bytes(rest));
            lemma_digit((b / 16) as nat);
            lemma_digit((b % 16) as nat);
            assert(16 * (b / 16) + b % 16 == b);
        }
    }
}

fn hex(c: char) -> (r: Option<u8>)
    ensures
        r == hex_value(c),
        r matches Some(v) ==> v < 16,
{
    if c >= '0' && c <= '9' {
        Some(c as u8 - 48)
    } else if c >= 'a' && c <= 'f' {
        Some(c as u8 - 97 + 10)
    } else {
        None
    }
}

/// The bytes that `s` reads as.
fn read(s: &str) -> (r: Option<Vec<u8>>)
    ensures
        match r {
            Some(v) => read_bytes(s@) == Some(v@),
            None => read_bytes(s@) is None,
        },
{
    let n: usize = s.unicode_len();
    let mut out: Vec<u8> = Vec::new();
    let mut i: usize = 0;
    proof {
        assert(s@.skip(0) =~= s@);
        if let Some(rest) = read_bytes(s@) {
            assert(out@ + rest =~= rest);
        }
    }
    while i < n
        invariant
            i <= n,
            n == s@.len(),
            match read_bytes(s@.skip(i as int)) {
                Some(rest) => read_bytes(s@) == Some(out@ + rest),
                None => read_bytes(s@) is None,
            },
        decreases n - i,
    {
        let ghost left = s@.skip(i as int);
        let ghost before = out@;
        let c = s.get_char(i);
        assert(left[0] == c);
        if plain(c) {
            assert(left.skip(1) =~= s@.skip(i + 1));
            out.push(c as u8);
            proof {
                if let Some(rest) = read_bytes(left.skip(1)) {
                    assert(before + (seq![c as u8] + rest) =~= out@ + rest);
                }
            }
            i += 1;
        } else {
            if n - i < 3 || c != '_' {
                return None;
            }
            assert(left[1] == s@[i + 1] && left[2] == s@[i + 2]);
            assert(left.skip(3) =~= s@.skip(i + 3));
            match (hex(s.get_char(i + 1)), hex(s.get_char(i + 2))) {
                (Some(h), Some(l)) => {
                    let b: u8 = 16 * h + l;
                    out.push(b);
                    proof {
                        if let Some(rest) = read_bytes(left.skip(3)) {
                            assert(before + (seq![b] + rest) =~= out@ + rest);
                        }
                    }
                    i += 3;
                },
                _ => {
                    return None;
                },
            }
        }
    }
    assert(out@ + Seq::<u8>::empty() =~= out@);
    Some(out)
}

/// The run id that is written as `stem` in a file name.
pub fn read_name(stem: &str) -> (r: Option<String>)
    ensures
        match r {
            Some(id) => safe_name(id@) == stem@,
            None => forall|id: Seq<char>| #[trigger] safe_name(id) != stem@,
        },
{
    proof {
        assert forall|id: Seq<char>| #[trigger] safe_name(id) == stem@ implies read_bytes(stem@)
            == Some(encode_utf8(id)) && valid_utf8(encode_utf8(id)) by {
            lemma_read_back(encode_utf8(id));
            encode_utf8_valid_utf8(id);
        }
    }
    match read(stem) {
        None => None,
        Some(bytes) => {
            if !text::same_text(written(bytes.as_slice()).as_str(), stem) {
                return None;
            }
            let ghost all = bytes@;
            match text::utf8_string(bytes) {
                None => None,
                Some(id) => {
                    proof {
                        decode_utf8_encode_utf8(all);
                    }
                    Some(id)
                },
            }
        },
    }
}

/// The run id that is written as `stem`; `stem` itself if none is.
pub fn run_name(stem: &str) -> (r: String)
    ensures
        r@ == run_named(stem@),
{
    match read_name(stem) {
        Some(id) => {
            proof {
                law_names_are_distinct(id@, run_named(stem@));
            }
            id
        },
        None => stem.to_owned(),
    }
}

/// One file per run: two runs never share a file.
pub proof fn law_names_are_distinct(a: Seq<char>, b: Seq<char>)
    ensures
        safe_name(a) == safe_name(b) ==> a == b,
        safe_name(a) + ".journal"@ == safe_name(b) + ".journal"@ ==> a == b,
{
    lemma_read_back(encode_utf8(a));
    lemma_read_back(encode_utf8(b));
    encode_utf8_decode_utf8(a);
    encode_utf8_decode_utf8(b);
    let ext = ".journal"@;
    if safe_name(a) + ext == safe_name(b) + ext {
        let whole = safe_name(a) + ext;
        assert(safe_name(a) =~= whole.take(whole.len() - ext.len()));
        assert(safe_name(b) =~= whole.take(whole.len() - ext.len()));
    }
}

/// The run id is read back from the file's name.
pub proof fn law_names_read_back(run_id: Seq<char>)
    ensures
        run_named(safe_name(run_id)) == run_id,
{
    law_names_are_distinct(run_id, run_named(safe_name(run_id)));
}

/// The file name of a run holds none but safe characters.
pub proof fn law_file_name_is_safe(run_id: Seq<char>)
    ensures
        forall|i: int|
            0 <= i < safe_name(run_id).len() ==> is_safe(#[trigger] safe_name(run_id)[i]),
{
    lemma_safe_bytes(encode_utf8(run_id));
}

proof fn lemma_safe_bytes(bytes: Seq<u8>)
    ensures
        forall|i: int|
            0 <= i < safe_bytes(bytes).len() ==> is_safe(#[trigger] safe_bytes(bytes)[i]),
    decreases bytes.len(),
{
    if bytes.len() > 0 {
        let head = safe_byte(bytes[0]);
        let rest = safe_bytes(bytes.skip(1));
        lemma_safe_bytes(bytes.skip(1));
        lemma_digit((bytes[0] / 16) as nat);
        lemma_digit((bytes[0] % 16) as nat);
        assert forall|i: int| 0 <= i < (head + rest).len() implies is_safe(
            #[trigger] (head + rest)[i],
        ) by {
            if i >= head.len() {
                assert((head + rest)[i] == rest[i - head.len()]);
            }
        }
    }
}

/// A run id of letters, digits and `-` is its own file name.
pub proof fn law_plain_names_stay(run_id: Seq<char>)
    requires
        forall|i: int|
            0 <= i < run_id.len() ==> ('a' <= #[trigger] run_id[i] <= 'z') || ('A' <= run_id[i]
                <= 'Z') || ('0' <= run_id[i] <= '9') || run_id[i] == '-',
    ensures
        safe_name(run_id) == run_id,
{
    let bytes = encode_utf8(run_id);
    assert(is_ascii_chars(run_id));
    is_ascii_chars_encode_utf8(run_id);
    assert forall|i: int| 0 <= i < bytes.len() implies (#[trigger] bytes[i]) as char == run_id[i] by {
        assert(run_id[i] as u8 == bytes[i]);
    }
    lemma_plain_bytes(bytes, run_id);
}

proof fn lemma_plain_bytes(bytes: Seq<u8>, chars: Seq<char>)
    requires
        bytes.len() == chars.len(),
        forall|i: int| 0 <= i < bytes.len() ==> (#[trigger] bytes[i]) as char == chars[i],
        forall|i: int| 0 <= i < chars.len() ==> is_plain(#[trigger] chars[i]),
    ensures
        safe_bytes(bytes) == chars,
    decreases bytes.len(),
{
    if bytes.len() > 0 {
        assert forall|i: int| 0 <= i < bytes.len() - 1 implies (#[trigger] bytes.skip(1)[i]) as char
            == chars.skip(1)[i] by {
            assert(bytes.skip(1)[i] == bytes[i + 1]);
        }
        assert forall|i: int| 0 <= i < chars.len() - 1 implies is_plain(
            #[trigger] chars.skip(1)[i],
        ) by {
            assert(chars.skip(1)[i] == chars[i + 1]);
        }
        lemma_plain_bytes(bytes.skip(1), chars.skip(1));
        assert(bytes[0] as char == chars[0]);
        assert(safe_bytes(bytes) =~= chars);
    } else {
        assert(safe_bytes(bytes) =~= chars);
    }
}

/// A stem that no run id is written as stands for itself.
pub proof fn law_unwritten_stems_stay(stem: Seq<char>)
    requires
        forall|id: Seq<char>| safe_name(id) != stem,
    ensures
        run_named(stem) == stem,
{
}

/// A character that is safe in a file name is a letter, a digit, `-` or `_`: no
/// name holds a separator or a dot, and every letter and digit is safe.
pub proof fn law_safe_characters(c: char)
    ensures
        is_safe(c) ==> c != '/' && c != '\\' && c != '.' && c != ':' && c != '\0' && c < '\u{80}',
        'a' <= c <= 'z' || 'A' <= c <= 'Z' || '0' <= c <= '9' || c == '-' || c == '_' ==> is_safe(
            c,
        ),
{
}

} // verus!
