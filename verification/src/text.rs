//! Text: digits, padding and the few conversions between bytes and characters
//! that the rest of the library writes its messages with.
use vstd::prelude::*;
use vstd::utf8::*;

verus! {

/// `String::push`: the character goes to the end.
pub assume_specification[ String::push ](s: &mut String, c: char)
    ensures
        final(s)@ == old(s)@.push(c),
;

/// What `String::from_utf8_lossy` makes of arbitrary bytes.
pub uninterp spec fn lossy_text(bytes: Seq<u8>) -> Seq<char>;

/// What `format!("{:?}", s)` makes of a string: the quoted, escaped literal.
pub uninterp spec fn debug_text(s: Seq<char>) -> Seq<char>;

/// `String::from_utf8_lossy`: the text of `bytes`, with invalid sequences
/// replaced. Which characters replace an invalid sequence is left to the name;
/// valid UTF-8 is decoded unchanged.
#[verifier::external_body]
pub(crate) fn lossy(bytes: &[u8]) -> (r: String)
    ensures
        r@ == lossy_text(bytes@),
        valid_utf8(bytes@) ==> r@ == decode_utf8(bytes@),
{
    String::from_utf8_lossy(bytes).into_owned()
}

/// `String::from_utf8`: the text that `bytes` encode, if they are valid UTF-8.
#[verifier::external_body]
pub(crate) fn utf8_string(bytes: Vec<u8>) -> (r: Option<String>)
    ensures
        r is Some <==> valid_utf8(bytes@),
        r matches Some(s) ==> s@ == decode_utf8(bytes@),
{
    String::from_utf8(bytes).ok()
}

/// `format!("{:?}", s)` on a string, under the name `debug_text`.
#[verifier::external_body]
pub(crate) fn debug(s: &str) -> (r: String)
    ensures
        r@ == debug_text(s@),
{
    format!("{:?}", s)
}

/// The character of one digit in base 16.
pub open spec fn digit(d: nat) -> char {
    if d < 10 {
        ('0' as nat + d) as char
    } else {
        ('a' as nat + (d - 10)) as char
    }
}

/// `n` written in `base`, most significant digit first, without leading zeros.
pub open spec fn digits(n: nat, base: nat) -> Seq<char>
    decreases n,
{
    if base < 2 || n < base {
        seq![digit(n)]
    } else {
        proof {
            assert(n / base < n) by (nonlinear_arith)
                requires
                    2 <= base <= n,
            ;
        }
        digits(n / base, base).push(digit(n % base))
    }
}

/// `n` in decimal.
pub open spec fn decimal(n: nat) -> Seq<char> {
    digits(n, 10)
}

/// `n` in lower-case hexadecimal.
pub open spec fn hexadecimal(n: nat) -> Seq<char> {
    digits(n, 16)
}

/// The character of the digit `d`.
pub fn digit_char(d: u8) -> (c: char)
    requires
        d < 16,
    ensures
        c == digit(d as nat),
{
    if d < 10 {
        (48u8 + d) as char
    } else {
        (87u8 + d) as char
    }
}

/// Appends `n`, written in `base`, to `out`.
pub fn push_digits(out: &mut String, n: u128, base: u128)
    requires
        2 <= base <= 16,
    ensures
        final(out)@ == old(out)@ + digits(n as nat, base as nat),
    decreases n,
{
    if n < base {
        out.push(digit_char(n as u8));
    } else {
        assert(n / base < n) by (nonlinear_arith)
            requires
                2 <= base <= n,
        ;
        push_digits(out, n / base, base);
        out.push(digit_char((n % base) as u8));
    }
    assert(out@ =~= old(out)@ + digits(n as nat, base as nat));
}

/// `n` in decimal.
pub fn decimal_text(n: u64) -> (r: String)
    ensures
        r@ == decimal(n as nat),
{
    let mut r = String::new();
    push_digits(&mut r, n as u128, 10);
    assert(r@ =~= decimal(n as nat));
    r
}

/// `n` in lower-case hexadecimal.
pub fn hexadecimal_text(n: u64) -> (r: String)
    ensures
        r@ == hexadecimal(n as nat),
{
    let mut r = String::new();
    push_digits(&mut r, n as u128, 16);
    assert(r@ =~= hexadecimal(n as nat));
    r
}

/// `n` spaces.
pub open spec fn spaces(n: nat) -> Seq<char> {
    Seq::new(n, |i: int| ' ')
}

/// `s` followed by spaces up to `width` characters.
pub open spec fn left_aligned(s: Seq<char>, width: nat) -> Seq<char> {
    if s.len() < width {
        s + spaces((width - s.len()) as nat)
    } else {
        s
    }
}

/// `s` preceded by spaces up to `width` characters.
pub open spec fn right_aligned(s: Seq<char>, width: nat) -> Seq<char> {
    if s.len() < width {
        spaces((width - s.len()) as nat) + s
    } else {
        s
    }
}

/// Appends `n` spaces to `out`.
fn push_spaces(out: &mut String, n: usize)
    ensures
        final(out)@ == old(out)@ + spaces(n as nat),
{
    let mut i: usize = 0;
    assert(out@ + spaces(0) =~= out@);
    while i < n
        invariant
            i <= n,
            out@ == old(out)@ + spaces(i as nat),
        decreases n - i,
    {
        out.push(' ');
        i += 1;
        assert(out@ =~= old(out)@ + spaces(i as nat));
    }
}

/// `s` followed by spaces up to `width` characters.
pub fn align_left(s: &str, width: usize) -> (r: String)
    ensures
        r@ == left_aligned(s@, width as nat),
{
    let n: usize = s.unicode_len();
    let mut out = s.to_owned();
    if n < width {
        push_spaces(&mut out, width - n);
    }
    out
}

/// `s` preceded by spaces up to `width` characters.
pub fn align_right(s: &str, width: usize) -> (r: String)
    ensures
        r@ == right_aligned(s@, width as nat),
{
    let n: usize = s.unicode_len();
    let mut out = String::new();
    if n < width {
        push_spaces(&mut out, width - n);
    }
    assert(n >= width ==> out@ + s@ =~= s@);
    assert(n < width ==> out@ =~= spaces((width - n) as nat));
    out.append(s);
    out
}

/// The characters of `s`, each replaced as `f` says, in order.
pub open spec fn flat_map(s: Seq<char>, f: spec_fn(char) -> Seq<char>) -> Seq<char>
    decreases s.len(),
{
    if s.len() == 0 {
        Seq::empty()
    } else {
        flat_map(s.drop_last(), f) + f(s.last())
    }
}

/// Does `part` stand somewhere in `s`?
#[verifier::opaque]
pub open spec fn holds(s: Seq<char>, part: Seq<char>) -> bool {
    exists|i: int|
        0 <= i <= s.len() - part.len() && #[trigger] s.subrange(i, i + part.len()) == part
}

/// A text holds itself.
pub proof fn lemma_holds_itself(s: Seq<char>)
    ensures
        holds(s, s),
{
    reveal(holds);
    assert(s.subrange(0, 0int + s.len()) =~= s);
}

/// What stands in the first or in the second of two texts stands in both put
/// together.
pub proof fn lemma_holds_in_sum(a: Seq<char>, b: Seq<char>, part: Seq<char>)
    ensures
        holds(a, part) || holds(b, part) ==> holds(a + b, part),
{
    reveal(holds);
    let n = part.len() as int;
    if holds(a, part) {
        let i = choose|i: int|
            0 <= i <= a.len() - part.len() && #[trigger] a.subrange(i, i + part.len()) == part;
        assert((a + b).subrange(i, i + n) =~= a.subrange(i, i + n));
    } else if holds(b, part) {
        let i = choose|i: int|
            0 <= i <= b.len() - part.len() && #[trigger] b.subrange(i, i + part.len()) == part;
        assert((a + b).subrange(a.len() + i, a.len() + i + n) =~= b.subrange(i, i + n));
    }
}

/// What ends in `end` and is followed by `value` has `value` behind `end`.
pub proof fn lemma_holds_behind(s: Seq<char>, end: Seq<char>, value: Seq<char>)
    requires
        end.is_suffix_of(s),
    ensures
        holds(s + value, end + value),
{
    reveal(holds);
    let i = s.len() - end.len();
    assert((s + value).subrange(i, i + (end + value).len()) =~= end + value);
}

/// Texts can be put together in any grouping.
pub proof fn lemma_regroup(a: Seq<char>, b: Seq<char>, c: Seq<char>)
    ensures
        a + b + c == a + (b + c),
{
    assert(a + b + c =~= a + (b + c));
}

/// What stands in a part of a text stands in the text.
pub proof fn lemma_holds_within(s: Seq<char>, middle: Seq<char>, part: Seq<char>)
    requires
        holds(s, middle),
        holds(middle, part),
    ensures
        holds(s, part),
{
    reveal(holds);
    let i = choose|i: int|
        0 <= i <= s.len() - middle.len() && #[trigger] s.subrange(i, i + middle.len()) == middle;
    let k = choose|k: int|
        0 <= k <= middle.len() - part.len() && #[trigger] middle.subrange(k, k + part.len())
            == part;
    assert(s.subrange(i + k, i + k + part.len()) =~= middle.subrange(k, k + part.len()));
}

/// Do the two byte strings hold the same bytes?
pub fn same_bytes(a: &[u8], b: &[u8]) -> (r: bool)
    ensures
        r == (a@ == b@),
{
    if a.len() != b.len() {
        return false;
    }
    let mut i: usize = 0;
    while i < a.len()
        invariant
            i <= a.len(),
            a.len() == b.len(),
            forall|j: int| 0 <= j < i ==> a@[j] == b@[j],
        decreases a.len() - i,
    {
        if a[i] != b[i] {
            return false;
        }
        i += 1;
    }
    assert(a@ =~= b@);
    true
}

/// Do the two strings hold the same characters?
pub fn same_text(a: &str, b: &str) -> (r: bool)
    ensures
        r == (a@ == b@),
{
    let r = same_bytes(a.as_bytes(), b.as_bytes());
    proof {
        lemma_utf8_injective(a@, b@);
    }
    r
}

/// UTF-8 gives different texts different bytes.
pub proof fn lemma_utf8_injective(a: Seq<char>, b: Seq<char>)
    ensures
        encode_utf8(a) == encode_utf8(b) ==> a == b,
{
    vstd::utf8::encode_utf8_decode_utf8(a);
    vstd::utf8::encode_utf8_decode_utf8(b);
}

/// Numbers are written digit by digit, the highest first: one more digit behind
/// a number multiplies it by the base and adds the digit.
pub proof fn law_digits_are_positional(n: nat, d: nat, base: nat)
    requires
        2 <= base <= 16,
        d < base,
    ensures
        digits(d, base) == seq![digit(d)],
        n > 0 ==> digits(n * base + d, base) == digits(n, base).push(digit(d)),
{
    assert((n * base + d) / base == n && (n * base + d) % base == d) by {
        vstd::arithmetic::div_mod::lemma_fundamental_div_mod_converse(
            (n * base + d) as int,
            base as int,
            n as int,
            d as int,
        );
    }
    if n > 0 {
        assert(n * base >= base) by (nonlinear_arith)
            requires
                n > 0,
                base > 0,
        ;
    }
}

/// The sixteen digits are different characters.
pub proof fn law_digits_differ(a: nat, b: nat)
    requires
        a < 16,
        b < 16,
        a != b,
    ensures
        digit(a) != digit(b),
        a < 10 ==> '0' <= digit(a) <= '9',
        a >= 10 ==> 'a' <= digit(a) <= 'f',
{
}

} // verus!
