//! SHA-256 (FIPS 180-4) and HMAC-SHA-256 (RFC 2104).
//!
//! The digests are specified by the recurrences of the two standards, over
//! byte sequences, and computed by the functions at the end of the file.
use vstd::prelude::*;

verus! {

/// A SHA-256 digest.
pub type Digest = [u8; 32];

/// Bytes in a digest.
pub const DIGEST_LEN: usize = 32;

/// The round constants: the fractional parts of the cube roots of the first
/// 64 primes.
pub open spec fn round_constants() -> Seq<u32> {
    seq![
        0x428a2f98u32, 0x71374491u32, 0xb5c0fbcfu32, 0xe9b5dba5u32,
        0x3956c25bu32, 0x59f111f1u32, 0x923f82a4u32, 0xab1c5ed5u32,
        0xd807aa98u32, 0x12835b01u32, 0x243185beu32, 0x550c7dc3u32,
        0x72be5d74u32, 0x80deb1feu32, 0x9bdc06a7u32, 0xc19bf174u32,
        0xe49b69c1u32, 0xefbe4786u32, 0x0fc19dc6u32, 0x240ca1ccu32,
        0x2de92c6fu32, 0x4a7484aau32, 0x5cb0a9dcu32, 0x76f988dau32,
        0x983e5152u32, 0xa831c66du32, 0xb00327c8u32, 0xbf597fc7u32,
        0xc6e00bf3u32, 0xd5a79147u32, 0x06ca6351u32, 0x14292967u32,
        0x27b70a85u32, 0x2e1b2138u32, 0x4d2c6dfcu32, 0x53380d13u32,
        0x650a7354u32, 0x766a0abbu32, 0x81c2c92eu32, 0x92722c85u32,
        0xa2bfe8a1u32, 0xa81a664bu32, 0xc24b8b70u32, 0xc76c51a3u32,
        0xd192e819u32, 0xd6990624u32, 0xf40e3585u32, 0x106aa070u32,
        0x19a4c116u32, 0x1e376c08u32, 0x2748774cu32, 0x34b0bcb5u32,
        0x391c0cb3u32, 0x4ed8aa4au32, 0x5b9cca4fu32, 0x682e6ff3u32,
        0x748f82eeu32, 0x78a5636fu32, 0x84c87814u32, 0x8cc70208u32,
        0x90befffau32, 0xa4506cebu32, 0xbef9a3f7u32, 0xc67178f2u32,
    ]
}

/// The eight working words.
#[derive(Clone, Copy)]
pub struct Words {
    pub a: u32,
    pub b: u32,
    pub c: u32,
    pub d: u32,
    pub e: u32,
    pub f: u32,
    pub g: u32,
    pub h: u32,
}

/// The initial hash value: the fractional parts of the square roots of the
/// first eight primes.
pub open spec fn initial_words() -> Words {
    Words {
        a: 0x6a09e667,
        b: 0xbb67ae85,
        c: 0x3c6ef372,
        d: 0xa54ff53a,
        e: 0x510e527f,
        f: 0x9b05688c,
        g: 0x1f83d9ab,
        h: 0x5be0cd19,
    }
}

/// `x` rotated right by `n` bits.
pub open spec fn rotr(x: u32, n: u32) -> u32 {
    (x >> n) | (x << ((32 - n) as u32))
}

pub open spec fn big_sigma0(x: u32) -> u32 {
    rotr(x, 2) ^ rotr(x, 13) ^ rotr(x, 22)
}

pub open spec fn big_sigma1(x: u32) -> u32 {
    rotr(x, 6) ^ rotr(x, 11) ^ rotr(x, 25)
}

pub open spec fn small_sigma0(x: u32) -> u32 {
    rotr(x, 7) ^ rotr(x, 18) ^ (x >> 3u32)
}

pub open spec fn small_sigma1(x: u32) -> u32 {
    rotr(x, 17) ^ rotr(x, 19) ^ (x >> 10u32)
}

pub open spec fn choice(x: u32, y: u32, z: u32) -> u32 {
    (x & y) ^ (!x & z)
}

pub open spec fn majority(x: u32, y: u32, z: u32) -> u32 {
    (x & y) ^ (x & z) ^ (y & z)
}

/// Addition modulo 2^32.
pub open spec fn plus(x: u32, y: u32) -> u32 {
    ((x + y) % 0x1_0000_0000) as u32
}

/// Four bytes as a big-endian word.
pub open spec fn word_of(b: Seq<u8>, at: int) -> u32 {
    ((b[at] as u32) << 24u32) | ((b[at + 1] as u32) << 16u32) | ((b[at + 2] as u32) << 8u32) | (
    b[at + 3] as u32)
}

/// A word as four big-endian bytes.
pub open spec fn bytes_of(x: u32) -> Seq<u8> {
    seq![(x >> 24u32) as u8, (x >> 16u32) as u8, (x >> 8u32) as u8, x as u8]
}

/// Word `t` of the message schedule of a 64-byte block.
pub open spec fn schedule(block: Seq<u8>, t: nat) -> u32
    decreases t,
{
    if t < 16 {
        word_of(block, 4 * t as int)
    } else {
        plus(
            plus(small_sigma1(schedule(block, (t - 2) as nat)), schedule(block, (t - 7) as nat)),
            plus(small_sigma0(schedule(block, (t - 15) as nat)), schedule(block, (t - 16) as nat)),
        )
    }
}

/// One round of the compression function.
pub open spec fn round(w: Words, k: u32, m: u32) -> Words {
    let t1 = plus(plus(plus(plus(w.h, big_sigma1(w.e)), choice(w.e, w.f, w.g)), k), m);
    let t2 = plus(big_sigma0(w.a), majority(w.a, w.b, w.c));
    Words { a: plus(t1, t2), b: w.a, c: w.b, d: w.c, e: plus(w.d, t1), f: w.e, g: w.f, h: w.g }
}

/// The working words after the first `t` rounds over `block`.
pub open spec fn rounds(w: Words, block: Seq<u8>, t: nat) -> Words
    decreases t,
{
    if t == 0 {
        w
    } else {
        let p = (t - 1) as nat;
        round(rounds(w, block, p), round_constants()[p as int], schedule(block, p))
    }
}

/// The compression function: 64 rounds, added back to the chaining value.
pub open spec fn compress(w: Words, block: Seq<u8>) -> Words {
    let r = rounds(w, block, 64);
    Words {
        a: plus(w.a, r.a),
        b: plus(w.b, r.b),
        c: plus(w.c, r.c),
        d: plus(w.d, r.d),
        e: plus(w.e, r.e),
        f: plus(w.f, r.f),
        g: plus(w.g, r.g),
        h: plus(w.h, r.h),
    }
}

/// The chaining value after the first `n` blocks of a padded message.
pub open spec fn absorb(padded: Seq<u8>, n: nat) -> Words
    decreases n,
{
    if n == 0 {
        initial_words()
    } else {
        let p = (n - 1) as nat;
        compress(absorb(padded, p), padded.subrange(64 * (p as int), 64 * (p as int) + 64))
    }
}

/// The padded message: a one bit, zeros up to 8 bytes short of a block, then
/// the length in bits as a big-endian 64-bit number.
pub open spec fn padded(msg: Seq<u8>) -> Seq<u8> {
    let bits = (8 * msg.len()) % 0x1_0000_0000_0000_0000;
    msg.push(0x80u8) + Seq::new(zeros_after(msg.len()), |i: int| 0u8) + bytes_of(
        (bits / 0x1_0000_0000) as u32,
    ) + bytes_of((bits % 0x1_0000_0000) as u32)
}

/// How many zero bytes follow the one bit of a message of `len` bytes.
pub open spec fn zeros_after(len: nat) -> nat {
    ((119 - len % 64) % 64) as nat
}

/// The bytes of the final words.
pub open spec fn digest_of(w: Words) -> Seq<u8> {
    bytes_of(w.a) + bytes_of(w.b) + bytes_of(w.c) + bytes_of(w.d) + bytes_of(w.e) + bytes_of(w.f)
        + bytes_of(w.g) + bytes_of(w.h)
}

/// The SHA-256 digest of `msg`.
#[verifier::opaque]
pub open spec fn sha256_spec(msg: Seq<u8>) -> Seq<u8> {
    digest_of(absorb(padded(msg), padded(msg).len() / 64))
}

/// The key of an HMAC brought to the block size: hashed if it is longer, then
/// filled with zeros.
pub open spec fn block_key(key: Seq<u8>) -> Seq<u8> {
    let k = if key.len() > 64 {
        sha256_spec(key)
    } else {
        key
    };
    Seq::new(64, |i: int| if i < k.len() { k[i] } else { 0u8 })
}

/// Every byte of `b` xor-ed with `mask`.
pub open spec fn masked(b: Seq<u8>, mask: u8) -> Seq<u8> {
    Seq::new(b.len(), |i: int| b[i] ^ mask)
}

/// The HMAC-SHA-256 of `msg` under `key`.
#[verifier::opaque]
pub open spec fn hmac_spec(key: Seq<u8>, msg: Seq<u8>) -> Seq<u8> {
    sha256_spec(
        masked(block_key(key), 0x5c) + sha256_spec(masked(block_key(key), 0x36) + msg),
    )
}

/// Lower-case hexadecimal, two digits per byte.
pub open spec fn hex_spec(b: Seq<u8>) -> Seq<char>
    decreases b.len(),
{
    if b.len() == 0 {
        Seq::empty()
    } else {
        hex_spec(b.drop_last()).push(crate::text::digit((b.last() / 16) as nat)).push(
            crate::text::digit((b.last() % 16) as nat),
        )
    }
}

/// A digest is 32 bytes long.
pub proof fn lemma_digest_len(msg: Seq<u8>)
    ensures
        sha256_spec(msg).len() == 32,
{
    reveal(sha256_spec);
}

fn add32(x: u32, y: u32) -> (r: u32)
    ensures
        r == plus(x, y),
{
    x.wrapping_add(y)
}

fn rotate(x: u32, n: u32) -> (r: u32)
    requires
        0 < n < 32,
    ensures
        r == rotr(x, n),
{
    (x >> n) | (x << (32 - n))
}

fn constant(t: usize) -> (k: u32)
    requires
        t < 64,
    ensures
        k == round_constants()[t as int],
{
    let k: [u32; 64] = [
        0x428a2f98, 0x71374491, 0xb5c0fbcf, 0xe9b5dba5,
        0x3956c25b, 0x59f111f1, 0x923f82a4, 0xab1c5ed5,
        0xd807aa98, 0x12835b01, 0x243185be, 0x550c7dc3,
        0x72be5d74, 0x80deb1fe, 0x9bdc06a7, 0xc19bf174,
        0xe49b69c1, 0xefbe4786, 0x0fc19dc6, 0x240ca1cc,
        0x2de92c6f, 0x4a7484aa, 0x5cb0a9dc, 0x76f988da,
        0x983e5152, 0xa831c66d, 0xb00327c8, 0xbf597fc7,
        0xc6e00bf3, 0xd5a79147, 0x06ca6351, 0x14292967,
        0x27b70a85, 0x2e1b2138, 0x4d2c6dfc, 0x53380d13,
        0x650a7354, 0x766a0abb, 0x81c2c92e, 0x92722c85,
        0xa2bfe8a1, 0xa81a664b, 0xc24b8b70, 0xc76c51a3,
        0xd192e819, 0xd6990624, 0xf40e3585, 0x106aa070,
        0x19a4c116, 0x1e376c08, 0x2748774c, 0x34b0bcb5,
        0x391c0cb3, 0x4ed8aa4a, 0x5b9cca4f, 0x682e6ff3,
        0x748f82ee, 0x78a5636f, 0x84c87814, 0x8cc70208,
        0x90befffa, 0xa4506ceb, 0xbef9a3f7, 0xc67178f2,
    ];
    assert(k@ =~= round_constants());
    k[t]
}

/// Compresses the block that starts at `at` into `w`.
fn compress_block(w: Words, msg: &Vec<u8>, at: usize) -> (r: Words)
    requires
        at + 64 <= msg.len(),
    ensures
        r == compress(w, msg@.subrange(at as int, at + 64)),
{
    let ghost block = msg@.subrange(at as int, at + 64);
    let mut m: [u32; 64] = [0u32; 64];
    let mut t: usize = 0;
    while t < 16
        invariant
            t <= 16,
            at + 64 <= msg.len(),
            block == msg@.subrange(at as int, at + 64),
            forall|j: int| 0 <= j < t ==> m@[j] == schedule(block, j as nat),
        decreases 16 - t,
    {
        let i: usize = at + 4 * t;
        m[t] = ((msg[i] as u32) << 24u32) | ((msg[i + 1] as u32) << 16u32) | ((msg[i + 2] as u32)
            << 8u32) | (msg[i + 3] as u32);
        assert(block[4 * t as int] == msg@[i as int]);
        t += 1;
    }
    while t < 64
        invariant
            16 <= t <= 64,
            forall|j: int| 0 <= j < t ==> m@[j] == schedule(block, j as nat),
        decreases 64 - t,
    {
        let x: u32 = m[t - 2];
        let y: u32 = m[t - 15];
        let s1: u32 = rotate(x, 17) ^ rotate(x, 19) ^ (x >> 10u32);
        let s0: u32 = rotate(y, 7) ^ rotate(y, 18) ^ (y >> 3u32);
        m[t] = add32(add32(s1, m[t - 7]), add32(s0, m[t - 16]));
        t += 1;
    }
    let mut r: Words = w;
    t = 0;
    while t < 64
        invariant
            t <= 64,
            forall|j: int| 0 <= j < 64 ==> m@[j] == schedule(block, j as nat),
            r == rounds(w, block, t as nat),
        decreases 64 - t,
    {
        let s1: u32 = rotate(r.e, 6) ^ rotate(r.e, 11) ^ rotate(r.e, 25);
        let ch: u32 = (r.e & r.f) ^ (!r.e & r.g);
        let t1: u32 = add32(add32(add32(add32(r.h, s1), ch), constant(t)), m[t]);
        let s0: u32 = rotate(r.a, 2) ^ rotate(r.a, 13) ^ rotate(r.a, 22);
        let maj: u32 = (r.a & r.b) ^ (r.a & r.c) ^ (r.b & r.c);
        let t2: u32 = add32(s0, maj);
        r = Words {
            a: add32(t1, t2),
            b: r.a,
            c: r.b,
            d: r.c,
            e: add32(r.d, t1),
            f: r.e,
            g: r.f,
            h: r.g,
        };
        t += 1;
    }
    Words {
        a: add32(w.a, r.a),
        b: add32(w.b, r.b),
        c: add32(w.c, r.c),
        d: add32(w.d, r.d),
        e: add32(w.e, r.e),
        f: add32(w.f, r.f),
        g: add32(w.g, r.g),
        h: add32(w.h, r.h),
    }
}

fn push_word(out: &mut Vec<u8>, x: u32)
    ensures
        final(out)@ == old(out)@ + bytes_of(x),
{
    out.push(#[verifier::truncate] ((x >> 24u32) as u8));
    out.push(#[verifier::truncate] ((x >> 16u32) as u8));
    out.push(#[verifier::truncate] ((x >> 8u32) as u8));
    out.push(#[verifier::truncate] (x as u8));
    assert(out@ =~= old(out)@ + bytes_of(x));
}

/// The 32 bytes of `v` as a digest.
pub fn to_digest(v: &[u8]) -> (d: Digest)
    requires
        v.len() == 32,
    ensures
        d@ == v@,
{
    let mut d: Digest = [0u8; 32];
    let mut i: usize = 0;
    while i < 32
        invariant
            i <= 32,
            v.len() == 32,
            forall|j: int| 0 <= j < i ==> d@[j] == v@[j],
        decreases 32 - i,
    {
        d[i] = v[i];
        i += 1;
    }
    assert(d@ =~= v@);
    d
}

/// The padded message.
fn pad(msg: &[u8]) -> (buf: Vec<u8>)
    ensures
        buf@ == padded(msg@),
{
    let mut buf: Vec<u8> = Vec::new();
    buf.extend_from_slice(msg);
    assert(buf@ =~= msg@);
    let len: u64 = msg.len() as u64;
    buf.push(0x80);
    let zeros: u64 = (119 - len % 64) % 64;
    let mut i: u64 = 0;
    while i < zeros
        invariant
            i <= zeros,
            buf@ == msg@.push(0x80u8) + Seq::new(i as nat, |j: int| 0u8),
        decreases zeros - i,
    {
        buf.push(0);
        i += 1;
        assert(buf@ =~= msg@.push(0x80u8) + Seq::new(i as nat, |j: int| 0u8));
    }
    let bits: u64 = ((len % 0x2000_0000_0000_0000) * 8) as u64;
    assert(bits as int == (8 * msg@.len()) as int % 0x1_0000_0000_0000_0000);
    push_word(&mut buf, (bits / 0x1_0000_0000) as u32);
    push_word(&mut buf, (bits % 0x1_0000_0000) as u32);
    buf
}

/// The digest that the words hold.
fn words_digest(w: Words) -> (d: Digest)
    ensures
        d@ == digest_of(w),
{
    let mut out: Vec<u8> = Vec::new();
    push_word(&mut out, w.a);
    assert(out@ =~= bytes_of(w.a));
    push_word(&mut out, w.b);
    push_word(&mut out, w.c);
    push_word(&mut out, w.d);
    push_word(&mut out, w.e);
    push_word(&mut out, w.f);
    push_word(&mut out, w.g);
    push_word(&mut out, w.h);
    to_digest(out.as_slice())
}

/// The SHA-256 digest of `msg`.
pub fn sha256(msg: &[u8]) -> (d: Digest)
    ensures
        d@ == sha256_spec(msg@),
{
    let buf: Vec<u8> = pad(msg);
    let n: usize = buf.len() / 64;
    let mut w: Words = Words {
        a: 0x6a09e667,
        b: 0xbb67ae85,
        c: 0x3c6ef372,
        d: 0xa54ff53a,
        e: 0x510e527f,
        f: 0x9b05688c,
        g: 0x1f83d9ab,
        h: 0x5be0cd19,
    };
    let mut k: usize = 0;
    while k < n
        invariant
            k <= n,
            n == buf.len() / 64,
            w == absorb(buf@, k as nat),
        decreases n - k,
    {
        w = compress_block(w, &buf, 64 * k);
        k += 1;
    }
    proof {
        reveal(sha256_spec);
    }
    words_digest(w)
}

/// The HMAC-SHA-256 of `msg` under `key`.
pub fn hmac_sha256(key: &[u8], msg: &[u8]) -> (d: Digest)
    ensures
        d@ == hmac_spec(key@, msg@),
{
    let mut k: Vec<u8> = Vec::new();
    if key.len() > 64 {
        let short = sha256(key);
        k.extend_from_slice(short.as_slice());
        proof {
            lemma_digest_len(key@);
        }
    } else {
        k.extend_from_slice(key);
        assert(k@ =~= key@);
    }
    let ghost start = k@;
    while k.len() < 64
        invariant
            start.len() <= k.len() <= 64,
            k@ == Seq::new(k@.len(), |i: int| if i < start.len() { start[i] } else { 0u8 }),
        decreases 64 - k.len(),
    {
        let ghost before = k@;
        k.push(0);
        assert(k@ =~= Seq::new(k@.len(), |i: int| if i < start.len() { start[i] } else { 0u8 }));
    }
    assert(k@ =~= block_key(key@));
    let mut inner: Vec<u8> = Vec::new();
    let mut outer: Vec<u8> = Vec::new();
    let mut i: usize = 0;
    while i < 64
        invariant
            i <= 64,
            k.len() == 64,
            inner@ == masked(k@.take(i as int), 0x36),
            outer@ == masked(k@.take(i as int), 0x5c),
        decreases 64 - i,
    {
        inner.push(k[i] ^ 0x36);
        outer.push(k[i] ^ 0x5c);
        i += 1;
        assert(inner@ =~= masked(k@.take(i as int), 0x36));
        assert(outer@ =~= masked(k@.take(i as int), 0x5c));
    }
    assert(k@.take(64) =~= k@);
    inner.extend_from_slice(msg);
    assert(inner@ =~= masked(k@, 0x36) + msg@);
    let first = sha256(inner.as_slice());
    outer.extend_from_slice(first.as_slice());
    assert(outer@ =~= masked(k@, 0x5c) + first@);
    proof {
        reveal(hmac_spec);
    }
    sha256(outer.as_slice())
}

/// A digest in lower-case hexadecimal.
pub fn hex(d: &Digest) -> (r: String)
    ensures
        r@ == hex_spec(d@),
{
    let mut out = String::new();
    let mut i: usize = 0;
    while i < 32
        invariant
            i <= 32,
            out@ == hex_spec(d@.take(i as int)),
        decreases 32 - i,
    {
        let b: u8 = d[i];
        out.push(crate::text::digit_char(b / 16));
        out.push(crate::text::digit_char(b % 16));
        i += 1;
        assert(d@.take(i as int).drop_last() =~= d@.take(i - 1));
    }
    assert(d@.take(32) =~= d@);
    out
}

/// A key that is longer than a block stands for its digest, and a shorter one
/// for itself followed by zeros: what is signed under either is signed alike.
pub proof fn law_keys_are_brought_to_a_block(key: Seq<u8>, msg: Seq<u8>, n: nat)
    ensures
        key.len() > 64 ==> hmac_spec(key, msg) == hmac_spec(sha256_spec(key), msg),
        key.len() + n <= 64 ==> hmac_spec(key, msg) == hmac_spec(
            key + Seq::new(n, |i: int| 0u8),
            msg,
        ),
        key.len() == 64 ==> block_key(key) == key,
{
    reveal(hmac_spec);
    lemma_digest_len(key);
    if key.len() > 64 {
        assert(block_key(sha256_spec(key)) =~= block_key(key));
    }
    if key.len() + n <= 64 {
        let longer = key + Seq::new(n, |i: int| 0u8);
        assert(block_key(longer) =~= block_key(key));
    }
    if key.len() == 64 {
        assert(block_key(key) =~= key);
    }
}

/// A padded message is whole blocks. It starts with the message and a one bit;
/// zeros follow up to the last eight bytes, and there are fewer of them than
/// would fill a block.
pub proof fn law_padding_fills_blocks(msg: Seq<u8>, i: int)
    ensures
        ({
            let p = padded(msg);
            &&& p.len() % 64 == 0
            &&& msg.len() + 9 <= p.len() < msg.len() + 73
            &&& p.take(msg.len() as int) == msg
            &&& p[msg.len() as int] == 0x80
            &&& msg.len() < i < p.len() - 8 ==> p[i] == 0
        }),
{
    let p = padded(msg);
    assert(p.take(msg.len() as int) =~= msg);
}

/// Every byte is two digits, the higher one first.
pub proof fn law_hex_has_two_digits_per_byte(b: Seq<u8>, i: int)
    ensures
        hex_spec(b).len() == 2 * b.len(),
        0 <= i < b.len() ==> hex_spec(b)[2 * i] == crate::text::digit((b[i] / 16) as nat),
        0 <= i < b.len() ==> hex_spec(b)[2 * i + 1] == crate::text::digit((b[i] % 16) as nat),
    decreases b.len(),
{
    if b.len() > 0 {
        law_hex_has_two_digits_per_byte(b.drop_last(), i);
    }
}

} // verus!
