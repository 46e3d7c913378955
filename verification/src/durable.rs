//! Durable programs: how the `durable` attribute turns an agent function into
//! one that journals its own identity.
//!
//! The attribute hashes the source of the function and puts a
//! `program_marker` call at the top of its body. The marker is journaled on
//! record and verified on replay, so a run recorded under one version of an
//! agent refuses to replay under another.
use vstd::arithmetic::div_mod::*;
use vstd::prelude::*;
use vstd::utf8::*;

use crate::text;

verus! {

/// What encloses a group of tokens.
pub enum Delimiter {
    Parenthesis,
    Brace,
    Bracket,
    Invisible,
}

/// A token tree of a Rust item.
pub enum Token {
    Ident(String),
    Punct(char),
    Literal(String),
    Group(Delimiter, Vec<Token>),
}

/// The state that the hash of an empty text leaves.
pub const FNV_OFFSET: u64 = 0xcbf29ce484222325;

/// What the hash is multiplied by for every byte.
pub const FNV_PRIME: u64 = 0x100000001b3;

/// One step of the hash: mix in a byte, then multiply modulo 2^64.
pub open spec fn fnv_step(h: u64, b: u8) -> u64 {
    (((h ^ (b as u64)) as nat * FNV_PRIME as nat) % 0x1_0000_0000_0000_0000) as u64
}

/// The FNV-1a hash of some bytes.
pub open spec fn fnv1a_spec(bytes: Seq<u8>) -> u64
    decreases bytes.len(),
{
    if bytes.len() == 0 {
        FNV_OFFSET
    } else {
        fnv_step(fnv1a_spec(bytes.drop_last()), bytes.last())
    }
}

/// FNV-1a over the UTF-8 bytes of a text.
pub fn fnv1a(text: &str) -> (r: u64)
    ensures
        r == fnv1a_spec(encode_utf8(text@)),
{
    let bytes = text.as_bytes();
    let mut h: u64 = FNV_OFFSET;
    let mut i: usize = 0;
    assert(bytes@.take(0) =~= Seq::empty());
    while i < bytes.len()
        invariant
            i <= bytes@.len(),
            h == fnv1a_spec(bytes@.take(i as int)),
        decreases bytes@.len() - i,
    {
        proof {
            assert(bytes@.take(i + 1).drop_last() =~= bytes@.take(i as int));
            assert(bytes@.take(i + 1).last() == bytes@[i as int]);
        }
        h = (h ^ (bytes[i] as u64)).wrapping_mul(FNV_PRIME);
        i += 1;
    }
    assert(bytes@.take(bytes@.len() as int) =~= bytes@);
    h
}

/// The inverse of the prime modulo 2^64.
spec fn prime_inverse() -> int {
    0xce965057aff6957b
}

/// A step can be undone: different states, or different bytes, lead to
/// different states.
proof fn lemma_step_injective(h1: u64, b1: u8, h2: u64, b2: u8)
    ensures
        b1 == b2 && h1 != h2 ==> fnv_step(h1, b1) != fnv_step(h2, b2),
        h1 == h2 && b1 != b2 ==> fnv_step(h1, b1) != fnv_step(h2, b2),
{
    let m: int = 0x1_0000_0000_0000_0000;
    let x = h1 ^ (b1 as u64);
    let y = h2 ^ (b2 as u64);
    assert(b1 == b2 && h1 != h2 ==> x != y) by {
        assert(b1 == b2 && h1 != h2 ==> h1 ^ (b1 as u64) != h2 ^ (b2 as u64)) by (bit_vector);
    }
    assert(h1 == h2 && b1 != b2 ==> x != y) by {
        assert(h1 == h2 && b1 != b2 ==> h1 ^ (b1 as u64) != h2 ^ (b2 as u64)) by (bit_vector);
    }
    assert forall|z: u64| #[trigger]
        ((z as int * FNV_PRIME as int) % m * prime_inverse()) % m == z by {
        lemma_mul_mod_noop_left(z as int * FNV_PRIME as int, prime_inverse(), m);
        assert(FNV_PRIME as int * prime_inverse() == 1 + m * (FNV_PRIME as int * prime_inverse()
            / m)) by {
            assert(FNV_PRIME as int * prime_inverse() % m == 1);
            lemma_fundamental_div_mod(FNV_PRIME as int * prime_inverse(), m);
        }
        let q = FNV_PRIME as int * prime_inverse() / m;
        assert(z as int * FNV_PRIME as int * prime_inverse() == m * (z as int * q) + z as int)
            by (nonlinear_arith)
            requires
                FNV_PRIME as int * prime_inverse() == 1 + m * q,
        ;
        lemma_mod_multiples_vanish(z as int * q, z as int, m);
        lemma_small_mod(z as nat, m as nat);
    }
    assert(((x as int * FNV_PRIME as int) % m * prime_inverse()) % m == x);
    assert(((y as int * FNV_PRIME as int) % m * prime_inverse()) % m == y);
}

proof fn lemma_same_tail(a: Seq<u8>, b: Seq<u8>, tail: Seq<u8>)
    requires
        fnv1a_spec(a) != fnv1a_spec(b),
    ensures
        fnv1a_spec(a + tail) != fnv1a_spec(b + tail),
    decreases tail.len(),
{
    if tail.len() == 0 {
        assert(a + tail =~= a);
        assert(b + tail =~= b);
    } else {
        lemma_same_tail(a, b, tail.drop_last());
        assert((a + tail).drop_last() =~= a + tail.drop_last());
        assert((b + tail).drop_last() =~= b + tail.drop_last());
        lemma_step_injective(
            fnv1a_spec(a + tail.drop_last()),
            tail.last(),
            fnv1a_spec(b + tail.drop_last()),
            tail.last(),
        );
    }
}

/// An edit of one byte anywhere in a program changes its hash.
pub proof fn law_one_byte_edit_changes_the_hash(before: Seq<u8>, a: u8, b: u8, after: Seq<u8>)
    requires
        a != b,
    ensures
        fnv1a_spec(before.push(a) + after) != fnv1a_spec(before.push(b) + after),
{
    assert(before.push(a).drop_last() =~= before);
    assert(before.push(b).drop_last() =~= before);
    lemma_step_injective(fnv1a_spec(before), a, fnv1a_spec(before), b);
    lemma_same_tail(before.push(a), before.push(b), after);
}

/// The last `width` hexadecimal digits of `n`, with leading zeros.
pub open spec fn fixed_hex(n: nat, width: nat) -> Seq<char>
    decreases width,
{
    if width == 0 {
        Seq::empty()
    } else {
        fixed_hex(n / 16, (width - 1) as nat).push(text::digit(n % 16))
    }
}

fn push_fixed_hex(out: &mut String, n: u64, width: u8)
    ensures
        final(out)@ == old(out)@ + fixed_hex(n as nat, width as nat),
    decreases width,
{
    if width > 0 {
        push_fixed_hex(out, n / 16, width - 1);
        out.push(text::digit_char((n % 16) as u8));
    }
    assert(out@ =~= old(out)@ + fixed_hex(n as nat, width as nat));
}

/// The hash of a program's source text, as the marker records it.
pub open spec fn program_hash(source: Seq<char>) -> Seq<char> {
    fixed_hex(fnv1a_spec(encode_utf8(source)) as nat, 16)
}

/// Is the token this identifier?
pub open spec fn is_ident(t: Token, name: Seq<char>) -> bool {
    t matches Token::Ident(i) && i@ == name
}

/// Is the token a group in braces?
pub open spec fn is_braces(t: Token) -> bool {
    t matches Token::Group(Delimiter::Brace, _)
}

/// The index of the first token that satisfies `p`.
pub open spec fn first_where(tokens: Seq<Token>, p: spec_fn(Token) -> bool) -> Option<int>
    decreases tokens.len(),
{
    if tokens.len() == 0 {
        None
    } else if p(tokens[0]) {
        Some(0)
    } else {
        match first_where(tokens.skip(1), p) {
            Some(i) => Some(i + 1),
            None => None,
        }
    }
}

/// The index of the last token that satisfies `p`.
pub open spec fn last_where(tokens: Seq<Token>, p: spec_fn(Token) -> bool) -> Option<int>
    decreases tokens.len(),
{
    if tokens.len() == 0 {
        None
    } else if p(tokens.last()) {
        Some(tokens.len() - 1)
    } else {
        last_where(tokens.drop_last(), p)
    }
}

proof fn lemma_first_where(tokens: Seq<Token>, p: spec_fn(Token) -> bool, n: int)
    requires
        0 <= n <= tokens.len(),
        forall|i: int| 0 <= i < n ==> !p(#[trigger] tokens[i]),
        n == tokens.len() || p(tokens[n]),
    ensures
        first_where(tokens, p) == (if n == tokens.len() {
            None::<int>
        } else {
            Some(n)
        }),
    decreases tokens.len(),
{
    if n > 0 {
        assert(!p(tokens[0]));
        assert forall|i: int| 0 <= i < n - 1 implies !p(#[trigger] tokens.skip(1)[i]) by {
            assert(tokens.skip(1)[i] == tokens[i + 1]);
        }
        lemma_first_where(tokens.skip(1), p, n - 1);
    }
}

/// The identifier that a token binds: any but `mut`.
pub open spec fn binding(t: Token) -> Option<Seq<char>> {
    match t {
        Token::Ident(i) => if i@ == "mut"@ {
            None
        } else {
            Some(i@)
        },
        _ => None,
    }
}

/// The last identifier that some tokens bind.
pub open spec fn last_binding(tokens: Seq<Token>) -> Option<Seq<char>>
    decreases tokens.len(),
{
    if tokens.len() == 0 {
        None
    } else {
        match binding(tokens.last()) {
            Some(name) => Some(name),
            None => last_binding(tokens.drop_last()),
        }
    }
}

/// The name that the first parameter of an argument list binds: the last
/// identifier before the first colon.
pub open spec fn first_param(args: Seq<Token>) -> Option<Seq<char>> {
    match first_where(args, |t: Token| t == Token::Punct(':')) {
        Some(i) => last_binding(args.take(i)),
        None => None,
    }
}

/// Where the name of the function stands that some tokens declare: right after
/// the first `fn` that an identifier follows.
pub open spec fn name_index(tokens: Seq<Token>) -> Option<int>
    decreases tokens.len(),
{
    if tokens.len() < 2 {
        None
    } else if is_ident(tokens[0], "fn"@) && tokens[1] is Ident {
        Some(1)
    } else {
        match name_index(tokens.skip(1)) {
            Some(i) => Some(i + 1),
            None => None,
        }
    }
}

/// The argument list behind the name of a function: the first group in round
/// brackets that stands outside of `depth` angle brackets and those opened from
/// here on; `arrow` tells whether a `-` stands before the tokens.
pub open spec fn arguments(tokens: Seq<Token>, depth: nat, arrow: bool) -> Option<Seq<Token>>
    decreases tokens.len(),
{
    if tokens.len() == 0 {
        None
    } else {
        let rest = tokens.skip(1);
        match tokens[0] {
            Token::Group(Delimiter::Parenthesis, args) => if depth == 0 {
                Some(args@)
            } else {
                arguments(rest, depth, false)
            },
            Token::Punct(c) => if c == '<' {
                arguments(rest, depth + 1, false)
            } else if c == '>' && !arrow && depth > 0 {
                arguments(rest, (depth - 1) as nat, false)
            } else {
                arguments(rest, depth, c == '-')
            },
            _ => arguments(rest, depth, false),
        }
    }
}

/// The name of the first parameter of the function whose name stands at `at`.
pub open spec fn context_name(tokens: Seq<Token>, at: int) -> Option<Seq<char>> {
    match arguments(tokens.skip(at + 1), 0, false) {
        Some(args) => first_param(args),
        None => None,
    }
}

/// The statement that the body of a durable function starts with.
pub open spec fn marker(ctx: Seq<char>, name: Seq<char>, hash: Seq<char>) -> Seq<char> {
    ctx + ".program_marker("@ + text::debug_text(name) + ", "@ + text::debug_text(hash) + ")?;"@
}

/// What becomes of an item under the attribute: the index of its body and the
/// statement to put before it, or why the attribute is refused.
pub open spec fn planned(no_attr: bool, tokens: Seq<Token>, source: Seq<char>) -> Result<
    (int, Seq<char>),
    Seq<char>,
> {
    if !no_attr {
        Err("#[pragmatic::durable] takes no arguments"@)
    } else {
        match name_index(tokens) {
            None => Err("#[pragmatic::durable] must be applied to a function"@),
            Some(at) => match context_name(tokens, at) {
                None => Err(
                    "#[pragmatic::durable] requires the first parameter to be the `&mut Ctx`"@,
                ),
                Some(ctx) => match last_where(tokens, |t: Token| is_braces(t)) {
                    None => Err("#[pragmatic::durable] requires a function with a body"@),
                    Some(body) => Ok(
                        (body, marker(ctx, tokens[at]->Ident_0@, program_hash(source))),
                    ),
                },
            },
        }
    }
}

/// The change that makes a function durable.
pub struct Plan {
    /// The index of the group that is the body.
    pub body: usize,
    /// The statement to put at its start.
    pub marker: String,
}

/// The name that the first parameter of an argument list binds.
pub fn first_param_name(args: &Vec<Token>) -> (r: Option<String>)
    ensures
        match r {
            Some(s) => first_param(args@) == Some(s@),
            None => first_param(args@) is None,
        },
{
    let mut last: Option<String> = None;
    let mut i: usize = 0;
    let ghost is_colon = |t: Token| t == Token::Punct(':');
    assert(args@.take(0) =~= Seq::empty());
    while i < args.len()
        invariant
            i <= args@.len(),
            is_colon == (|t: Token| t == Token::Punct(':')),
            forall|k: int| 0 <= k < i ==> !is_colon(#[trigger] args@[k]),
            match last {
                Some(s) => last_binding(args@.take(i as int)) == Some(s@),
                None => last_binding(args@.take(i as int)) is None,
            },
        decreases args@.len() - i,
    {
        proof {
            assert(args@.take(i + 1).drop_last() =~= args@.take(i as int));
            assert(args@.take(i + 1).last() == args@[i as int]);
        }
        match &args[i] {
            Token::Ident(s) => {
                if !text::same_text(s.as_str(), "mut") {
                    last = Some(s.clone());
                }
            },
            Token::Punct(c) => {
                if *c == ':' {
                    proof {
                        lemma_first_where(args@, is_colon, i as int);
                    }
                    return last;
                }
            },
            _ => {},
        }
        i += 1;
    }
    proof {
        lemma_first_where(args@, is_colon, i as int);
    }
    None
}

/// The name of the function that some tokens declare, and where it stands.
pub fn function_name(tokens: &Vec<Token>) -> (r: Option<(usize, String)>)
    ensures
        match r {
            Some((at, s)) => {
                &&& name_index(tokens@) == Some(at as int)
                &&& at < tokens@.len()
                &&& tokens@[at as int] matches Token::Ident(name) && name@ == s@
            },
            None => name_index(tokens@) is None,
        },
{
    if tokens.len() == 0 {
        return None;
    }
    let last: usize = tokens.len() - 1;
    let mut i: usize = 0;
    assert(tokens@.skip(0) =~= tokens@);
    while i < last
        invariant
            i <= last,
            last == tokens@.len() - 1,
            match name_index(tokens@.skip(i as int)) {
                Some(n) => name_index(tokens@) == Some(n + i),
                None => name_index(tokens@) is None,
            },
        decreases last - i,
    {
        let ghost rest = tokens@.skip(i as int);
        assert(rest[0] == tokens@[i as int] && rest[1] == tokens@[i + 1]);
        assert(rest.skip(1) =~= tokens@.skip(i + 1));
        if let Token::Ident(keyword) = &tokens[i] {
            if let Token::Ident(name) = &tokens[i + 1] {
                if text::same_text(keyword.as_str(), "fn") {
                    return Some((i + 1, name.clone()));
                }
            }
        }
        i += 1;
    }
    None
}

/// The name of the first parameter of the function whose name stands at `at`.
fn parameter_name(tokens: &Vec<Token>, at: usize) -> (r: Option<String>)
    requires
        at < tokens@.len(),
    ensures
        match r {
            Some(s) => context_name(tokens@, at as int) == Some(s@),
            None => context_name(tokens@, at as int) is None,
        },
{
    let n: usize = tokens.len();
    let mut i: usize = at + 1;
    let mut depth: usize = 0;
    let mut arrow: bool = false;
    while i < n
        invariant
            n == tokens@.len(),
            depth <= i <= n,
            arguments(tokens@.skip(at + 1), 0, false) == arguments(
                tokens@.skip(i as int),
                depth as nat,
                arrow,
            ),
        decreases n - i,
    {
        let ghost rest = tokens@.skip(i as int);
        assert(rest[0] == tokens@[i as int]);
        assert(rest.skip(1) =~= tokens@.skip(i + 1));
        match &tokens[i] {
            Token::Group(Delimiter::Parenthesis, args) => {
                if depth == 0 {
                    return first_param_name(args);
                }
                arrow = false;
            },
            Token::Punct(c) => {
                if *c == '<' {
                    depth += 1;
                    arrow = false;
                } else if *c == '>' && !arrow && depth > 0 {
                    depth -= 1;
                    arrow = false;
                } else {
                    arrow = *c == '-';
                }
            },
            _ => {
                arrow = false;
            },
        }
        i += 1;
    }
    None
}

fn body_index(tokens: &Vec<Token>) -> (r: Option<usize>)
    ensures
        match r {
            Some(i) => last_where(tokens@, |t: Token| is_braces(t)) == Some(i as int),
            None => last_where(tokens@, |t: Token| is_braces(t)) is None,
        },
        r matches Some(i) ==> i < tokens@.len(),
{
    let ghost p = |t: Token| is_braces(t);
    let mut n: usize = tokens.len();
    assert(tokens@.take(n as int) =~= tokens@);
    while n > 0
        invariant
            n <= tokens@.len(),
            p == (|t: Token| is_braces(t)),
            last_where(tokens@, p) == last_where(tokens@.take(n as int), p),
        decreases n,
    {
        proof {
            assert(tokens@.take(n as int).drop_last() =~= tokens@.take(n - 1));
            assert(tokens@.take(n as int).last() == tokens@[n - 1]);
        }
        n -= 1;
        if let Token::Group(Delimiter::Brace, _) = &tokens[n] {
            return Some(n);
        }
    }
    None
}

/// Plans what becomes of the item that consists of `tokens` and reads
/// `source`; `no_attr` tells whether the attribute has no arguments.
pub fn durable(no_attr: bool, tokens: &Vec<Token>, source: &str) -> (r: Result<Plan, String>)
    ensures
        match r {
            Ok(p) => planned(no_attr, tokens@, source@) == Ok::<(int, Seq<char>), Seq<char>>(
                (p.body as int, p.marker@),
            ) && p.body < tokens@.len(),
            Err(e) => planned(no_attr, tokens@, source@) == Err::<(int, Seq<char>), Seq<char>>(
                e@,
            ),
        },
{
    if !no_attr {
        return Err("#[pragmatic::durable] takes no arguments".to_owned());
    }
    let mut hash = String::new();
    push_fixed_hex(&mut hash, fnv1a(source), 16);
    assert(hash@ =~= program_hash(source@));
    let (at, name) = match function_name(tokens) {
        Some(found) => found,
        None => {
            return Err("#[pragmatic::durable] must be applied to a function".to_owned());
        },
    };
    let ctx = match parameter_name(tokens, at) {
        Some(ctx) => ctx,
        None => {
            return Err(
                "#[pragmatic::durable] requires the first parameter to be the `&mut Ctx`".to_owned(),
            );
        },
    };
    let body: usize = match body_index(tokens) {
        Some(i) => i,
        None => {
            return Err("#[pragmatic::durable] requires a function with a body".to_owned());
        },
    };
    let marker = ctx.concat(".program_marker(").concat(text::debug(name.as_str()).as_str()).concat(
        ", ",
    ).concat(text::debug(hash.as_str()).as_str()).concat(")?;");
    Ok(Plan { body, marker })
}

/// The item that reports why the attribute is refused.
pub fn refusal(message: &str) -> (r: String)
    ensures
        r@ == "compile_error!("@ + text::debug_text(message@) + ");"@,
{
    "compile_error!(".to_owned().concat(text::debug(message).as_str()).concat(");")
}

/// A function is made durable if and only if the attribute has no arguments and
/// the item is a function whose first parameter has a name and which has a body.
/// The statement calls the marker on that parameter, with the name of the
/// function and the hash of the source, and goes to the last group in braces.
pub proof fn law_plan_marks_the_function(
    no_attr: bool,
    tokens: &Vec<Token>,
    source: &str,
    r: Result<Plan, String>,
)
    requires
        call_ensures(durable, (no_attr, tokens, source), r),
    ensures
        r is Ok <==> no_attr && (exists|at: int| #[trigger]
            names_function(tokens@, at) && context_name(tokens@, at) is Some) && exists|i: int|
            0 <= i < tokens@.len() && is_braces(#[trigger] tokens@[i]),
        r matches Ok(p) ==> {
            &&& p.body < tokens@.len() && is_braces(tokens@[p.body as int])
            &&& forall|i: int| p.body < i < tokens@.len() ==> !is_braces(#[trigger] tokens@[i])
            &&& exists|at: int| #[trigger]
                names_function(tokens@, at) && p.marker@ == context_name(tokens@, at)->0
                    + ".program_marker("@ + text::debug_text(tokens@[at]->Ident_0@) + ", "@
                    + text::debug_text(program_hash(source@)) + ")?;"@
        },
{
    let p = |t: Token| is_braces(t);
    lemma_name_index(tokens@);
    lemma_last_where(tokens@, p);
    if let Some(at) = name_index(tokens@) {
        assert(names_function(tokens@, at));
    }
    if let Some(i) = last_where(tokens@, p) {
        assert(p(tokens@[i]));
    }
    if let Ok(plan) = r {
        let at = name_index(tokens@)->0;
        assert forall|i: int| plan.body < i < tokens@.len() implies !is_braces(
            #[trigger] tokens@[i],
        ) by {
            assert(!p(tokens@[i]));
        }
    } else {
        if exists|i: int| 0 <= i < tokens@.len() && is_braces(#[trigger] tokens@[i]) {
            let i = choose|i: int| 0 <= i < tokens@.len() && is_braces(#[trigger] tokens@[i]);
            assert(p(tokens@[i]));
        }
    }
}

/// Does the first `fn` that an identifier follows stand right before `at`?
pub open spec fn names_function(tokens: Seq<Token>, at: int) -> bool {
    &&& 0 < at < tokens.len()
    &&& is_ident(tokens[at - 1], "fn"@) && tokens[at] is Ident
    &&& forall|i: int|
        0 < i < at ==> !(is_ident(tokens[i - 1], "fn"@) && (#[trigger] tokens[i]) is Ident)
}

proof fn lemma_name_index(tokens: Seq<Token>)
    ensures
        name_index(tokens) matches Some(at) ==> names_function(tokens, at),
        forall|at: int| #[trigger] names_function(tokens, at) ==> name_index(tokens) == Some(at),
    decreases tokens.len(),
{
    if tokens.len() >= 2 {
        let rest = tokens.skip(1);
        lemma_name_index(rest);
        if is_ident(tokens[0], "fn"@) && tokens[1] is Ident {
            assert forall|at: int| #[trigger] names_function(tokens, at) implies name_index(tokens)
                == Some(at) by {
                if at > 1 {
                    assert(is_ident(tokens[1 - 1], "fn"@) && tokens[1] is Ident);
                }
            }
        } else {
            if let Some(at) = name_index(rest) {
                assert(names_function(rest, at));
                assert forall|i: int| 0 < i < at + 1 implies !(is_ident(tokens[i - 1], "fn"@) && (
                #[trigger] tokens[i]) is Ident) by {
                    if i > 1 {
                        assert(rest[i - 1] == tokens[i]);
                        assert(rest[i - 2] == tokens[i - 1]);
                    }
                }
                assert(rest[at] == tokens[at + 1] && rest[at - 1] == tokens[at]);
                assert(names_function(tokens, at + 1));
            }
            assert forall|at: int| #[trigger] names_function(tokens, at) implies name_index(tokens)
                == Some(at) by {
                assert(at > 1);
                assert forall|i: int| 0 < i < at - 1 implies !(is_ident(rest[i - 1], "fn"@) && (
                #[trigger] rest[i]) is Ident) by {
                    assert(tokens[i + 1] == rest[i]);
                    assert(tokens[i] == rest[i - 1]);
                }
                assert(rest[at - 1] == tokens[at] && rest[at - 2] == tokens[at - 1]);
                assert(names_function(rest, at - 1));
            }
        }
    }
}

proof fn lemma_last_where(tokens: Seq<Token>, p: spec_fn(Token) -> bool)
    ensures
        match last_where(tokens, p) {
            Some(i) => 0 <= i < tokens.len() && p(tokens[i]) && forall|k: int|
                i < k < tokens.len() ==> !p(#[trigger] tokens[k]),
            None => forall|k: int| 0 <= k < tokens.len() ==> !p(#[trigger] tokens[k]),
        },
    decreases tokens.len(),
{
    if tokens.len() > 0 && !p(tokens.last()) {
        let rest = tokens.drop_last();
        lemma_last_where(rest, p);
        match last_where(rest, p) {
            Some(i) => {
                assert forall|k: int| i < k < tokens.len() implies !p(#[trigger] tokens[k]) by {
                    if k < rest.len() {
                        assert(rest[k] == tokens[k]);
                    }
                }
            },
            None => {
                assert forall|k: int| 0 <= k < tokens.len() implies !p(#[trigger] tokens[k]) by {
                    if k < rest.len() {
                        assert(rest[k] == tokens[k]);
                    }
                }
            },
        }
    }
}

/// The name that a parameter binds is the last identifier before its colon that
/// is not `mut`.
pub proof fn law_parameter_is_named_before_its_colon(args: Seq<Token>, i: int, c: int)
    requires
        0 <= i < c < args.len(),
        args[c] == Token::Punct(':'),
        forall|k: int| 0 <= k < c ==> (#[trigger] args[k]) != Token::Punct(':'),
        args[i] matches Token::Ident(s) && s@ != "mut"@,
        forall|k: int|
            i < k < c ==> (#[trigger] args[k] !is Ident || args[k]->Ident_0@ == "mut"@),
    ensures
        first_param(args) == Some(args[i]->Ident_0@),
{
    lemma_first_where(args, |t: Token| t == Token::Punct(':'), c);
    lemma_last_binding(args.take(c), i);
}

proof fn lemma_last_binding(tokens: Seq<Token>, i: int)
    requires
        0 <= i < tokens.len(),
        tokens[i] matches Token::Ident(s) && s@ != "mut"@,
        forall|k: int|
            i < k < tokens.len() ==> (#[trigger] tokens[k] !is Ident || tokens[k]->Ident_0@
                == "mut"@),
    ensures
        last_binding(tokens) == Some(tokens[i]->Ident_0@),
    decreases tokens.len(),
{
    if i < tokens.len() - 1 {
        let rest = tokens.drop_last();
        assert forall|k: int| i < k < rest.len() implies (#[trigger] rest[k] !is Ident
            || rest[k]->Ident_0@ == "mut"@) by {
            assert(rest[k] == tokens[k]);
        }
        lemma_last_binding(rest, i);
        assert(tokens[tokens.len() - 1] !is Ident || tokens[tokens.len() - 1]->Ident_0@
            == "mut"@);
    }
}

/// A program's hash is sixteen hexadecimal digits, and programs whose hashes
/// differ as numbers differ in them.
pub proof fn law_hash_digits_tell_hashes_apart(a: u64, b: u64)
    ensures
        fixed_hex(a as nat, 16).len() == 16,
        fixed_hex(a as nat, 16) == fixed_hex(b as nat, 16) ==> a == b,
{
    lemma_fixed_hex(a as nat, b as nat, 16);
    assert(vstd::arithmetic::power::pow(16, 16) == 0x1_0000_0000_0000_0000) by {
        reveal_with_fuel(vstd::arithmetic::power::pow, 17);
    }
}

proof fn lemma_fixed_hex(a: nat, b: nat, width: nat)
    ensures
        fixed_hex(a, width).len() == width,
        a < vstd::arithmetic::power::pow(16, width) && b < vstd::arithmetic::power::pow(16, width)
            && fixed_hex(a, width) == fixed_hex(b, width) ==> a == b,
    decreases width,
{
    reveal(vstd::arithmetic::power::pow);
    if width > 0 {
        lemma_fixed_hex(a / 16, b / 16, (width - 1) as nat);
        let x = fixed_hex(a / 16, (width - 1) as nat);
        let y = fixed_hex(b / 16, (width - 1) as nat);
        if fixed_hex(a, width) == fixed_hex(b, width) {
            assert(x =~= fixed_hex(a, width).drop_last());
            assert(y =~= fixed_hex(b, width).drop_last());
            assert(text::digit(a % 16) == fixed_hex(a, width).last());
            assert(text::digit(b % 16) == fixed_hex(b, width).last());
            assert(a % 16 == b % 16);
        }
    }
}

/// The arguments of a function are the first group in round brackets behind its
/// name; generic parameters between angle brackets are passed over, whatever
/// groups they hold and even where one of them has an arrow.
pub proof fn law_generics_are_passed_over(
    a: Seq<Token>,
    b: Seq<Token>,
    args: Vec<Token>,
    rest: Seq<Token>,
)
    requires
        no_angle(a),
        no_angle(b),
        b.len() > 0 ==> b.last() != Token::Punct('-'),
    ensures
        ({
            let list = seq![Token::Group(Delimiter::Parenthesis, args)] + rest;
            let arrow = seq![Token::Punct('-'), Token::Punct('>')];
            &&& arguments(list, 0, false) == Some(args@)
            &&& arguments(
                seq![Token::Punct('<')] + b + (seq![Token::Punct('>')] + list),
                0,
                false,
            ) == Some(args@)
            &&& arguments(
                seq![Token::Punct('<')] + a + (arrow + (b + (seq![Token::Punct('>')] + list))),
                0,
                false,
            ) == Some(args@)
        }),
{
    let list = seq![Token::Group(Delimiter::Parenthesis, args)] + rest;
    let close = seq![Token::Punct('>')] + list;
    let arrow = seq![Token::Punct('-'), Token::Punct('>')];
    assert(close.skip(1) =~= list);
    assert(arguments(close, 1, false) == arguments(list, 0, false));
    lemma_passed_over(b, close, 1, false);
    let first = seq![Token::Punct('<')] + b + close;
    assert(first.skip(1) =~= b + close);
    let inner = b + close;
    let pointed = arrow + inner;
    assert(pointed.skip(1) =~= seq![Token::Punct('>')] + inner);
    assert(pointed.skip(1).skip(1) =~= inner);
    assert(pointed[0] == Token::Punct('-'));
    assert(pointed.skip(1)[0] == Token::Punct('>'));
    let was_dash = a.len() > 0 && a.last() == Token::Punct('-');
    reveal_with_fuel(arguments, 3);
    assert(arguments(pointed, 1, was_dash) == arguments(inner, 1, false));
    lemma_passed_over(a, pointed, 1, false);
    let second = seq![Token::Punct('<')] + a + pointed;
    assert(second.skip(1) =~= a + pointed);
}

/// Is none of the tokens an angle bracket?
pub open spec fn no_angle(tokens: Seq<Token>) -> bool {
    forall|i: int|
        0 <= i < tokens.len() ==> (#[trigger] tokens[i]) != Token::Punct('<') && tokens[i]
            != Token::Punct('>')
}

proof fn lemma_passed_over(tokens: Seq<Token>, tail: Seq<Token>, depth: nat, arrow: bool)
    requires
        no_angle(tokens),
        depth > 0,
    ensures
        arguments(tokens + tail, depth, arrow) == arguments(
            tail,
            depth,
            if tokens.len() == 0 {
                arrow
            } else {
                tokens.last() == Token::Punct('-')
            },
        ),
    decreases tokens.len(),
{
    if tokens.len() == 0 {
        assert(tokens + tail =~= tail);
    } else {
        let rest = tokens.skip(1);
        assert((tokens + tail).skip(1) =~= rest + tail);
        assert forall|i: int| 0 <= i < rest.len() implies (#[trigger] rest[i]) != Token::Punct('<')
            && rest[i] != Token::Punct('>') by {
            assert(rest[i] == tokens[i + 1]);
        }
        assert(tokens[0] != Token::Punct('<') && tokens[0] != Token::Punct('>'));
        let dash = tokens[0] == Token::Punct('-');
        lemma_passed_over(rest, tail, depth, dash);
        if rest.len() > 0 {
            assert(rest.last() == tokens.last());
        }
        assert((tokens + tail)[0] == tokens[0]);
        assert(arguments(tokens + tail, depth, arrow) == arguments(rest + tail, depth, dash));
    }
}

/// An edit of one byte anywhere in a program's source changes the hash that its
/// marker records.
pub proof fn law_edited_source_has_another_hash(
    source: Seq<char>,
    edited: Seq<char>,
    before: Seq<u8>,
    a: u8,
    b: u8,
    after: Seq<u8>,
)
    requires
        encode_utf8(source) == before.push(a) + after,
        encode_utf8(edited) == before.push(b) + after,
        a != b,
    ensures
        program_hash(source) != program_hash(edited),
        program_hash(source).len() == 16,
{
    law_one_byte_edit_changes_the_hash(before, a, b, after);
    law_hash_digits_tell_hashes_apart(
        fnv1a_spec(encode_utf8(source)),
        fnv1a_spec(encode_utf8(edited)),
    );
}

} // verus!
