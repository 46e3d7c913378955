//! The oracle: an LLM call as a first-class draw from a distribution.
//!
//! The oracle is the sole source of probabilistic nondeterminism in the
//! runtime. Every realized outcome flows through the journal; replay reads
//! outcomes back instead of calling the model again.
//!
//! Implement [`Oracle`] for a model client. The runtime does not depend on any
//! particular model.
use vstd::arithmetic::div_mod::*;
use vstd::bytes::*;
use vstd::prelude::*;
use vstd::utf8::*;

use crate::fault::{Fault, FaultView};
use crate::sha256;
use crate::text;
use crate::value::Value;

verus! {

/// A model call: prompt in, one realized outcome out.
///
/// `call` is only invoked while recording, or when a resumed run walks past
/// its journaled prefix. In replay mode the runtime never calls it.
pub trait Oracle {
    /// Samples one outcome for `prompt` from the model's distribution.
    fn call(&mut self, prompt: &Value) -> (r: Result<Value, Fault>);

    /// Identifies the model or sampler for the journal's provenance field.
    /// Audit metadata; never consulted during replay.
    fn provenance(&self) -> (r: String)
        default_ensures
            r@ == "oracle"@,
    {
        "oracle".to_owned()
    }
}

/// A seeded, genuinely stochastic test oracle.
///
/// Each call draws from a deterministic xorshift64* stream, mixed with the
/// prompt digest: different seeds give different runs, the sequence of calls
/// matters, and tests get reproducible nondeterminism without a live model.
pub struct SeededOracle {
    state: u64,
    seed: u64,
}

/// The state of the generator after one more draw.
pub open spec fn xorshift(x: u64) -> u64 {
    let a = x ^ (x >> 12u64);
    let b = a ^ (a << 25u64);
    b ^ (b >> 27u64)
}

/// The number drawn when the generator has reached the state `x`.
pub open spec fn scrambled(x: u64) -> u64 {
    ((x * 0x2545F4914F6CDD1D) % 0x1_0000_0000_0000_0000) as u64
}

/// The completion for a prompt when the generator has reached the state `x`.
pub open spec fn seeded_completion(x: u64, prompt: Seq<u8>) -> Seq<char> {
    let mix = scrambled(x) ^ spec_u64_from_le_bytes(sha256::sha256_spec(prompt).take(8));
    let token = text::hexadecimal((mix / 4) as nat);
    if mix % 4 == 0 {
        "plan:"@ + token
    } else if mix % 4 == 1 {
        "answer:"@ + token
    } else if mix % 4 == 2 {
        "refine:"@ + token
    } else {
        "halt:"@ + token
    }
}

impl SeededOracle {
    /// The state of the generator.
    pub closed spec fn state(&self) -> u64 {
        self.state
    }

    /// The seed that the generator started from.
    pub closed spec fn seed(&self) -> u64 {
        self.seed
    }

    pub fn new(seed: u64) -> (r: Self)
        ensures
            r.seed() == (if seed == 0 {
                0x9E3779B97F4A7C15
            } else {
                seed
            }),
            r.state() == r.seed(),
    {
        // xorshift needs a nonzero state.
        let s: u64 = if seed == 0 {
            0x9E3779B97F4A7C15
        } else {
            seed
        };
        SeededOracle { state: s, seed: s }
    }

    /// The next number of the stream.
    pub fn next(&mut self) -> (r: u64)
        ensures
            final(self).state() == xorshift(old(self).state()),
            final(self).seed() == old(self).seed(),
            r == scrambled(final(self).state()),
    {
        let mut x: u64 = self.state;
        x = x ^ (x >> 12u64);
        x = x ^ (x << 25u64);
        x = x ^ (x >> 27u64);
        self.state = x;
        x.wrapping_mul(0x2545F4914F6CDD1D)
    }
}

impl Oracle for SeededOracle {
    fn call(&mut self, prompt: &Value) -> (r: Result<Value, Fault>)
        ensures
            final(self).state() == xorshift(old(self).state()),
            final(self).seed() == old(self).seed(),
            r matches Ok(v) && v@ == encode_utf8(seeded_completion(final(self).state(), prompt@)),
    {
        // Mix the draw with the prompt so that outcomes depend on both the
        // sampler state and what was asked.
        let draw: u64 = self.next();
        let d = sha256::sha256(prompt.as_bytes());
        let head = vstd::slice::slice_subrange(d.as_slice(), 0, 8);
        assert(head@ =~= sha256::sha256_spec(prompt@).take(8));
        let mix: u64 = draw ^ u64_from_le_bytes(head);
        let shape: u64 = mix % 4;
        let token = text::hexadecimal_text(mix / 4);
        let kind = if shape == 0 {
            "plan:"
        } else if shape == 1 {
            "answer:"
        } else if shape == 2 {
            "refine:"
        } else {
            "halt:"
        };
        let out = kind.to_owned().concat(token.as_str());
        Ok(Value::from(out))
    }

    fn provenance(&self) -> (r: String)
        ensures
            r@ == "seeded-oracle@"@ + text::decimal(self.seed() as nat),
    {
        "seeded-oracle@".to_owned().concat(text::decimal_text(self.seed).as_str())
    }
}

/// Wraps any oracle and counts calls: the instrument for showing that replay
/// performs no model calls and that resuming never samples the prefix again.
pub struct CountingOracle<O> {
    inner: O,
    calls: u64,
}

impl<O> CountingOracle<O> {
    /// The wrapped oracle.
    pub closed spec fn inner(&self) -> O {
        self.inner
    }

    /// Number of live model calls made through this oracle.
    pub closed spec fn count(&self) -> u64 {
        self.calls
    }

    pub fn new(inner: O) -> (r: Self)
        ensures
            r.inner() == inner,
            r.count() == 0,
    {
        CountingOracle { inner, calls: 0 }
    }

    /// Number of live model calls made through this oracle.
    pub fn calls(&self) -> (r: u64)
        ensures
            r == self.count(),
    {
        self.calls
    }
}

impl<O: Oracle> Oracle for CountingOracle<O> {
    /// The counter stops at its largest value.
    fn call(&mut self, prompt: &Value) -> (r: Result<Value, Fault>)
        ensures
            final(self).count() == (if old(self).count() < u64::MAX {
                (old(self).count() + 1) as u64
            } else {
                u64::MAX
            }),
            exists|m: &mut O| #[trigger]
                call_ensures(O::call, (m, prompt), r) && *m == old(self).inner() && *final(m)
                    == final(self).inner(),
    {
        if self.calls < u64::MAX {
            self.calls = self.calls + 1;
        }
        self.inner.call(prompt)
    }

    fn provenance(&self) -> (r: String)
        ensures
            call_ensures(O::provenance, (&self.inner(),), r),
    {
        self.inner.provenance()
    }
}

/// After any calls, a counting oracle has counted them all, whatever they gave.
/// The wrapped oracle was called as often, with the same prompts, in the same
/// order, and with the same results: the `i`-th call took it from where the one
/// before had left it to where the next one found it.
pub proof fn law_every_call_is_counted<O: Oracle>(
    states: Seq<CountingOracle<O>>,
    prompts: Seq<Value>,
    results: Seq<Result<Value, Fault>>,
    i: int,
)
    requires
        states.len() == prompts.len() + 1,
        results.len() == prompts.len(),
        prompts.len() <= u64::MAX,
        states[0].count() == 0,
        forall|k: int|
            #![trigger prompts[k]]
            0 <= k < prompts.len() ==> exists|m: &mut CountingOracle<O>| #[trigger]
                call_ensures(CountingOracle::<O>::call, (m, &prompts[k]), results[k]) && *m
                    == states[k] && *final(m) == states[k + 1],
    ensures
        states.last().count() == prompts.len(),
        0 <= i < prompts.len() ==> exists|m: &mut O| #[trigger]
            call_ensures(O::call, (m, &prompts[i]), results[i]) && *m == states[i].inner()
                && *final(m) == states[i + 1].inner(),
{
    if 0 <= i < prompts.len() {
        let m = choose|m: &mut CountingOracle<O>| #[trigger]
            call_ensures(CountingOracle::<O>::call, (m, &prompts[i]), results[i]) && *m == states[i]
                && *final(m) == states[i + 1];
        assert(call_ensures(CountingOracle::<O>::call, (m, &prompts[i]), results[i]));
    }
    assert forall|k: int| 0 <= k < states.len() - 1 implies (#[trigger] states[k + 1]).count() == (
    if states[k].count() < u64::MAX {
        (states[k].count() + 1) as u64
    } else {
        u64::MAX
    }) by {
        let m = choose|m: &mut CountingOracle<O>| #[trigger]
            call_ensures(CountingOracle::<O>::call, (m, &prompts[k]), results[k]) && *m == states[k]
                && *final(m) == states[k + 1];
        assert(call_ensures(CountingOracle::<O>::call, (m, &prompts[k]), results[k]));
    }
    lemma_counted(states, states.len() - 1);
}

proof fn lemma_counted<O>(states: Seq<CountingOracle<O>>, i: int)
    requires
        0 <= i < states.len() <= u64::MAX + 1,
        states[0].count() == 0,
        forall|k: int|
            0 <= k < states.len() - 1 ==> (#[trigger] states[k + 1]).count() == (if states[k].count()
                < u64::MAX {
                (states[k].count() + 1) as u64
            } else {
                u64::MAX
            }),
    ensures
        states[i].count() == i,
    decreases i,
{
    if i > 0 {
        lemma_counted(states, i - 1);
        assert(states[(i - 1) + 1].count() == (states[i - 1].count() + 1) as u64);
    }
}

/// A length of time, in whole nanoseconds, of at most `u64::MAX` seconds and
/// 999,999,999 nanoseconds.
#[derive(Clone, Copy, Debug, PartialEq, Eq)]
pub struct Delay {
    nanos: u128,
}

/// The longest delay, in nanoseconds.
pub open spec fn longest_delay() -> nat {
    18446744073709551615999999999
}

/// Twice as long, but no longer than the longest delay.
pub open spec fn doubled(nanos: nat) -> nat {
    if 2 * nanos <= longest_delay() {
        2 * nanos
    } else {
        longest_delay()
    }
}

/// The delay before retry `n` (counted from 0): the base delay doubled `n`
/// times.
pub open spec fn backoff(base: nat, n: nat) -> nat
    decreases n,
{
    if n == 0 {
        base
    } else {
        doubled(backoff(base, (n - 1) as nat))
    }
}

impl View for Delay {
    type V = nat;

    closed spec fn view(&self) -> nat {
        self.nanos as nat
    }
}

impl Delay {
    #[verifier::type_invariant]
    spec fn bounded(self) -> bool {
        self.nanos <= longest_delay()
    }

    pub fn from_millis(millis: u64) -> (r: Self)
        ensures
            r@ == millis * 1_000_000,
    {
        Delay { nanos: millis as u128 * 1_000_000 }
    }

    /// A delay of `secs` seconds and `nanos` nanoseconds.
    pub fn from_parts(secs: u64, nanos: u32) -> (r: Self)
        requires
            nanos < 1_000_000_000,
        ensures
            r@ == secs * 1_000_000_000 + nanos,
    {
        Delay { nanos: secs as u128 * 1_000_000_000 + nanos as u128 }
    }

    /// The whole seconds of the delay.
    pub fn as_secs(&self) -> (r: u64)
        ensures
            r == self@ / 1_000_000_000,
    {
        proof {
            use_type_invariant(self);
        }
        (self.nanos / 1_000_000_000) as u64
    }

    /// What the whole seconds leave over, in nanoseconds.
    pub fn subsec_nanos(&self) -> (r: u32)
        ensures
            r == self@ % 1_000_000_000,
    {
        (self.nanos % 1_000_000_000) as u32
    }

    /// The whole milliseconds of the delay.
    pub fn as_millis(&self) -> (r: u128)
        ensures
            r == self@ / 1_000_000,
    {
        self.nanos / 1_000_000
    }

    /// Twice as long, but no longer than the longest delay.
    pub fn double(&self) -> (r: Self)
        ensures
            r@ == doubled(self@),
    {
        proof {
            use_type_invariant(self);
        }
        if self.nanos * 2 <= 18446744073709551615999999999 {
            Delay { nanos: self.nanos * 2 }
        } else {
            Delay { nanos: 18446744073709551615999999999 }
        }
    }
}

/// How a retrying oracle waits between attempts.
pub trait Sleep {
    fn sleep(&mut self, delay: Delay);
}

/// What to do after an attempt.
pub enum Next {
    /// Give up or be done: return the outcome.
    Return(Result<Value, Fault>),
    /// Wait, then try again.
    Retry(Delay),
}

/// Should the attempt that ended in `outcome`, after `attempts` retries, be
/// tried again? Only a failed model call is, and only `max_retries` times.
pub open spec fn retries(outcome: Result<Value, Fault>, attempts: nat, max_retries: nat) -> bool {
    (outcome matches Err(Fault::OracleErr(m))) && attempts < max_retries
}

/// Decides what follows an attempt that ended in `outcome` after `attempts`
/// retries.
pub fn after_attempt(
    outcome: Result<Value, Fault>,
    attempts: u32,
    max_retries: u32,
    delay: Delay,
) -> (r: Next)
    ensures
        r == (if retries(outcome, attempts as nat, max_retries as nat) {
            Next::Retry(delay)
        } else {
            Next::Return(outcome)
        }),
{
    match outcome {
        Err(Fault::OracleErr(m)) => {
            if attempts < max_retries {
                Next::Retry(delay)
            } else {
                Next::Return(Err(Fault::OracleErr(m)))
            }
        },
        other => Next::Return(other),
    }
}

/// Wraps any oracle with bounded retries and exponential backoff on transient
/// model failures.
///
/// Only [`Fault::OracleErr`] is retried: that is the tag for "the model call
/// itself failed". Every other fault is a property of the run, not the call,
/// and passes straight through. Retries happen entirely before anything is
/// recorded: a completion that finally succeeds is journaled once, and replay
/// never sees the failed attempts.
pub struct RetryOracle<O, S> {
    inner: O,
    max_retries: u32,
    base_delay: Delay,
    sleep: S,
}

impl<O, S> RetryOracle<O, S> {
    /// The wrapped oracle.
    pub closed spec fn inner(&self) -> O {
        self.inner
    }

    /// Retries after the first attempt.
    pub closed spec fn limit(&self) -> u32 {
        self.max_retries
    }

    /// Delay before the first retry, in nanoseconds.
    pub closed spec fn base(&self) -> nat {
        self.base_delay@
    }

    /// The sleeper.
    pub closed spec fn sleeper(&self) -> S {
        self.sleep
    }

    /// Defaults: 3 retries, 250 ms base delay, doubling per attempt.
    pub fn new(inner: O, sleep: S) -> (r: Self)
        ensures
            r.inner() == inner,
            r.limit() == 3,
            r.base() == 250_000_000,
            r.sleeper() == sleep,
    {
        RetryOracle { inner, max_retries: 3, base_delay: Delay::from_millis(250), sleep }
    }

    /// Retries after the first attempt (0 = fail immediately, like `inner`).
    pub fn max_retries(self, retries: u32) -> (r: Self)
        ensures
            r.inner() == self.inner(),
            r.limit() == retries,
            r.base() == self.base(),
            r.sleeper() == self.sleeper(),
    {
        RetryOracle {
            inner: self.inner,
            max_retries: retries,
            base_delay: self.base_delay,
            sleep: self.sleep,
        }
    }

    /// Delay before the first retry; each further retry doubles it.
    pub fn base_delay(self, delay: Delay) -> (r: Self)
        ensures
            r.inner() == self.inner(),
            r.limit() == self.limit(),
            r.base() == delay@,
            r.sleeper() == self.sleeper(),
    {
        RetryOracle {
            inner: self.inner,
            max_retries: self.max_retries,
            base_delay: delay,
            sleep: self.sleep,
        }
    }

    /// Replaces the sleeper (tests: record delays instead of waiting).
    pub fn with_sleep<T>(self, sleep: T) -> (r: RetryOracle<O, T>)
        ensures
            r.inner() == self.inner(),
            r.limit() == self.limit(),
            r.base() == self.base(),
            r.sleeper() == sleep,
    {
        RetryOracle {
            inner: self.inner,
            max_retries: self.max_retries,
            base_delay: self.base_delay,
            sleep,
        }
    }

    /// The wrapped oracle.
    pub fn get_ref(&self) -> (r: &O)
        ensures
            *r == self.inner(),
    {
        &self.inner
    }
}

/// What a course of attempts looks like from outside: the outcomes, the states
/// of the wrapped oracle before, between and after them, the states of the
/// sleeper before, between and after the waits, and the delays waited.
pub struct Course<O, S> {
    pub outcomes: Seq<Result<Value, Fault>>,
    pub oracles: Seq<O>,
    pub sleepers: Seq<S>,
    pub delays: Seq<Delay>,
}

/// Does the course lead from one state to another, with every outcome but the
/// last tried again, the last returned, and every delay the one that backoff
/// demands?
pub open spec fn well_paced<O, S>(
    course: Course<O, S>,
    before: RetryOracle<O, S>,
    after: RetryOracle<O, S>,
    r: Result<Value, Fault>,
) -> bool {
    let n = course.outcomes.len();
    &&& n > 0
    &&& course.oracles.len() == n + 1
    &&& course.oracles[0] == before.inner()
    &&& course.oracles[n as int] == after.inner()
    &&& course.delays.len() == n - 1
    &&& course.sleepers.len() == n
    &&& course.sleepers[0] == before.sleeper()
    &&& course.sleepers[n - 1] == after.sleeper()
    &&& forall|i: int|
        0 <= i < n - 1 ==> retries(
            #[trigger] course.outcomes[i],
            i as nat,
            before.limit() as nat,
        )
    &&& course.outcomes[n - 1] == r
    &&& !retries(r, (n - 1) as nat, before.limit() as nat)
    &&& forall|i: int|
        0 <= i < n - 1 ==> (#[trigger] course.delays[i])@ == backoff(before.base(), i as nat)
}

impl<O: Oracle, S: Sleep> Oracle for RetryOracle<O, S> {
    fn call(&mut self, prompt: &Value) -> (r: Result<Value, Fault>)
        ensures
            final(self).limit() == old(self).limit(),
            final(self).base() == old(self).base(),
            exists|course: Course<O, S>| #[trigger]
                well_paced(course, *old(self), *final(self), r) && (forall|i: int|
                    #![trigger course.outcomes[i]]
                    0 <= i < course.outcomes.len() ==> exists|m: &mut O|
                        call_ensures(O::call, (m, prompt), course.outcomes[i]) && *m
                            == course.oracles[i] && *final(m) == course.oracles[i + 1]) && (forall|
                    i: int,
                |
                    #![trigger course.delays[i]]
                    0 <= i < course.delays.len() ==> exists|m: &mut S|
                        call_ensures(S::sleep, (m, course.delays[i]), ()) && *m
                            == course.sleepers[i] && *final(m) == course.sleepers[i + 1]),
    {
        let mut delay: Delay = self.base_delay;
        let mut attempts: u32 = 0;
        let ghost mut course: Course<O, S> = Course {
            outcomes: Seq::empty(),
            oracles: seq![self.inner],
            sleepers: seq![self.sleep],
            delays: Seq::empty(),
        };
        loop
            invariant
                attempts <= self.max_retries,
                self.max_retries == old(self).max_retries,
                self.base_delay == old(self).base_delay,
                delay@ == backoff(old(self).base(), attempts as nat),
                course.outcomes.len() == attempts,
                course.delays.len() == attempts,
                course.oracles.len() == attempts + 1,
                course.sleepers.len() == attempts + 1,
                course.oracles[0] == old(self).inner,
                course.sleepers[0] == old(self).sleep,
                course.oracles[attempts as int] == self.inner,
                course.sleepers[attempts as int] == self.sleep,
                forall|i: int|
                    0 <= i < attempts ==> retries(
                        #[trigger] course.outcomes[i],
                        i as nat,
                        old(self).max_retries as nat,
                    ),
                forall|i: int|
                    0 <= i < attempts ==> (#[trigger] course.delays[i])@ == backoff(
                        old(self).base(),
                        i as nat,
                    ),
                forall|i: int|
                    #![trigger course.outcomes[i]]
                    0 <= i < attempts ==> exists|m: &mut O|
                        call_ensures(O::call, (m, prompt), course.outcomes[i]) && *m
                            == course.oracles[i] && *final(m) == course.oracles[i + 1],
                forall|i: int|
                    #![trigger course.delays[i]]
                    0 <= i < attempts ==> exists|m: &mut S|
                        call_ensures(S::sleep, (m, course.delays[i]), ()) && *m
                            == course.sleepers[i] && *final(m) == course.sleepers[i + 1],
            decreases self.max_retries - attempts,
        {
            let ghost was = course;
            let outcome = self.inner.call(prompt);
            proof {
                course.outcomes = course.outcomes.push(outcome);
                course.oracles = course.oracles.push(self.inner);
            }
            assert(exists|m: &mut O|
                call_ensures(O::call, (m, prompt), outcome) && *m == was.oracles[attempts as int]
                    && *final(m) == self.inner);
            assert forall|i: int|
                #![trigger course.outcomes[i]]
                0 <= i < attempts + 1 implies exists|m: &mut O|
                call_ensures(O::call, (m, prompt), course.outcomes[i]) && *m == course.oracles[i]
                    && *final(m) == course.oracles[i + 1] by {
                if i < attempts {
                    assert(course.outcomes[i] == was.outcomes[i]);
                    assert(course.oracles[i] == was.oracles[i]);
                    assert(course.oracles[i + 1] == was.oracles[i + 1]);
                }
            }
            match after_attempt(outcome, attempts, self.max_retries, delay) {
                Next::Return(r) => {
                    assert(well_paced(course, *old(self), *self, r)) by {
                        assert forall|i: int| 0 <= i < attempts implies retries(
                            #[trigger] course.outcomes[i],
                            i as nat,
                            old(self).limit() as nat,
                        ) by {
                            assert(course.outcomes[i] == was.outcomes[i]);
                        }
                    }
                    return r;
                },
                Next::Retry(d) => {
                    self.sleep.sleep(d);
                    proof {
                        course.delays = course.delays.push(d);
                        course.sleepers = course.sleepers.push(self.sleep);
                    }
                    assert(exists|m: &mut S|
                        call_ensures(S::sleep, (m, d), ()) && *m == was.sleepers[attempts as int]
                            && *final(m) == self.sleep);
                    assert forall|i: int|
                        #![trigger course.delays[i]]
                        0 <= i < attempts + 1 implies exists|m: &mut S|
                        call_ensures(S::sleep, (m, course.delays[i]), ()) && *m
                            == course.sleepers[i] && *final(m) == course.sleepers[i + 1] by {
                        if i < attempts {
                            assert(course.delays[i] == was.delays[i]);
                            assert(course.sleepers[i] == was.sleepers[i]);
                            assert(course.sleepers[i + 1] == was.sleepers[i + 1]);
                        }
                    }
                    assert forall|i: int| 0 <= i < attempts + 1 implies retries(
                        #[trigger] course.outcomes[i],
                        i as nat,
                        old(self).max_retries as nat,
                    ) by {
                        if i < attempts {
                            assert(course.outcomes[i] == was.outcomes[i]);
                        }
                    }
                    attempts += 1;
                    delay = delay.double();
                },
            }
        }
    }

    fn provenance(&self) -> (r: String)
        ensures
            exists|inner: String| #[trigger]
                call_ensures(O::provenance, (&self.inner(),), inner) && r@ == inner@ + "+retry("@
                    + text::decimal(self.limit() as nat) + "x"@ + text::decimal(
                    self.base() / 1_000_000,
                ) + "ms)"@,
    {
        let inner = self.inner.provenance();
        let mut out = inner.clone();
        out.append("+retry(");
        text::push_digits(&mut out, self.max_retries as u128, 10);
        out.append("x");
        text::push_digits(&mut out, self.base_delay.as_millis(), 10);
        out.append("ms)");
        assert(call_ensures(O::provenance, (&self.inner(),), inner));
        assert(out@ == inner@ + "+retry("@ + text::decimal(self.limit() as nat) + "x"@
            + text::decimal(self.base() / 1_000_000) + "ms)"@);
        out
    }
}

/// An oracle that refuses every call. Strict replay is defined by "the model is
/// never consulted".
pub struct RefusingOracle;

impl Oracle for RefusingOracle {
    fn call(&mut self, prompt: &Value) -> (r: Result<Value, Fault>)
        ensures
            r matches Err(f) && f@ == FaultView::OracleErr(
                "replay mode must never call the oracle"@,
            ),
    {
        Err(Fault::OracleErr("replay mode must never call the oracle".to_owned()))
    }

    fn provenance(&self) -> (r: String)
        ensures
            r@ == "refusing-oracle"@,
    {
        "refusing-oracle".to_owned()
    }
}

/// The delays of a retrying oracle double from one retry to the next, until
/// they reach the longest delay.
pub proof fn law_backoff_doubles(base: nat, n: nat)
    requires
        base <= longest_delay(),
    ensures
        backoff(base, n) <= longest_delay(),
        backoff(base, n + 1) == if 2 * backoff(base, n) <= longest_delay() {
            2 * backoff(base, n)
        } else {
            longest_delay()
        },
    decreases n,
{
    if n > 0 {
        law_backoff_doubles(base, (n - 1) as nat);
    }
}

/// A failed model call is tried again while retries are left, after the delay
/// that is due; every other outcome is returned as it is: a success, another
/// fault, or the last failure.
pub proof fn law_only_failed_calls_are_retried(
    outcome: Result<Value, Fault>,
    attempts: u32,
    max_retries: u32,
    delay: Delay,
    next: Next,
)
    requires
        call_ensures(after_attempt, (outcome, attempts, max_retries, delay), next),
    ensures
        next is Retry <==> outcome is Err && outcome->Err_0 is OracleErr && attempts < max_retries,
        next matches Next::Retry(d) ==> d == delay,
        next matches Next::Return(r) ==> r == outcome,
{
}

/// A retrying oracle calls at most once more than it may retry, waits once
/// between two calls, gives up on nothing but a failed call, and returns what
/// the last call gave. A first call that does not fail is the only one.
pub proof fn law_retries_are_bounded<O, S>(
    course: Course<O, S>,
    before: RetryOracle<O, S>,
    after: RetryOracle<O, S>,
    r: Result<Value, Fault>,
    i: int,
)
    requires
        well_paced(course, before, after, r),
    ensures
        0 < course.outcomes.len() <= before.limit() + 1,
        course.delays.len() + 1 == course.outcomes.len(),
        course.outcomes.last() == r,
        0 <= i < course.outcomes.len() - 1 ==> course.outcomes[i] is Err && (
        course.outcomes[i]->Err_0 is OracleErr),
        r matches Err(Fault::OracleErr(_)) ==> course.outcomes.len() == before.limit() + 1,
        course.outcomes[0] is Ok ==> course.outcomes.len() == 1,
        course.delays.len() > 0 ==> course.delays[0]@ == before.base(),
        0 <= i < course.delays.len() - 1 ==> course.delays[i + 1]@ == (if 2 * course.delays[i]@
            <= longest_delay() {
            2 * course.delays[i]@
        } else {
            longest_delay()
        }),
{
    let n = course.outcomes.len() as int;
    if n > 1 {
        assert(retries(course.outcomes[n - 2], (n - 2) as nat, before.limit() as nat));
        assert(retries(course.outcomes[0], 0, before.limit() as nat));
        assert(course.delays[0]@ == backoff(before.base(), 0));
    }
    if 0 <= i < n - 1 {
        assert(retries(course.outcomes[i], i as nat, before.limit() as nat));
    }
    if 0 <= i < course.delays.len() - 1 {
        assert(course.delays[i]@ == backoff(before.base(), i as nat));
        assert(course.delays[i + 1]@ == backoff(before.base(), (i + 1) as nat));
    }
}

/// A delay is its seconds and what they leave over.
pub proof fn law_delay_is_its_parts(
    millis: u64,
    secs: u64,
    nanos: u32,
    a: Delay,
    b: Delay,
    whole: u64,
    rest: u32,
)
    requires
        nanos < 1_000_000_000,
        call_ensures(Delay::from_millis, (millis,), a),
        call_ensures(Delay::from_parts, (secs, nanos), b),
        call_ensures(Delay::as_secs, (&b,), whole),
        call_ensures(Delay::subsec_nanos, (&b,), rest),
    ensures
        a@ == millis * 1_000_000,
        whole == secs,
        rest == nanos,
{
    assert((secs * 1_000_000_000 + nanos) / 1_000_000_000 == secs);
    assert((secs * 1_000_000_000 + nanos) % 1_000_000_000 == nanos as int);
}

/// The generator never gets stuck at zero, and no two states run together: a
/// stream depends on its seed for ever.
pub proof fn law_streams_stay_apart(x: u64, y: u64)
    ensures
        x != 0 ==> xorshift(x) != 0,
        x != y ==> xorshift(x) != xorshift(y),
{
    let a = x ^ (x >> 12u64);
    let b = y ^ (y >> 12u64);
    assert(x != y ==> x ^ (x >> 12u64) != y ^ (y >> 12u64)) by (bit_vector);
    assert(a != b ==> a ^ (a << 25u64) != b ^ (b << 25u64)) by (bit_vector);
    let c = a ^ (a << 25u64);
    let d = b ^ (b << 25u64);
    assert(c != d ==> c ^ (c >> 27u64) != d ^ (d >> 27u64)) by (bit_vector);
    assert(x != 0 ==> x ^ (x >> 12u64) != 0) by (bit_vector);
    assert(a != 0 ==> a ^ (a << 25u64) != 0) by (bit_vector);
    assert(c != 0 ==> c ^ (c >> 27u64) != 0) by (bit_vector);
}

/// A seeded oracle never fails and always gives one of four kinds of answer; two
/// oracles in the same state answer the same prompt alike, and are in the same
/// state afterwards.
pub proof fn law_seeded_draws_are_reproducible(
    before: SeededOracle,
    after: SeededOracle,
    prompt: &Value,
    r: Result<Value, Fault>,
    other_before: SeededOracle,
    other_after: SeededOracle,
    other: Result<Value, Fault>,
)
    requires
        exists|m: &mut SeededOracle| #[trigger]
            call_ensures(SeededOracle::call, (m, prompt), r) && *m == before && *final(m) == after,
        exists|m: &mut SeededOracle| #[trigger]
            call_ensures(SeededOracle::call, (m, prompt), other) && *m == other_before && *final(m)
                == other_after,
        before.state() == other_before.state(),
    ensures
        r is Ok && other is Ok,
        r->Ok_0@ == other->Ok_0@,
        after.state() == other_after.state(),
        after.seed() == before.seed(),
        exists|kind: Seq<char>, token: nat|
            (kind == "plan:"@ || kind == "answer:"@ || kind == "refine:"@ || kind == "halt:"@)
                && r->Ok_0@ == #[trigger] encode_utf8(kind + text::hexadecimal(token)),
{
    let m = choose|m: &mut SeededOracle| #[trigger]
        call_ensures(SeededOracle::call, (m, prompt), r) && *m == before && *final(m) == after;
    assert(call_ensures(SeededOracle::call, (m, prompt), r));
    let n = choose|m: &mut SeededOracle| #[trigger]
        call_ensures(SeededOracle::call, (m, prompt), other) && *m == other_before && *final(m)
            == other_after;
    assert(call_ensures(SeededOracle::call, (n, prompt), other));
}

/// A new retrying oracle retries three times, from a quarter of a second on. Each
/// setting changes what it names and keeps the rest.
pub proof fn law_retry_settings<O, S>(
    inner: O,
    sleep: S,
    o: RetryOracle<O, S>,
    n: u32,
    delay: Delay,
    a: RetryOracle<O, S>,
    b: RetryOracle<O, S>,
    c: RetryOracle<O, S>,
)
    requires
        call_ensures(RetryOracle::<O, S>::new, (inner, sleep), a),
        call_ensures(RetryOracle::<O, S>::max_retries, (o, n), b),
        call_ensures(RetryOracle::<O, S>::base_delay, (o, delay), c),
    ensures
        a.inner() == inner && a.sleeper() == sleep && a.limit() == 3 && a.base() == 250_000_000,
        b.inner() == o.inner() && b.sleeper() == o.sleeper() && b.limit() == n && b.base()
            == o.base(),
        c.inner() == o.inner() && c.sleeper() == o.sleeper() && c.limit() == o.limit() && c.base()
            == delay@,
{
}

/// A seeded oracle starts from its seed, which its provenance names, and never
/// from zero; a refusing oracle refuses.
pub proof fn law_seed_is_the_provenance(
    seed: u64,
    o: SeededOracle,
    p: String,
    prompt: &Value,
    refused: Result<Value, Fault>,
)
    requires
        call_ensures(SeededOracle::new, (seed,), o),
        call_ensures(SeededOracle::provenance, (&o,), p),
        exists|m: &mut RefusingOracle| #[trigger]
            call_ensures(RefusingOracle::call, (m, prompt), refused),
    ensures
        o.state() != 0,
        seed != 0 ==> o.state() == seed && text::decimal(seed as nat).is_suffix_of(p@),
        refused is Err,
{
    let m = choose|m: &mut RefusingOracle| #[trigger]
        call_ensures(RefusingOracle::call, (m, prompt), refused);
    assert(call_ensures(RefusingOracle::call, (m, prompt), refused));
    let n = text::decimal(o.seed() as nat);
    assert(p@.skip(p@.len() - n.len()) =~= n);
}

/// The state that one draw leads to the state `y` from.
pub open spec fn state_before(y: u64) -> u64 {
    let b = y ^ (y >> 27u64) ^ (y >> 54u64);
    let a = b ^ (b << 25u64) ^ (b << 50u64);
    a ^ (a >> 12u64) ^ (a >> 24u64) ^ (a >> 36u64) ^ (a >> 48u64) ^ (a >> 60u64)
}

/// Every draw can be undone: the state before it is told by the state behind
/// it, and the state by the number that was drawn, which is what the inverse
/// factor takes back to it modulo 2^64.
pub proof fn law_draws_can_be_undone(x: u64)
    ensures
        state_before(xorshift(x)) == x,
        (scrambled(x) as nat * 0x59071d96d81ecd35) % 0x1_0000_0000_0000_0000 == x,
{
    let a = x ^ (x >> 12u64);
    let b = a ^ (a << 25u64);
    let y = b ^ (b >> 27u64);
    assert(y ^ (y >> 27u64) ^ (y >> 54u64) == b) by (bit_vector)
        requires
            y == b ^ (b >> 27u64),
    ;
    assert(b ^ (b << 25u64) ^ (b << 50u64) == a) by (bit_vector)
        requires
            b == a ^ (a << 25u64),
    ;
    assert(a ^ (a >> 12u64) ^ (a >> 24u64) ^ (a >> 36u64) ^ (a >> 48u64) ^ (a >> 60u64) == x)
        by (bit_vector)
        requires
            a == x ^ (x >> 12u64),
    ;
    let m: int = 0x1_0000_0000_0000_0000;
    let f: int = 0x2545F4914F6CDD1D;
    let g: int = 0x59071d96d81ecd35;
    let q = f * g / m;
    assert(f * g == 1 + m * q) by {
        assert(f * g % m == 1);
        lemma_fundamental_div_mod(f * g, m);
    }
    lemma_mul_mod_noop_left(x as int * f, g, m);
    assert(x as int * f * g == m * (x as int * q) + x as int) by (nonlinear_arith)
        requires
            f * g == 1 + m * q,
    ;
    lemma_mod_multiples_vanish(x as int * q, x as int, m);
    lemma_small_mod(x as nat, m as nat);
}

/// An answer tells what was drawn for it: its word the remainder of the drawn
/// number by four, and its digits the quotient. What is drawn is mixed with the
/// start of the prompt's digest.
pub proof fn law_answer_tells_the_draw(x: u64, prompt: Seq<u8>)
    ensures
        exists|token: nat|
            ({
                let mix = scrambled(x) ^ spec_u64_from_le_bytes(
                    sha256::sha256_spec(prompt).take(8),
                );
                let said = seeded_completion(x, prompt);
                let digits = #[trigger] text::hexadecimal(token);
                ||| mix == 4 * token && said == "plan:"@ + digits
                ||| mix == 4 * token + 1 && said == "answer:"@ + digits
                ||| mix == 4 * token + 2 && said == "refine:"@ + digits
                ||| mix == 4 * token + 3 && said == "halt:"@ + digits
            }),
{
    let mix = scrambled(x) ^ spec_u64_from_le_bytes(sha256::sha256_spec(prompt).take(8));
    let token = (mix / 4) as nat;
    assert(mix == 4 * token + mix % 4);
    assert(seeded_completion(x, prompt).len() >= text::hexadecimal(token).len());
}

} // verus!
