use std::cell::{Cell, RefCell};
use std::collections::HashSet;
use std::time::{Duration, Instant};

use pragmatic::ctx::{clock_nanos, Ctx, RunOptions, TraceLabel};
use pragmatic::event::Event;
use pragmatic::fault::Fault;
use pragmatic::journal::Journal;
use pragmatic::oracle::{CountingOracle, Oracle, SeededOracle};
use pragmatic::runtime::Runtime;
use pragmatic::store::{JournalStore, Recover};
use pragmatic::value::Value;

/// A branching, stochastic agent: samples a plan, branches on the realized
/// outcome (so control flow depends on nondeterminism), loops a data-driven
/// number of times, and commits an effect.
fn branching<O: Oracle>(ctx: &mut Ctx<O>) -> Result<Value, Fault> {
    let plan = ctx.oracle("plan the task")?;
    // Branch on realized randomness: byte sum picks the strategy.
    let weight: u64 = plan.as_bytes().iter().map(|b| *b as u64).sum();
    let steps = (weight % 4) + 1;
    let mut findings = Vec::new();
    for i in 0..steps {
        let f = ctx.oracle(format!("probe step {i} of plan {}", plan.as_str()))?;
        if f.as_str().starts_with("halt") {
            break; // data-dependent early exit
        }
        findings.push(f);
    }
    let t = ctx.now()?;
    let report = ctx.effect(
        "write_report",
        format!("{} findings @{t}", findings.len()),
        |arg: &Value| Ok(Value::from(format!("stored({})", arg.as_str()))),
    )?;
    Ok(report)
}

#[test]
fn e1_replay_determinism_1000_of_1000() {
    let mut identical = 0u32;
    const N: u64 = 1000;
    for seed in 0..N {
        let mut rt = Runtime::in_memory(CountingOracle::new(SeededOracle::new(seed)));
        let run_id = format!("e1-{seed}");

        let recorded = rt.run(&run_id, branching).expect("record run succeeds");
        let calls_after_record = rt.oracle().calls();

        let replayed = rt.replay(&run_id, branching).expect("replay succeeds");

        // Zero model calls during replay - the oracle was never consulted.
        assert_eq!(
            rt.oracle().calls(),
            calls_after_record,
            "seed {seed}: replay called the model"
        );
        // The whole observable trace is byte-identical, output included.
        assert_eq!(
            recorded.trace, replayed.trace,
            "seed {seed}: trace diverged"
        );
        assert_eq!(
            recorded.output, replayed.output,
            "seed {seed}: output diverged"
        );
        assert_eq!(
            replayed.fresh_steps, 0,
            "seed {seed}: replay recorded fresh steps"
        );
        identical += 1;
    }
    assert_eq!(identical, N as u32, "replay determinism must be {N}/{N}");
}

#[test]
fn e1_distinct_seeds_actually_diverge() {
    // Sanity check that E1 is not vacuous: the oracle is genuinely
    // stochastic across seeds, so identical traces are earned, not implied.
    let mut outputs = HashSet::new();
    for seed in 0..50 {
        let mut rt = Runtime::in_memory(SeededOracle::new(seed));
        let r = rt.run("x", branching).unwrap();
        outputs.insert(r.output.as_str());
    }
    assert!(
        outputs.len() > 10,
        "seeded runs should diverge; got {} distinct outputs",
        outputs.len()
    );
}

#[test]
fn e1_replay_is_idempotent() {
    // Replaying a prefix does not extend the journal: replay twice, journal
    // length unchanged both times.
    let mut rt = Runtime::in_memory(SeededOracle::new(99));
    let recorded = rt.run("idem", branching).unwrap();
    let len = recorded.journal_len;
    let r1 = rt.replay("idem", branching).unwrap();
    let r2 = rt.replay("idem", branching).unwrap();
    assert_eq!(r1.journal_len, len);
    assert_eq!(r2.journal_len, len);
    assert_eq!(r1.trace, r2.trace);
}

fn agent<O: Oracle>(ctx: &mut Ctx<O>) -> Result<Value, Fault> {
    let plan = ctx.oracle("plan")?;
    let a = ctx.oracle(format!("step a of {}", plan.as_str()))?;
    let b = ctx.effect("persist_a", a.as_str(), |arg: &Value| {
        Ok(Value::from(format!("saved({})", arg.as_str())))
    })?;
    let c = ctx.oracle(format!("step c after {}", b.as_str()))?;
    Ok(Value::from(format!("done: {}", c.as_str())))
}

/// Crash at every prefix length k, resume, and check exactness.
#[test]
fn e2_crash_at_every_prefix_resumes_exactly() {
    // Reference run: same seed, no crash.
    let mut ref_rt = Runtime::in_memory(SeededOracle::new(1234));
    let reference = ref_rt.run("ref", agent).unwrap();
    let full_len = reference.journal_len;

    for k in 0..full_len {
        // Record fully, then model the crash: only the first k entries were
        // durable when the process died.
        let mut rt = Runtime::in_memory(CountingOracle::new(SeededOracle::new(1234)));
        rt.run("crashy", agent).unwrap();
        let calls_before = rt.oracle().calls();
        rt.journal("crashy").unwrap().truncate(k);

        let resumed = rt.resume("crashy", agent).unwrap();

        // (a) The surviving prefix was replayed, not re-sampled: the number
        // of new model calls equals the number of *lost* oracle draws only.
        let lost_draws = reference
            .trace
            .iter()
            .filter(|l| matches!(l, TraceLabel::Oracle { cursor, .. } if *cursor >= k))
            .count() as u64;
        assert_eq!(
            rt.oracle().calls() - calls_before,
            lost_draws,
            "crash at k={k}: wrong number of fresh model calls"
        );

        // (b) The final journal is complete and consistent.
        assert!(resumed.journal_len >= full_len.min(k) /* prefix kept */);
        assert!(
            resumed.output.as_str().starts_with("done: "),
            "crash at k={k}: bad output"
        );

        // (c) No orphaned effects.
        assert!(rt.journal("crashy").unwrap().dangling_intents().is_empty());
    }
}

/// The prefix of the resumed trace must equal the recorded prefix - the run
/// continues, it does not restart.
#[test]
fn e2_resume_preserves_recorded_prefix() {
    let mut rt = Runtime::in_memory(SeededOracle::new(777));
    let full = rt.run("p", agent).unwrap();
    rt.journal("p").unwrap().truncate(2);
    let resumed = rt.resume("p", agent).unwrap();
    // Compare the first two journaled steps of both traces.
    let prefix = |t: &[TraceLabel]| -> Vec<TraceLabel> {
        t.iter()
            .filter(|l| match l {
                TraceLabel::Oracle { cursor, .. }
                | TraceLabel::Effect { cursor, .. }
                | TraceLabel::Recv { cursor, .. }
                | TraceLabel::Clock { cursor, .. } => *cursor < 2,
                TraceLabel::Done { .. } => false,
            })
            .cloned()
            .collect()
    };
    assert_eq!(prefix(&full.trace), prefix(&resumed.trace));
}

/// A crash inside the effect write-ahead window leaves a dangling intent;
/// resume must resolve it per policy before re-entering.
#[test]
fn e2_dangling_intent_recovery() {
    // The effect fails after its intent is journaled - the crash window.
    let flaky = |ctx: &mut Ctx<SeededOracle>| -> Result<Value, Fault> {
        let x = ctx.oracle("draw")?;
        ctx.effect("charge_card", x.as_str(), |_: &Value| {
            Err(Fault::ToolErr("connection dropped mid-flight".into()))
        })
    };
    let done = |ctx: &mut Ctx<SeededOracle>| -> Result<Value, Fault> {
        let x = ctx.oracle("draw")?;
        ctx.effect("charge_card", x.as_str(), |arg: &Value| {
            Ok(Value::from(format!("charged({})", arg.as_str())))
        })
    };

    // Compensate: the intent is written off; resume performs fresh.
    let mut rt = Runtime::in_memory(SeededOracle::new(11));
    assert!(rt.run("pay-1", flaky).is_err());
    assert_eq!(rt.journal("pay-1").unwrap().dangling_intents().len(), 1);
    let r = rt
        .resume_with(
            "pay-1",
            Default::default(),
            |_: &str, _: &Value| Recover::Compensate,
            done,
        )
        .unwrap();
    assert!(r.output.as_str().starts_with("charged("));
    assert!(rt.journal("pay-1").unwrap().dangling_intents().is_empty());

    // Commit: the operator confirmed the charge landed; close the
    // intent with the known result. Resume replays it without re-charging.
    let mut rt = Runtime::in_memory(SeededOracle::new(11));
    assert!(rt.run("pay-2", flaky).is_err());
    let r = rt
        .resume_with(
            "pay-2",
            Default::default(),
            |_: &str, _: &Value| Recover::Commit("charged(confirmed-by-audit)".into()),
            done,
        )
        .unwrap();
    assert_eq!(r.output.as_str(), "charged(confirmed-by-audit)");
    // The effect body never ran on resume: result came from the journal.
    assert!(rt.journal("pay-2").unwrap().dangling_intents().is_empty());
}

/// Without recovery, a dangling intent refuses to replay silently.
#[test]
fn e2_dangling_intent_refuses_silent_replay() {
    let flaky = |ctx: &mut Ctx<SeededOracle>| -> Result<Value, Fault> {
        let x = ctx.oracle("draw")?;
        ctx.effect("charge_card", x.as_str(), |_: &Value| {
            Err(Fault::ToolErr("boom".into()))
        })
    };
    let mut rt = Runtime::in_memory(SeededOracle::new(3));
    assert!(rt.run("r", flaky).is_err());
    // Strict replay hits the dangling intent and refuses to guess.
    let err = rt.replay("r", flaky).unwrap_err();
    assert!(matches!(err, Fault::JournalDesync { .. }));
}

/// Journal desync (agent code changed under a recorded run) is detected,
/// not silently misreplayed.
#[test]
fn e2_desync_detected_when_code_changes() {
    let v1 = |ctx: &mut Ctx<SeededOracle>| -> Result<Value, Fault> { ctx.oracle("prompt v1") };
    let v2 =
        |ctx: &mut Ctx<SeededOracle>| -> Result<Value, Fault> { ctx.oracle("prompt v2 (changed!)") };
    let mut rt = Runtime::in_memory(SeededOracle::new(8));
    rt.run("versioned", v1).unwrap();
    let err = rt.replay("versioned", v2).unwrap_err();
    assert!(matches!(err, Fault::JournalDesync { .. }));
}

/// Channel receives are journaled and replay exactly.
#[test]
fn e2_channel_receives_replay() {
    let agent = |ctx: &mut Ctx<SeededOracle>| -> Result<Value, Fault> {
        let task = ctx.recv("tasks")?;
        let ans = ctx.oracle(format!("solve {}", task.as_str()))?;
        Ok(ans)
    };
    let mut rt = Runtime::in_memory(SeededOracle::new(21));
    rt.send("chan-run", "tasks", "summarize the corpus");
    let recorded = rt.run("chan-run", agent).unwrap();
    // Replay: inbox is empty now - the value must come from the journal.
    let replayed = rt.replay("chan-run", agent).unwrap();
    assert_eq!(recorded.trace, replayed.trace);
}

/// The journal records exactly what happened - spot-check the event shapes.
#[test]
fn e2_journal_event_shapes() {
    let mut rt = Runtime::in_memory(SeededOracle::new(2));
    rt.run("shapes", agent).unwrap();
    let entries = rt.journal("shapes").unwrap().entries();
    assert!(matches!(&entries[0].event, Event::OracleDraw { .. }));
    assert!(entries
        .iter()
        .any(|e| matches!(&e.event, Event::EffectIntent { name, .. } if name == "persist_a")));
    assert!(entries
        .iter()
        .any(|e| matches!(&e.event, Event::EffectCommit { name, .. } if name == "persist_a")));
}

/// A journal holding a compensated effect pair followed by the re-performed
/// pair (`Intent, Compensated, Intent, Commit`) must replay by consuming BOTH
/// pairs.
#[test]
fn compensated_then_recommitted_effect_replays_exactly() {
    let flaky_then_fine = |fail: bool| {
        move |ctx: &mut Ctx<SeededOracle>| -> Result<Value, Fault> {
            let x = ctx.oracle("draw")?;
            let r = ctx.effect("charge", x.as_str(), |arg: &Value| {
                if fail {
                    Err(Fault::ToolErr("boom".into()))
                } else {
                    Ok(Value::from(format!("charged({})", arg.as_str())))
                }
            })?;
            // A step AFTER the effect - the one that desyncs if the effect
            // replay loop is wrong.
            ctx.oracle(format!("receipt for {}", r.as_str()))
        }
    };

    let mut rt = Runtime::in_memory(SeededOracle::new(5));
    assert!(rt.run("cc", flaky_then_fine(true)).is_err()); // dangling intent
    let resumed = rt.resume("cc", flaky_then_fine(false)).unwrap(); // compensate + fresh pair

    // Journal now holds Intent, Compensated, Intent, Commit. Strict replay
    // must walk all of it and reproduce the resumed trace exactly.
    let replayed = rt.replay("cc", flaky_then_fine(false)).unwrap();
    assert_eq!(replayed.trace, resumed.trace);
    assert_eq!(replayed.fresh_steps, 0);
}

fn draw_event(i: u64) -> Event {
    Event::OracleDraw {
        prompt: Value::from(format!("prompt-{i}")),
        outcome: Value::from(format!("outcome-{i}")),
        provenance: "e3".to_string(),
    }
}

/// Mean in-memory append latency over `n` appends starting from an empty log.
fn mean_append_nanos(n: u64) -> f64 {
    let mut j = Journal::in_memory();
    // Build events up front so the measurement isolates the append path
    // itself (encode + chain hash + push), not `format!` allocations.
    let events: Vec<Event> = (0..n).map(draw_event).collect();
    let start = Instant::now();
    for ev in events {
        j.append(ev);
    }
    let total = start.elapsed();
    assert_eq!(j.len(), n);
    total.as_nanos() as f64 / n as f64
}

#[test]
fn e3_append_latency_flat_to_one_million() {
    let at_1k = mean_append_nanos(1_000);
    let at_1m = mean_append_nanos(1_000_000);
    println!("mean append: {at_1k:.0} ns @ 1k entries, {at_1m:.0} ns @ 1M entries");
    // O(1) claim: the per-append cost at 1M entries is within 8x of the cost
    // at 1k (in practice it's ~1x; the slack absorbs allocator effects and
    // debug-build noise).
    assert!(
        at_1m < at_1k * 8.0,
        "append latency grew with journal length: {at_1k:.0} ns @1k vs {at_1m:.0} ns @1M"
    );
}

/// An oracle with injected latency, standing in for a real model call.
struct SlowOracle {
    delay: Duration,
}

impl Oracle for SlowOracle {
    fn call(&mut self, prompt: &Value) -> Result<Value, Fault> {
        let start = Instant::now();
        while start.elapsed() < self.delay {}
        Ok(Value::from(format!("echo({})", prompt.as_str())))
    }
    fn provenance(&self) -> String {
        "slow-oracle".to_string()
    }
}

#[test]
fn e3_replay_speedup_under_latency_injected_oracle() {
    const STEPS: usize = 40;
    let agent = |ctx: &mut Ctx<SlowOracle>| -> Result<Value, Fault> {
        let mut last = Value::from("start");
        for i in 0..STEPS {
            last = ctx.oracle(format!("step {i}: {}", last.as_str()))?;
        }
        Ok(last)
    };

    let mut rt = Runtime::in_memory(SlowOracle {
        delay: Duration::from_millis(1),
    });

    let t0 = Instant::now();
    let recorded = rt.run("speed", agent).unwrap();
    let record_time = t0.elapsed();

    let t1 = Instant::now();
    let replayed = rt.replay("speed", agent).unwrap();
    let replay_time = t1.elapsed();

    assert_eq!(recorded.trace, replayed.trace);
    let speedup = record_time.as_secs_f64() / replay_time.as_secs_f64().max(1e-9);
    println!("record: {record_time:?}, replay: {replay_time:?}, speedup: {speedup:.0}x");
    // Record pays STEPS x 1 ms of model latency; replay pays none. Even
    // with generous slack this must be a large multiple.
    assert!(
        speedup > 50.0,
        "replay should be dramatically faster than record; got {speedup:.1}x"
    );
}

type Counted = CountingOracle<SeededOracle>;

/// The steps of `agent`, over a journal on storage.
fn on_disk(disk: &RefCell<Vec<u8>>) -> impl Fn(&mut Ctx<Counted>) -> Result<Value, Fault> + '_ {
    move |ctx: &mut Ctx<Counted>| {
        let write = |bytes: &[u8]| {
            disk.borrow_mut().extend_from_slice(bytes);
            Ok(())
        };
        let plan = ctx.oracle_stored(&write, Value::from("plan"))?;
        let step = format!("step a of {}", plan.as_str());
        let a = ctx.oracle_stored(&write, Value::from(step))?;
        let b = ctx.effect_stored(&write, "persist_a", a, |arg: &Value| {
            Ok(Value::from(format!("saved({})", arg.as_str())))
        })?;
        let step = format!("step c after {}", b.as_str());
        let c = ctx.oracle_stored(&write, Value::from(step))?;
        Ok(Value::from(format!("done: {}", c.as_str())))
    }
}

fn durable(seed: u64) -> Runtime<CountingOracle<SeededOracle>> {
    Runtime::durable(CountingOracle::new(SeededOracle::new(seed)))
}

#[test]
fn a_stored_run_survives_a_restart() {
    let disk = RefCell::new(Vec::new());
    let mut rt = durable(42);
    let recorded = rt.run("durable-run", on_disk(&disk)).unwrap();

    // New process: same stored bytes, fresh oracle state.
    let stored = disk.borrow().clone();
    let mut rt2 = durable(9999);
    rt2.load("durable-run", false, Some(&stored)).unwrap();
    let resumed = rt2.resume("durable-run", on_disk(&disk)).unwrap();
    assert_eq!(rt2.oracle().calls(), 0);
    assert_eq!(resumed.trace, recorded.trace);
    assert_eq!(resumed.output, recorded.output);
    // A strict replay records nothing, so the plain steps do.
    let audit = rt2.replay("durable-run", agent).unwrap();
    assert_eq!(audit.trace, recorded.trace);
    assert_eq!(*disk.borrow(), stored);
}

#[test]
fn a_torn_run_resumes_from_its_intact_prefix() {
    let disk = RefCell::new(Vec::new());
    let mut rt = durable(5);
    rt.run("torn", on_disk(&disk)).unwrap();

    let torn = disk.borrow()[..disk.borrow().len() - 7].to_vec();
    let mut rt = durable(5);
    let journal = rt.load("torn", false, Some(&torn)).unwrap();
    let cut = journal.truncate(journal.len()).unwrap();
    disk.borrow_mut().truncate(cut.len as usize);
    let resumed = rt.resume("torn", on_disk(&disk)).unwrap();
    assert!(resumed.output.as_str().starts_with("done: "));
    assert!(rt.verify("torn").unwrap().is_ok());
    let loaded = Journal::open(&disk.borrow()).unwrap();
    assert_eq!(loaded.journal.entries(), rt.journal("torn").unwrap().entries());
}

#[test]
fn a_keyed_run_does_not_load_under_another_key() {
    let disk = RefCell::new(Vec::new());
    let mut rt = durable(4).with_key(b"org-signing-key");
    let head = rt.run("signed", on_disk(&disk)).unwrap().chain_head;

    let stored = disk.borrow().clone();
    let mut rt = durable(4).with_key(b"org-signing-key");
    rt.load("signed", false, Some(&stored)).unwrap();
    assert_eq!(rt.replay("signed", agent).unwrap().chain_head, head);

    let mut wrong = durable(4).with_key(b"some-other-key");
    assert!(wrong.load("signed", false, Some(&stored)).is_err());
}

#[test]
fn an_unknown_run_has_no_journal() {
    let mut rt = durable(1);
    let missing = Fault::Io("no journal for run 'nope'".into());
    assert_eq!(rt.resume("nope", agent).unwrap_err(), missing);
    assert_eq!(rt.replay("nope", agent).unwrap_err(), missing);
    assert_eq!(rt.verify("nope").unwrap_err(), missing);
    assert!(!rt.is_loaded("nope"));
    rt.run("nope", on_disk(&RefCell::new(Vec::new()))).unwrap();
    assert!(rt.is_loaded("nope"));
    rt.evict("nope");
    assert_eq!(rt.resume("nope", agent).unwrap_err(), missing);
}

#[test]
fn strict_replay_of_an_unfinished_run_is_exhausted() {
    let mut rt = Runtime::in_memory(CountingOracle::new(SeededOracle::new(3)));
    rt.run("r", agent).unwrap();
    let calls = rt.oracle().calls();
    rt.journal("r").unwrap().truncate(1);
    assert_eq!(
        rt.replay("r", agent).unwrap_err(),
        Fault::ReplayExhausted { cursor: 1 }
    );
    assert_eq!(rt.oracle().calls(), calls);
}

#[test]
fn desync_messages_quote_both_sides() {
    let mut rt = Runtime::in_memory(SeededOracle::new(8));
    rt.run("v", |ctx: &mut Ctx<SeededOracle>| ctx.oracle("one")).unwrap();
    let err = rt
        .replay("v", |ctx: &mut Ctx<SeededOracle>| ctx.recv("box"))
        .unwrap_err();
    match err {
        Fault::JournalDesync {
            cursor, expected, ..
        } => {
            assert_eq!(cursor, 0);
            assert!(expected.contains("box"), "{expected}");
        }
        other => panic!("expected JournalDesync, got {other:?}"),
    }
}

#[test]
fn an_empty_inbox_is_a_timeout() {
    let mut rt = Runtime::in_memory(SeededOracle::new(8));
    let err = rt
        .run("v", |ctx: &mut Ctx<SeededOracle>| ctx.recv("box"))
        .unwrap_err();
    assert_eq!(err, Fault::Timeout);
    assert_eq!(rt.journal("v").unwrap().len(), 0);
}

#[test]
fn a_falsified_contract_faults_the_run() {
    let mut rt = Runtime::in_memory(SeededOracle::new(8));
    let err = rt
        .run("v", |ctx: &mut Ctx<SeededOracle>| {
            ctx.contract(true, "fine")?;
            ctx.contract(false, "broken")?;
            Ok(Value::from("unreachable"))
        })
        .unwrap_err();
    assert_eq!(err, Fault::ContractViol("broken".into()));
}

#[test]
fn reports_count_replayed_and_fresh_steps() {
    let mut rt = Runtime::in_memory(SeededOracle::new(5));
    let recorded = rt.run("r", agent).unwrap();
    assert_eq!((recorded.replayed_steps, recorded.fresh_steps), (0, 3));
    assert_eq!(recorded.journal_len, 5);
    assert_eq!(recorded.run_id, "r");
    assert_eq!(recorded.chain_head, rt.journal("r").unwrap().head());
    let replayed = rt.replay("r", agent).unwrap();
    assert_eq!(replayed.fresh_steps, 0);
    // The clock read is journaled, so a replay reads the same time.
    let t1 = rt.run("t", |ctx: &mut Ctx<SeededOracle>| {
        let n = ctx.now()?;
        Ok(Value::from(n.to_string()))
    });
    let t2 = rt.replay("t", |ctx: &mut Ctx<SeededOracle>| {
        assert!(ctx.is_replaying());
        let n = ctx.now()?;
        assert!(!ctx.is_replaying());
        Ok(Value::from(n.to_string()))
    });
    assert_eq!(t1.unwrap().output, t2.unwrap().output);
}

#[test]
fn a_draw_past_the_budget_is_refused_on_resume_too() {
    let two = |ctx: &mut Ctx<SeededOracle>| -> Result<Value, Fault> {
        ctx.oracle("a")?;
        ctx.oracle("b")
    };
    let mut rt = Runtime::in_memory(SeededOracle::new(5));
    let opts = RunOptions::default().with_budget(1);
    assert_eq!(
        rt.run_with("r", opts, two).unwrap_err(),
        Fault::BudgetExhausted
    );
    assert_eq!(rt.journal("r").unwrap().len(), 1);
}

#[test]
fn a_run_only_ever_appends() {
    let mut rt = Runtime::in_memory(SeededOracle::new(5));
    rt.run("r", agent).unwrap();
    rt.journal("r").unwrap().truncate(3);
    let kept: Vec<[u8; 32]> = rt
        .journal("r")
        .unwrap()
        .entries()
        .iter()
        .map(|e| e.hash)
        .collect();
    rt.resume("r", agent).unwrap();
    let entries = rt.journal("r").unwrap().entries();
    assert!(entries.len() > kept.len());
    for (e, hash) in entries.iter().zip(kept) {
        assert_eq!(e.hash, hash);
    }
}

#[test]
fn an_effect_dangles_from_its_intent_to_its_commit() {
    let mut rt = Runtime::in_memory(SeededOracle::new(5));
    let failed = rt.run("r", |ctx: &mut Ctx<SeededOracle>| {
        ctx.effect("a", "1", |_: &Value| Ok("done".into()))?;
        ctx.effect("b", "2", |_: &Value| Err(Fault::ToolErr("crash".into())))
    });
    assert!(failed.is_err());
    let j = rt.journal("r").unwrap();
    assert_eq!(j.dangling_intents(), vec![(2, "b".to_string())]);
}

#[test]
fn a_finished_run_resumes_to_what_it_has_come_to() {
    let mut rt = Runtime::in_memory(CountingOracle::new(SeededOracle::new(5)));
    let recorded = rt.run("r", agent).unwrap();
    let calls = rt.oracle().calls();
    let resumed = rt.resume("r", agent).unwrap();
    assert_eq!(resumed.output, recorded.output);
    assert_eq!(resumed.trace, recorded.trace);
    assert_eq!(resumed.chain_head, recorded.chain_head);
    assert_eq!((resumed.fresh_steps, rt.oracle().calls()), (0, calls));
}

#[test]
fn a_refused_step_leaves_the_entry_to_the_step_that_asks_for_it() {
    // The agent goes on after the journal has refused a step.
    let stubborn = |ctx: &mut Ctx<SeededOracle>| -> Result<Value, Fault> {
        let first = ctx.oracle("changed prompt");
        ctx.oracle("a")?;
        let second = ctx.oracle("b")?;
        Ok(Value::from(format!("{}{}", first.is_err(), second.as_str())))
    };
    let mut rt = Runtime::in_memory(CountingOracle::new(SeededOracle::new(5)));
    rt.run("r", |ctx: &mut Ctx<Counted>| {
        ctx.oracle("a")?;
        ctx.oracle("b")
    })
    .unwrap();
    let stubborn_counted = |ctx: &mut Ctx<Counted>| -> Result<Value, Fault> {
        let refused = ctx.oracle("changed prompt").unwrap_err();
        assert!(matches!(refused, Fault::JournalDesync { cursor: 0, .. }));
        assert!(matches!(ctx.recv("c"), Err(Fault::JournalDesync { cursor: 0, .. })));
        assert!(matches!(ctx.now(), Err(Fault::JournalDesync { cursor: 0, .. })));
        let marked = ctx.program_marker("p", "h");
        assert!(matches!(marked, Err(Fault::JournalDesync { cursor: 0, .. })));
        let denied = ctx.effect("e", "x", |_: &Value| panic!("performed"));
        assert!(matches!(denied, Err(Fault::JournalDesync { cursor: 0, .. })));
        ctx.oracle("a")?;
        ctx.oracle("b")
    };
    let resumed = rt.resume("r", stubborn_counted).unwrap();
    assert_eq!((resumed.replayed_steps, resumed.fresh_steps), (2, 0));
    assert_eq!(rt.oracle().calls(), 2);

    let mut rt = Runtime::in_memory(SeededOracle::new(5));
    rt.run("r", |ctx: &mut Ctx<SeededOracle>| {
        ctx.oracle("a")?;
        ctx.oracle("b")
    })
    .unwrap();
    let resumed = rt.resume("r", stubborn).unwrap();
    let replayed = rt.replay("r", stubborn).unwrap();
    assert!(resumed.output.as_str().starts_with("true"));
    assert_eq!(replayed.trace, resumed.trace);
    assert_eq!(replayed.output, resumed.output);
}

/// Fails its first call and then answers.
struct FailsOnce(bool);

impl Oracle for FailsOnce {
    fn call(&mut self, _: &Value) -> Result<Value, Fault> {
        if self.0 {
            self.0 = false;
            Err(Fault::OracleErr("busy".into()))
        } else {
            Ok(Value::from("b"))
        }
    }
}

#[test]
fn a_run_that_went_on_after_a_failed_draw_replays_exactly() {
    let agent = |ctx: &mut Ctx<CountingOracle<FailsOnce>>| -> Result<Value, Fault> {
        match ctx.oracle("p") {
            Ok(v) => Ok(v),
            Err(_) => ctx.oracle("q"),
        }
    };
    let mut rt = Runtime::in_memory(CountingOracle::new(FailsOnce(true)));
    let recorded = rt.run("r", agent).unwrap();
    let trace = vec![
        TraceLabel::Oracle {
            cursor: 0,
            outcome: "b".into(),
        },
        TraceLabel::Done { output: "b".into() },
    ];
    assert_eq!(recorded.trace, trace);
    assert_eq!(rt.replay("r", agent).unwrap().trace, trace);
    assert_eq!(rt.run("r", agent).unwrap().trace, trace);
    assert_eq!(rt.resume("r", agent).unwrap().trace, trace);
    assert_eq!(rt.oracle().calls(), 2);
}

#[test]
fn a_run_that_went_on_after_a_failed_effect_replays_exactly() {
    let agent = |ctx: &mut Ctx<SeededOracle>| -> Result<Value, Fault> {
        let missing = ctx.recv("tasks").is_err();
        let failed = ctx.effect("pay", "x", |_: &Value| Err(Fault::ToolErr("boom".into())));
        let v = ctx.oracle("q")?;
        let again = ctx.effect("pay", "y", |arg: &Value| Ok(arg.clone()))?;
        Ok(Value::from(format!("{missing} {} {} {}", failed.is_err(), v.as_str(), again.as_str())))
    };
    let mut rt = Runtime::in_memory(SeededOracle::new(5));
    let recorded = rt.run("r", agent).unwrap();
    assert_eq!((recorded.journal_len, recorded.fresh_steps), (4, 1));
    let replayed = rt.replay("r", agent).unwrap();
    assert_eq!(replayed.trace, recorded.trace);
    assert_eq!(replayed.output, recorded.output);
    assert_eq!(replayed.chain_head, recorded.chain_head);
    // The intent of the effect that failed is still open.
    let j = rt.journal("r").unwrap();
    assert_eq!(j.dangling_intents(), vec![(0, "pay".to_string())]);
}

#[test]
fn closings_are_matched_with_the_latest_intent_of_their_name() {
    let intent = |n: &str| Event::EffectIntent {
        name: n.into(),
        arg: "".into(),
    };
    let closing = |n: &str| Event::EffectCompensated { name: n.into() };
    let mut j = Journal::in_memory();
    let all = [
        closing("a"),
        intent("a"),
        intent("b"),
        intent("a"),
        closing("a"),
        intent("a"),
        closing("b"),
        closing("b"),
    ];
    for e in all {
        j.append(e);
    }
    let open = vec![(1, "a".to_string()), (5, "a".to_string())];
    assert_eq!(j.dangling_intents(), open);
}

#[test]
fn a_second_try_of_the_same_prompt_replays_as_the_first() {
    let agent = |ctx: &mut Ctx<FailsOnce>| -> Result<Value, Fault> {
        match ctx.oracle("p") {
            Err(_) => {
                ctx.oracle("p")?;
                Ok(Value::from("second try"))
            }
            Ok(_) => Ok(Value::from("first try")),
        }
    };
    let mut rt = Runtime::in_memory(FailsOnce(true));
    assert_eq!(rt.run("r", agent).unwrap().output.as_str(), "second try");
    // The failed draw was not journaled, so a replay takes the other branch.
    assert_eq!(rt.replay("r", agent).unwrap().output.as_str(), "first try");
}

#[test]
fn a_clock_reading_is_cut_to_sixty_four_bits() {
    assert_eq!(clock_nanos(Some(1_700_000_000_000_000_000)), 1_700_000_000_000_000_000);
    assert_eq!(clock_nanos(Some(u64::MAX as u128 + 6)), 5);
    assert_eq!(clock_nanos(None), 0);
}

#[test]
fn a_fresh_clock_read_is_the_time() {
    let mut rt = Runtime::in_memory(SeededOracle::new(1));
    let before = std::time::SystemTime::now()
        .duration_since(std::time::UNIX_EPOCH)
        .unwrap()
        .as_nanos();
    let mut read = 0;
    rt.run("r", |ctx: &mut Ctx<SeededOracle>| {
        read = ctx.now()?;
        Ok(Value::from("done"))
    })
    .unwrap();
    assert!(before <= read as u128 && (read as u128) < before + 60_000_000_000);
}

/// An agent over a journal on storage.
fn stored_agent(
    ctx: &mut Ctx<SeededOracle>,
    write: &impl Fn(&[u8]) -> Result<(), Fault>,
    seen: &mut Vec<u64>,
    watch: impl FnOnce(&Value) -> Result<Value, Fault>,
) -> Result<Value, Fault> {
    ctx.program_marker_stored(write, "stored", "00")?;
    let plan = ctx.oracle_stored(write, Value::from("plan"))?;
    seen.push(ctx.now_stored(write)?);
    ctx.recv_stored(write, "tasks")?;
    ctx.effect_stored(write, "publish", plan, watch)
}

/// Storage that takes a number of writes and then fails.
struct Disk {
    bytes: RefCell<Vec<u8>>,
    left: Cell<u32>,
}

impl Disk {
    fn new(header: Vec<u8>, left: u32) -> Self {
        Disk {
            bytes: RefCell::new(header),
            left: Cell::new(left),
        }
    }

    fn write(&self, bytes: &[u8]) -> Result<(), Fault> {
        if self.left.get() == 0 {
            return Err(Fault::Io("disk full".into()));
        }
        self.left.set(self.left.get() - 1);
        self.bytes.borrow_mut().extend_from_slice(bytes);
        Ok(())
    }
}

#[test]
fn every_step_is_on_storage_before_the_run_goes_on() {
    let mut rt = Runtime::durable(SeededOracle::new(3));
    let header = rt.load("r", true, None).unwrap().sync();
    let disk = Disk::new(header, 6);
    let write = |bytes: &[u8]| disk.write(bytes);
    rt.send("r", "tasks", "one");
    let mut seen = Vec::new();
    let recorded = rt
        .run("r", |ctx: &mut Ctx<SeededOracle>| {
            stored_agent(ctx, &write, &mut seen, |arg: &Value| Ok(arg.clone()))
        })
        .unwrap();
    // Nothing is left to be written, and what is stored reads back.
    assert_eq!((recorded.journal_len, disk.left.get()), (6, 0));
    assert!(rt.journal("r").unwrap().sync().is_empty());
    let loaded = Journal::open(&disk.bytes.borrow()).unwrap();
    assert_eq!(loaded.torn_bytes, 0);
    assert_eq!(loaded.journal.entries(), rt.journal("r").unwrap().entries());

    // A replay writes nothing.
    let replayed = rt
        .replay("r", |ctx: &mut Ctx<SeededOracle>| {
            stored_agent(ctx, &write, &mut seen, |_: &Value| panic!("performed again"))
        })
        .unwrap();
    assert_eq!(replayed.trace, recorded.trace);
    assert_eq!(seen[0], seen[1]);
}

#[test]
fn an_effect_is_performed_only_once_its_intent_is_stored() {
    // Four steps and the intent are five writes, and the commit is the sixth.
    for writes in 0..6 {
        let mut rt = Runtime::durable(SeededOracle::new(3));
        let header = rt.load("r", true, None).unwrap().sync();
        rt.send("r", "tasks", "one");
        let disk = Disk::new(header, writes);
        let mut performed = false;
        let mut seen = Vec::new();
        let result = rt.run("r", |ctx: &mut Ctx<SeededOracle>| {
            stored_agent(ctx, &|bytes: &[u8]| disk.write(bytes), &mut seen, |arg: &Value| {
                performed = true;
                Ok(arg.clone())
            })
        });
        assert_eq!(result.unwrap_err(), Fault::Io("disk full".into()));
        assert_eq!(performed, writes == 5, "after {writes} writes");
        let stored = Journal::open(&disk.bytes.borrow()).unwrap().journal;
        assert_eq!(stored.len(), writes as u64);
    }
}

#[test]
fn a_step_whose_write_failed_has_not_happened() {
    let mut rt = Runtime::durable(CountingOracle::new(SeededOracle::new(3)));
    let header = rt.load("r", true, None).unwrap().sync();
    let disk = Disk::new(header, 0);
    let write = |bytes: &[u8]| disk.write(bytes);
    let report = rt
        .run("r", |ctx: &mut Ctx<Counted>| {
            let full = Fault::Io("disk full".into());
            assert_eq!(ctx.oracle_stored(&write, Value::from("p")), Err(full.clone()));
            assert_eq!(ctx.now_stored(&write), Err(full.clone()));
            assert_eq!(ctx.program_marker_stored(&write, "a", "h"), Err(full.clone()));
            let unperformed = ctx.effect_stored(&write, "e", Value::from("x"), |_: &Value| {
                panic!("performed")
            });
            assert_eq!(unperformed, Err(full));
            assert!(ctx.unsynced().is_empty());
            assert!(!ctx.is_replaying());
            disk.left.set(1);
            ctx.oracle_stored(&write, Value::from("q"))
        })
        .unwrap();
    assert_eq!((report.journal_len, report.fresh_steps), (1, 1));
    assert_eq!((rt.oracle().calls(), disk.left.get()), (2, 0));
    let loaded = Journal::open(&disk.bytes.borrow()).unwrap();
    assert_eq!(loaded.torn_bytes, 0);
    assert_eq!(loaded.journal.entries(), rt.journal("r").unwrap().entries());
}

#[test]
fn what_was_owed_before_a_failed_write_is_still_owed() {
    let mut rt = Runtime::durable(SeededOracle::new(3));
    rt.load("r", true, None).unwrap();
    let disk = Disk::new(vec![], 0);
    let write = |bytes: &[u8]| disk.write(bytes);
    rt.run("r", |ctx: &mut Ctx<SeededOracle>| {
        let header = ctx.unsynced().to_vec();
        assert_eq!(header.len(), 12);
        assert!(ctx.flush(&write).is_err());
        assert!(ctx.oracle_stored(&write, Value::from("p")).is_err());
        assert_eq!(ctx.unsynced(), header);
        disk.left.set(1);
        ctx.oracle_stored(&write, Value::from("p"))
    })
    .unwrap();
    // One write brought the header and the draw.
    assert_eq!(disk.left.get(), 0);
    assert_eq!(Journal::open(&disk.bytes.borrow()).unwrap().journal.len(), 1);
}

#[test]
fn an_intent_of_this_attempt_is_not_replayed() {
    let mut rt = Runtime::in_memory(SeededOracle::new(3));
    let report = rt
        .run("r", |ctx: &mut Ctx<SeededOracle>| {
            assert!(!ctx.is_replaying());
            let failed = ctx.effect("pay", "x", |_: &Value| Err(Fault::ToolErr("boom".into())));
            assert_eq!(failed, Err(Fault::ToolErr("boom".into())));
            assert!(!ctx.is_replaying());
            Ok(Value::from("done"))
        })
        .unwrap();
    assert_eq!(report.journal_len, 1);
}

#[test]
fn perform_is_called_on_the_fresh_path_alone() {
    let mut rt = Runtime::in_memory(SeededOracle::new(3));
    let never = |_: &Value| -> Result<Value, Fault> { panic!("performed") };
    let denied = rt.run_with(
        "r",
        RunOptions::default().with_caps(vec![]),
        |ctx: &mut Ctx<SeededOracle>| ctx.effect("pay", "x", never),
    );
    assert_eq!(denied.unwrap_err(), Fault::CapabilityDenied("pay".into()));
    assert_eq!(rt.journal("r").unwrap().len(), 0);
    rt.run("r", |ctx: &mut Ctx<SeededOracle>| {
        ctx.effect("pay", "x", |arg: &Value| Ok(arg.clone()))
    })
    .unwrap();
    let again = |ctx: &mut Ctx<SeededOracle>| ctx.effect("pay", "x", never);
    assert_eq!(rt.run("r", again).unwrap().output.as_str(), "x");
    assert_eq!(rt.resume("r", again).unwrap().output.as_str(), "x");
    assert_eq!(rt.replay("r", again).unwrap().output.as_str(), "x");
}

#[test]
fn a_run_without_a_journal_asks_neither_policy_nor_agent() {
    let mut rt = Runtime::in_memory(SeededOracle::new(3));
    let agent = |_: &mut Ctx<SeededOracle>| -> Result<Value, Fault> { panic!("called") };
    let policy = |_: &str, _: &Value| -> Recover { panic!("asked") };
    let missing = Fault::Io("no journal for run 'r'".into());
    assert_eq!(rt.resume("r", agent).unwrap_err(), missing);
    assert_eq!(rt.replay("r", agent).unwrap_err(), missing);
    let resumed = rt.resume_with("r", RunOptions::default(), policy, agent);
    assert_eq!(resumed.unwrap_err(), missing);
}

#[test]
fn a_context_that_is_dropped_leaves_its_journal() {
    let mut store = JournalStore::in_memory();
    let mut model = SeededOracle::new(3);
    assert!(store.parts("r").is_none());
    store.load("r", true, None).unwrap();
    store.send("r", "tasks", Value::from("one"));
    store.send("r", "tasks", Value::from("two"));
    {
        let (journal, inbox) = store.parts("r").unwrap();
        let mut ctx = Ctx::recording(journal, &mut model, inbox, &RunOptions::default());
        ctx.oracle("p").unwrap();
        assert_eq!(ctx.recv("tasks").unwrap().as_str(), "one");
        // The attempt never finishes.
    }
    let (journal, inbox) = store.parts("r").unwrap();
    assert_eq!(journal.len(), 2);
    let mut ctx = Ctx::recording(journal, &mut model, inbox, &RunOptions::default());
    assert!(ctx.is_replaying());
    ctx.oracle("p").unwrap();
    assert_eq!(ctx.recv("tasks").unwrap().as_str(), "one");
    assert!(!ctx.is_replaying());
    assert_eq!(ctx.recv("tasks").unwrap().as_str(), "two");
    let done = ctx.finish(None);
    assert_eq!((done.replayed, done.fresh), (2, 0));
}
