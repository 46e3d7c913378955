use std::cell::RefCell;
use std::rc::Rc;

use pragmatic::ctx::{Ctx, RunOptions};
use pragmatic::event::Event;
use pragmatic::fault::Fault;
use pragmatic::oracle::{CountingOracle, Oracle, SeededOracle};
use pragmatic::runtime::Runtime;
use pragmatic::journal::Journal;
use pragmatic::supervisor::{
    committed_effects, compensate, default_policy, Compensator, Decision, Supervisor,
};
use pragmatic::value::Value;

fn agent<O: Oracle>(ctx: &mut Ctx<O>) -> Result<Value, Fault> {
    let a = ctx.oracle("first")?;
    let b = ctx.oracle(format!("second after {}", a.as_str()))?;
    Ok(b)
}

#[test]
fn chain_verifies_and_flags_tampering() {
    let mut rt = Runtime::in_memory(SeededOracle::new(1));
    rt.run("audit", agent).unwrap();
    assert!(rt.verify("audit").unwrap().is_ok());

    // Forge the first oracle outcome after the fact.
    rt.journal("audit").unwrap().tamper(
        0,
        Event::OracleDraw {
            prompt: "first".into(),
            outcome: "FORGED OUTCOME".into(),
            provenance: "attacker".into(),
        },
    );
    assert_eq!(rt.verify("audit").unwrap(), Err(0));
}

#[test]
fn supervisor_restarts_transient_faults_from_journal() {
    // An oracle that fails its 2nd live call, succeeds otherwise.
    struct Flaky {
        inner: SeededOracle,
        calls: u32,
    }
    impl Oracle for Flaky {
        fn call(&mut self, prompt: &Value) -> Result<Value, Fault> {
            self.calls += 1;
            if self.calls == 2 {
                return Err(Fault::OracleErr("rate limited".into()));
            }
            self.inner.call(prompt)
        }
    }

    let mut rt = Runtime::in_memory(CountingOracle::new(Flaky {
        inner: SeededOracle::new(10),
        calls: 0,
    }));
    let mut sup = Supervisor::new().max_restarts(3);
    let report = sup
        .supervise(&mut rt, "flaky-run", RunOptions::default(), agent)
        .unwrap();
    assert!(!report.output.is_empty());
    // Attempt 1: draw#1 ok, draw#2 faults. Attempt 2: draw#1 replayed from
    // the journal (no model call), draw#2 fresh. Total live calls: 3.
    assert_eq!(
        rt.oracle().calls(),
        3,
        "restart must not re-sample the journaled prefix"
    );
}

#[test]
fn budget_capability_bounds_runaway_loops() {
    let runaway = |ctx: &mut Ctx<SeededOracle>| -> Result<Value, Fault> {
        loop {
            ctx.oracle("keep going")?; // would never halt on its own
        }
    };
    let mut rt = Runtime::in_memory(SeededOracle::new(6));
    let err = rt
        .run_with("loopy", RunOptions::default().with_budget(25), runaway)
        .unwrap_err();
    assert_eq!(err, Fault::BudgetExhausted);
    assert_eq!(rt.journal("loopy").unwrap().len(), 25);
}

#[test]
fn effect_capabilities_are_enforced() {
    let sneaky = |ctx: &mut Ctx<SeededOracle>| -> Result<Value, Fault> {
        ctx.effect("delete_prod_db", "now", |_: &Value| Ok("done".into()))
    };
    let mut rt = Runtime::in_memory(SeededOracle::new(6));
    let err = rt
        .run_with(
            "capped",
            RunOptions::default().with_caps(vec![
                "send_email".to_string(),
                "write_report".to_string(),
            ]),
            sneaky,
        )
        .unwrap_err();
    assert!(matches!(err, Fault::CapabilityDenied(name) if name == "delete_prod_db"));
    // Nothing was journaled for the denied effect - it never got an intent.
    assert_eq!(rt.journal("capped").unwrap().len(), 0);
}

#[test]
fn supervisor_compensates_committed_effects_in_reverse() {
    let agent = |ctx: &mut Ctx<SeededOracle>| -> Result<Value, Fault> {
        ctx.effect("book_flight", "SFO->NRT", |a: &Value| {
            Ok(format!("booked({})", a.as_str()).into())
        })?;
        ctx.effect("book_hotel", "Shinjuku", |a: &Value| {
            Ok(format!("booked({})", a.as_str()).into())
        })?;
        Err(Fault::ContractViol("itinerary over budget".into()))
    };

    let undone: Rc<RefCell<Vec<String>>> = Rc::new(RefCell::new(vec![]));
    let undone_ref = undone.clone();

    let mut rt = Runtime::in_memory(SeededOracle::new(1));
    let mut sup = Supervisor::new()
        .on_fault(|_: &Fault| Decision::Compensate)
        .compensate_with(move |name: &str, _: &Value| {
            undone_ref.borrow_mut().push(name.to_string())
        });

    let err = sup
        .supervise(&mut rt, "trip", RunOptions::default(), agent)
        .unwrap_err();
    assert!(matches!(err, Fault::ContractViol(_)));
    // Reverse order: hotel undone before flight.
    assert_eq!(*undone.borrow(), vec!["book_hotel", "book_flight"]);
    // Compensations are journaled, so replay never double-undoes.
    let comp_count = rt
        .journal("trip")
        .unwrap()
        .entries()
        .iter()
        .filter(|e| matches!(e.event, Event::EffectCompensated { .. }))
        .count();
    assert_eq!(comp_count, 2);
}

#[test]
fn escalation_wraps_the_fault() {
    let failing = |_: &mut Ctx<SeededOracle>| -> Result<Value, Fault> { Err(Fault::Timeout) };
    let mut rt = Runtime::in_memory(SeededOracle::new(1));
    let mut sup = Supervisor::new().on_fault(|_: &Fault| Decision::Escalate);
    let err = sup
        .supervise(&mut rt, "child", RunOptions::default(), failing)
        .unwrap_err();
    assert_eq!(err, Fault::Escalated(Box::new(Fault::Timeout)));
}

#[test]
fn the_default_policy_restarts_what_is_transient() {
    assert_eq!(default_policy(&Fault::Timeout), Decision::Restart);
    assert_eq!(default_policy(&Fault::OracleErr("x".into())), Decision::Restart);
    assert_eq!(default_policy(&Fault::ToolErr("x".into())), Decision::Restart);
    assert_eq!(default_policy(&Fault::Io("x".into())), Decision::Restart);
    assert_eq!(default_policy(&Fault::BudgetExhausted), Decision::Stop);
    assert_eq!(default_policy(&Fault::ContractViol("x".into())), Decision::Stop);
}

#[test]
fn restarts_are_bounded() {
    let mut attempts = 0u32;
    let mut rt = Runtime::in_memory(SeededOracle::new(1));
    let mut sup = Supervisor::new().max_restarts(2);
    let err = sup
        .supervise(
            &mut rt,
            "down",
            RunOptions::default(),
            |_: &mut Ctx<SeededOracle>| {
                attempts += 1;
                Err(Fault::Timeout)
            },
        )
        .unwrap_err();
    assert_eq!(attempts, 3);
    assert_eq!(err, Fault::Timeout);
}

#[test]
fn a_flaky_tool_is_retried_without_drafting_again() {
    let mut attempts = 0u32;
    let mut rt = Runtime::in_memory(CountingOracle::new(SeededOracle::new(7)));
    let mut sup = Supervisor::new().max_restarts(5);
    let report = sup
        .supervise(
            &mut rt,
            "cs4",
            RunOptions::default().with_budget(50),
            |ctx: &mut Ctx<CountingOracle<SeededOracle>>| {
                let query = ctx.oracle("draft a search query about durable execution")?;
                let results = ctx.effect("search_api", query.as_str(), |q: &Value| {
                    attempts += 1;
                    if attempts <= 2 {
                        Err(Fault::ToolErr(format!(
                            "attempt {attempts}: 429 too many requests"
                        )))
                    } else {
                        Ok(Value::from(format!("3 documents for '{}'", q.as_str())))
                    }
                })?;
                ctx.oracle(format!("synthesize an answer from: {}", results.as_str()))
            },
        )
        .unwrap();
    assert_eq!(attempts, 3);
    assert_eq!(rt.oracle().calls(), 2);
    assert_eq!(report.fresh_steps, 1);
}

struct Undone(Vec<(String, String)>);

impl Compensator for Undone {
    fn undo(&mut self, name: &str, result: &Value) {
        self.0.push((name.to_string(), result.as_str()));
    }
}

fn intent(name: &str, arg: &str) -> Event {
    Event::EffectIntent {
        name: name.into(),
        arg: arg.into(),
    }
}

fn commit(name: &str, result: &str) -> Event {
    Event::EffectCommit {
        name: name.into(),
        result: result.into(),
    }
}

fn compensated(name: &str) -> Event {
    Event::EffectCompensated { name: name.into() }
}

fn journal_of(events: Vec<Event>) -> Journal {
    let mut j = Journal::in_memory();
    for e in events {
        j.append(e);
    }
    j
}

fn undone(j: &mut Journal) -> Vec<(String, String)> {
    let mut undo = Undone(vec![]);
    compensate(j, &mut undo);
    undo.0
}

#[test]
fn an_intent_that_recovery_wrote_off_undoes_nothing() {
    let mut j = journal_of(vec![
        intent("a", "1"),
        commit("a", "r1"),
        intent("a", "2"),
        compensated("a"),
    ]);
    assert_eq!(undone(&mut j), vec![("a".to_string(), "r1".to_string())]);
    assert_eq!(j.len(), 5);
    assert_eq!(j.entries()[4].event, compensated("a"));
    // What is undone stays undone.
    assert_eq!(undone(&mut j), vec![]);
    assert_eq!(j.len(), 5);
}

#[test]
fn a_saga_closes_the_open_intents_of_what_it_undoes() {
    let mut j = journal_of(vec![
        intent("a", "1"),
        commit("a", "r1"),
        intent("b", "x"),
        commit("b", "r2"),
        intent("c", "y"),
        intent("a", "2"),
    ]);
    assert_eq!(committed_effects(&j).len(), 2);
    let pair = |n: &str, r: &str| (n.to_string(), r.to_string());
    assert_eq!(undone(&mut j), vec![pair("b", "r2"), pair("a", "r1")]);
    let tail: Vec<&Event> = j.entries()[6..].iter().map(|e| &e.event).collect();
    assert_eq!(tail, vec![&compensated("a"), &compensated("b"), &compensated("a")]);
    // The intent of a name that was not undone is left to recovery.
    assert_eq!(j.dangling_intents(), vec![(4, "c".to_string())]);
    assert_eq!(undone(&mut j), vec![]);
    assert_eq!(j.len(), 9);
}
