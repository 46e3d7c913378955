use pragmatic::abi::{
    effect_outcome, fault_code, in_text, oracle_outcome, out_text, prag_ctx_contract,
    prag_ctx_is_replaying, prag_ctx_ready, prag_message, prag_report_chain_head,
    prag_report_fresh_steps, prag_report_journal_len, prag_report_output,
    prag_report_replayed_steps, prag_report_run_id, prag_report_trace_cursor,
    prag_report_trace_kind, prag_report_trace_len, prag_report_trace_summary, prag_run_id,
    prag_run_status, prag_verify_status, PragCtx, PragReport, PRAG_ERR_BUDGET, PRAG_ERR_CONTRACT,
    PRAG_ERR_INVALID, PRAG_ERR_IO, PRAG_ERR_ORACLE, PRAG_ERR_PANIC, PRAG_ERR_TAMPERED, PRAG_OK,
    PRAG_TRACE_DONE, PRAG_TRACE_EFFECT, PRAG_TRACE_ORACLE,
};
use pragmatic::bindings::{
    agent_reply, callable_provenance, convert_report, effect_reply, oracle_reply, Reply,
};
use pragmatic::ctx::Ctx;
use pragmatic::fault::Fault;
use pragmatic::oracle::SeededOracle;
use pragmatic::runtime::{RunReport, Runtime};
use pragmatic::sha256::hex;
use pragmatic::value::Value;

fn report() -> RunReport {
    let mut rt = Runtime::in_memory(SeededOracle::new(7));
    rt.run("r", |ctx: &mut Ctx<SeededOracle>| {
        ctx.oracle("p")?;
        ctx.effect("publish", "3 findings", |a: &Value| {
            Ok(Value::from(a.as_str().to_uppercase()))
        })
    })
    .unwrap()
}

#[test]
fn fault_codes() {
    assert_eq!(fault_code(&Fault::OracleErr("x".into())), PRAG_ERR_ORACLE);
    assert_eq!(fault_code(&Fault::BudgetExhausted), PRAG_ERR_BUDGET);
    assert_eq!(fault_code(&Fault::Io("x".into())), PRAG_ERR_IO);
    assert_eq!(fault_code(&Fault::Timeout), 3);
    assert_eq!(fault_code(&Fault::Escalated(Box::new(Fault::Timeout))), 7);
    assert_eq!(fault_code(&Fault::ReplayExhausted { cursor: 0 }), 9);
}

#[test]
fn strings_cross_without_nul() {
    assert_eq!(out_text("a\0b"), "a\u{FFFD}b");
    assert_eq!(in_text(Some(b"ok"), "prompt"), Ok("ok".to_string()));
    assert_eq!(in_text(None, "prompt"), Err("prompt is NULL".to_string()));
    assert_eq!(
        in_text(Some(b"\xff"), "prompt"),
        Err("prompt is not valid UTF-8".to_string())
    );
}

#[test]
fn callbacks_that_fail_leave_a_fault() {
    assert_eq!(oracle_outcome(Some(b"hi"), Some(b"stray")), Ok(Value::from("hi")));
    assert_eq!(
        oracle_outcome(None, Some(b"down")),
        Err(Fault::OracleErr("down".into()))
    );
    assert_eq!(
        oracle_outcome(None, None),
        Err(Fault::OracleErr("oracle callback failed".into()))
    );
    assert_eq!(effect_outcome(Some(b"x\xff"), None), Ok(Value::from("x\u{FFFD}")));
    assert_eq!(
        effect_outcome(None, None),
        Err(Fault::ToolErr("effect callback failed".into()))
    );
}

#[test]
fn typed_faults_reach_the_caller() {
    // The contract fault must arrive typed, not as a generic tool error.
    let mut ctx = Some(PragCtx::new());
    let status = prag_ctx_contract(&mut ctx, false, Some(b"must not continue"));
    assert_eq!(status.code, PRAG_ERR_CONTRACT);
    let fault = ctx.as_mut().unwrap().finish(None, None).unwrap_err();
    assert_eq!(fault, Fault::ContractViol("must not continue".into()));
    let (no_report, status) = prag_run_status(Some(Err(fault)));
    assert!(no_report.is_none());
    assert_eq!(status.code, PRAG_ERR_CONTRACT);
    assert!(status.message.unwrap().contains("must not continue"));
}

#[test]
fn a_later_success_clears_the_pending_fault() {
    let mut ctx = PragCtx::new();
    assert_eq!(
        ctx.value_call(Err(Fault::BudgetExhausted)),
        Err("budget exhausted".to_string())
    );
    assert_eq!(ctx.pending, Some(Fault::BudgetExhausted));
    assert_eq!(ctx.value_call(Ok(Value::from("v"))), Ok("v".to_string()));
    assert_eq!(
        ctx.finish(None, Some(b"my own")),
        Err(Fault::ToolErr("my own".into()))
    );
    // The attempt is over: every further call is refused.
    assert_eq!(
        prag_ctx_ready(Some(&ctx)),
        Err("ctx used outside its run".to_string())
    );
    assert_eq!(prag_ctx_is_replaying(Some(&ctx), true), -1);
    assert_eq!(
        prag_ctx_ready(None),
        Err("ctx is NULL".to_string())
    );
}

#[test]
fn contracts_across_the_boundary() {
    let mut none = None;
    let s = prag_ctx_contract(&mut none, true, Some(b"m"));
    assert_eq!((s.code, s.message.as_deref()), (PRAG_ERR_INVALID, Some("ctx is NULL")));
    let s = prag_ctx_contract(&mut none, true, None);
    assert_eq!((s.code, s.message.as_deref()), (PRAG_ERR_INVALID, Some("msg is NULL")));
    let mut ctx = Some(PragCtx::new());
    let s = prag_ctx_contract(&mut ctx, true, Some(b"m"));
    assert_eq!((s.code, s.message), (PRAG_OK, None));
    assert_eq!(prag_ctx_is_replaying(ctx.as_ref(), true), 1);
    assert_eq!(prag_ctx_is_replaying(ctx.as_ref(), false), 0);
    assert_eq!(ctx.as_mut().unwrap().finish(Some(b"out"), None), Ok(Value::from("out")));
    let s = prag_ctx_contract(&mut ctx, false, Some(b"m"));
    assert_eq!(s.message.as_deref(), Some("ctx used outside its run"));
}

#[test]
fn clock_reads_report_their_fault() {
    let mut ctx = PragCtx::new();
    assert!(matches!(ctx.clock_call(Ok(9)), Ok(9)));
    match ctx.clock_call(Err(Fault::Timeout)) {
        Ok(_) => panic!("accepted"),
        Err(s) => assert_eq!((s.code, s.message.as_deref()), (3, Some("timeout"))),
    }
}

#[test]
fn run_ids_and_messages_are_checked() {
    assert!(matches!(prag_run_id(true, Some(b"r")), Ok(r) if r == "r"));
    match prag_run_id(false, Some(b"r")) {
        Ok(_) => panic!("accepted"),
        Err(s) => assert_eq!(
            (s.code, s.message.as_deref()),
            (PRAG_ERR_INVALID, Some("runtime is NULL"))
        ),
    }
    match prag_run_id(true, None) {
        Ok(_) => panic!("accepted"),
        Err(s) => assert_eq!(s.message.as_deref(), Some("run_id is NULL")),
    }
    assert_eq!(
        prag_message(true, Some(b"r"), Some(b"c"), Some(b"v")),
        Some(("r".into(), "c".into(), "v".into()))
    );
    assert_eq!(prag_message(true, Some(b"r"), None, Some(b"v")), None);
    assert_eq!(prag_message(false, Some(b"r"), Some(b"c"), Some(b"v")), None);
}

#[test]
fn statuses_of_runs_and_chains() {
    let (r, s) = prag_run_status(Some(Ok(report())));
    assert_eq!((s.code, s.message), (PRAG_OK, None));
    assert!(r.is_some());
    let (r, s) = prag_run_status(None);
    assert!(r.is_none());
    assert_eq!((s.code, s.message.as_deref()), (PRAG_ERR_PANIC, Some("runtime panicked")));

    let (c, s) = prag_verify_status(Ok(Ok(())));
    assert_eq!((c, s.code), (None, PRAG_OK));
    let (c, s) = prag_verify_status(Ok(Err(4)));
    assert_eq!((c, s.code), (Some(4), PRAG_ERR_TAMPERED));
    assert_eq!(s.message.as_deref(), Some("hash chain broken at cursor 4"));
    let (c, s) = prag_verify_status(Err(Fault::Io("x".into())));
    assert_eq!((c, s.code), (None, PRAG_ERR_IO));
}

#[test]
fn reports_are_read_across_the_boundary() {
    let p = PragReport { inner: report() };
    let r = Some(&p);
    assert_eq!(prag_report_output(r).as_deref(), Some("3 FINDINGS"));
    assert_eq!(prag_report_run_id(r).as_deref(), Some("r"));
    assert_eq!(prag_report_chain_head(r), Some(hex(&p.inner.chain_head.unwrap())));
    assert_eq!(prag_report_journal_len(r), 3);
    assert_eq!(prag_report_replayed_steps(r), 0);
    assert_eq!(prag_report_fresh_steps(r), 1);
    assert_eq!(prag_report_trace_len(r), 3);
    assert_eq!(prag_report_trace_kind(r, 0), PRAG_TRACE_ORACLE);
    assert_eq!(prag_report_trace_kind(r, 1), PRAG_TRACE_EFFECT);
    assert_eq!(prag_report_trace_kind(r, 2), PRAG_TRACE_DONE);
    assert_eq!(prag_report_trace_kind(r, 3), -1);
    assert_eq!(prag_report_trace_cursor(r, 0), 0);
    assert_eq!(prag_report_trace_cursor(r, 2), u64::MAX);
    assert_eq!(prag_report_trace_cursor(r, 3), u64::MAX);
    assert_eq!(
        prag_report_trace_summary(r, 1).as_deref(),
        Some("publish -> 3 FINDINGS")
    );
    assert_eq!(prag_report_trace_summary(r, 3), None);
    assert_eq!(prag_report_output(None), None);
    assert_eq!(prag_report_run_id(None), None);
    assert_eq!(prag_report_chain_head(None), None);
    assert_eq!(prag_report_journal_len(None), 0);
}

#[test]
fn reports_convert_to_plain_rows() {
    let r = report();
    let effect_cursor = prag_report_trace_cursor(Some(&PragReport { inner: r.clone() }), 1);
    let p = convert_report(r.clone());
    assert_eq!(p.run_id, "r");
    assert_eq!(p.output, "3 FINDINGS");
    assert_eq!(p.chain_head, Some(hex(&r.chain_head.unwrap())));
    assert_eq!(p.trace.len(), 3);
    assert_eq!(p.trace[0].1, "oracle");
    assert_eq!(
        p.trace[1],
        (effect_cursor, "effect".to_string(), "publish -> 3 FINDINGS".to_string())
    );
    assert_eq!(
        p.trace[2],
        (u64::MAX, "done".to_string(), "3 FINDINGS".to_string())
    );
}

#[test]
fn replies_of_python_callables() {
    assert_eq!(oracle_reply(Reply::Text("hi".into())), Ok(Value::from("hi")));
    assert_eq!(
        oracle_reply(Reply::Raised("E".into())),
        Err(Fault::OracleErr("python oracle raised: E".into()))
    );
    assert_eq!(
        effect_reply(Reply::NotText("E".into())),
        Err(Fault::ToolErr("python effect must return str: E".into()))
    );
    assert_eq!(
        agent_reply(Reply::Raised("E".into())),
        Err(Fault::ToolErr("python agent raised: E".into()))
    );
    assert_eq!(callable_provenance(Some("f")), "python:f");
    assert_eq!(callable_provenance(None), "python-oracle");
}
