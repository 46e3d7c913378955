use pragmatic::ctx::Ctx;
use pragmatic::durable::{durable, first_param_name, fnv1a, refusal, Delimiter, Token};
use pragmatic::event::Event;
use pragmatic::fault::Fault;
use pragmatic::oracle::SeededOracle;
use pragmatic::runtime::Runtime;
use pragmatic::value::Value;

fn ident(s: &str) -> Token {
    Token::Ident(s.to_string())
}

fn args() -> Token {
    Token::Group(
        Delimiter::Parenthesis,
        vec![
            ident("ctx"),
            Token::Punct(':'),
            Token::Punct('&'),
            ident("mut"),
            ident("Ctx"),
        ],
    )
}

fn body() -> Token {
    Token::Group(Delimiter::Brace, vec![])
}

fn tokens(name: &str) -> Vec<Token> {
    vec![ident("fn"), ident(name), args(), body()]
}

/// The hash that the attribute puts into the marker of a function.
fn hash_of(name: &str, source: &str) -> String {
    let plan = durable(true, &tokens(name), source).unwrap_or_else(|e| panic!("{e}"));
    let start = format!("ctx.program_marker(\"{name}\", \"");
    assert!(plan.marker.starts_with(&start), "{}", plan.marker);
    assert!(plan.marker.ends_with("\")?;"));
    plan.marker[start.len()..plan.marker.len() - 4].to_string()
}

const SOURCE: &str = "fn research(ctx: &mut Ctx) { execute: {plan} }";

const SOURCE_V2: &str = "fn research(ctx: &mut Ctx) { execute CAREFULLY: {plan} }";

fn research(ctx: &mut Ctx<SeededOracle>) -> Result<Value, Fault> {
    ctx.program_marker("research", &hash_of("research", SOURCE))?;
    let plan = ctx.oracle("plan the task")?;
    let step = ctx.oracle(format!("execute: {}", plan.as_str()))?;
    Ok(Value::from(format!("done: {}", step.as_str())))
}

// Same name, different body - a "deployed new version" of the agent.
fn research_v2(ctx: &mut Ctx<SeededOracle>) -> Result<Value, Fault> {
    ctx.program_marker("research", &hash_of("research", SOURCE_V2))?;
    let plan = ctx.oracle("plan the task")?;
    let step = ctx.oracle(format!("execute CAREFULLY: {}", plan.as_str()))?;
    Ok(Value::from(format!("done: {}", step.as_str())))
}

// Extra parameters after the ctx are fine.
fn parameterized(ctx: &mut Ctx<SeededOracle>, depth: u32) -> Result<Value, Fault> {
    ctx.program_marker("parameterized", &hash_of("parameterized", "fn parameterized"))?;
    let mut last = ctx.oracle("start")?;
    for i in 0..depth {
        last = ctx.oracle(format!("refine {i}: {}", last.as_str()))?;
    }
    Ok(last)
}

#[test]
fn program_identity_is_journaled_first() {
    let mut rt = Runtime::in_memory(SeededOracle::new(1));
    rt.run("r", research).unwrap();
    let entries = rt.journal("r").unwrap().entries();
    match &entries[0].event {
        Event::Program { name, hash } => {
            assert_eq!(name, "research");
            assert_eq!(hash.len(), 16);
        }
        other => panic!("first event should be Program, got {other:?}"),
    }
}

#[test]
fn replay_and_resume_verify_program_identity() {
    let mut rt = Runtime::in_memory(SeededOracle::new(2));
    let recorded = rt.run("r", research).unwrap();

    // Same code: replay is exact.
    let replayed = rt.replay("r", research).unwrap();
    assert_eq!(recorded.trace, replayed.trace);

    // Resume of a complete run: everything (marker included) replays.
    let resumed = rt.resume("r", research).unwrap();
    assert_eq!(resumed.output, recorded.output);
    assert_eq!(resumed.fresh_steps, 0);

    // Crash + resume: the marker and surviving draw replay from the journal;
    // only the lost tail is re-sampled (fresh outcome - the model is
    // nondeterministic, and that is fine: it is journaled going forward).
    rt.journal("r").unwrap().truncate(2);
    let resumed = rt.resume("r", research).unwrap();
    assert_eq!(
        resumed.replayed_steps, 2,
        "program marker + first draw replayed"
    );
    assert_eq!(resumed.fresh_steps, 1, "only the lost draw re-sampled");
    assert!(resumed.output.as_str().starts_with("done: "));
}

#[test]
fn changed_code_refuses_to_replay() {
    let mut rt = Runtime::in_memory(SeededOracle::new(3));
    rt.run("r", research).unwrap();

    // "Deploy v2", then try to replay the old journal under it.
    let err = rt.replay("r", research_v2).unwrap_err();
    match err {
        Fault::JournalDesync { cursor, found, .. } => {
            assert_eq!(cursor, 0, "identity is checked before any step");
            assert!(found.contains("changed since this journal was recorded"));
        }
        other => panic!("expected JournalDesync, got {other:?}"),
    }
}

#[test]
fn extra_parameters_work() {
    let mut rt = Runtime::in_memory(SeededOracle::new(4));
    let recorded = rt
        .run("p", |ctx: &mut Ctx<SeededOracle>| parameterized(ctx, 3))
        .unwrap();
    let replayed = rt
        .replay("p", |ctx: &mut Ctx<SeededOracle>| parameterized(ctx, 3))
        .unwrap();
    assert_eq!(recorded.trace, replayed.trace);
}

#[test]
fn fnv1a_known_answers() {
    assert_eq!(fnv1a(""), 0xcbf29ce484222325);
    assert_eq!(fnv1a("a"), 0xaf63dc4c8601ec8c);
    assert_eq!(fnv1a("foobar"), 0x85944171f73967e8);
}

#[test]
fn an_edit_of_one_byte_changes_the_hash() {
    assert_ne!(hash_of("f", "fn f() { 1 }"), hash_of("f", "fn f() { 2 }"));
}

#[test]
fn the_marker_is_exact() {
    let plan = durable(true, &tokens("f"), "fn f(ctx: &mut Ctx) {}").unwrap_or_else(|e| panic!("{e}"));
    assert_eq!(plan.body, 3);
    assert_eq!(
        plan.marker,
        format!(
            "ctx.program_marker(\"f\", \"{:016x}\")?;",
            fnv1a("fn f(ctx: &mut Ctx) {}")
        )
    );
}

#[test]
fn the_attribute_is_refused_where_it_makes_no_sense() {
    let refused = |no_attr: bool, tokens: Vec<Token>| match durable(no_attr, &tokens, "") {
        Ok(_) => panic!("accepted"),
        Err(e) => e,
    };
    assert_eq!(
        refused(false, tokens("f")),
        "#[pragmatic::durable] takes no arguments"
    );
    assert_eq!(
        refused(true, vec![ident("struct"), ident("S"), body()]),
        "#[pragmatic::durable] must be applied to a function"
    );
    let empty = Token::Group(Delimiter::Parenthesis, vec![]);
    assert_eq!(
        refused(true, vec![ident("fn"), ident("f"), empty, body()]),
        "#[pragmatic::durable] requires the first parameter to be the `&mut Ctx`"
    );
    assert_eq!(
        refused(true, vec![ident("fn"), ident("f"), args(), Token::Punct(';')]),
        "#[pragmatic::durable] requires a function with a body"
    );
    assert_eq!(refusal("no \"x\""), "compile_error!(\"no \\\"x\\\"\");");
}

#[test]
fn the_first_parameter_may_be_mutable() {
    let list = vec![
        ident("mut"),
        ident("c"),
        Token::Punct(':'),
        ident("Ctx"),
        Token::Punct(','),
        ident("d"),
        Token::Punct(':'),
        ident("u32"),
    ];
    assert_eq!(first_param_name(&list), Some("c".to_string()));
    assert_eq!(first_param_name(&vec![ident("self")]), None);
}

fn durable_name(before: Vec<Token>, between: Vec<Token>) -> String {
    let mut all = before;
    all.extend([ident("fn"), ident("research")]);
    all.extend(between);
    all.extend([args(), Token::Punct('-'), Token::Punct('>'), ident("Value"), body()]);
    let last = all.len() - 1;
    let plan = durable(true, &all, SOURCE).unwrap_or_else(|e| panic!("{e}"));
    assert_eq!(plan.body, last);
    plan.marker
}

#[test]
fn a_visibility_in_brackets_is_no_argument_list() {
    let marker = format!("ctx.program_marker(\"research\", \"{:016x}\")?;", fnv1a(SOURCE));
    let parens = |list: Vec<Token>| Token::Group(Delimiter::Parenthesis, list);
    let path = vec![ident("in"), ident("crate"), Token::Punct(':'), Token::Punct(':'), ident("m")];
    for list in [vec![ident("crate")], vec![ident("super")], path] {
        assert_eq!(durable_name(vec![ident("pub"), parens(list)], vec![]), marker);
    }
    assert_eq!(durable_name(vec![ident("pub")], vec![]), marker);
    assert_eq!(durable_name(vec![], vec![]), marker);
}

#[test]
fn a_bound_in_angle_brackets_is_no_argument_list() {
    // fn research<F: Fn(u32) -> Vec<u32>>(ctx: &mut Ctx)
    let parens = Token::Group(Delimiter::Parenthesis, vec![ident("u32")]);
    let bound = vec![
        Token::Punct('<'),
        ident("F"),
        Token::Punct(':'),
        ident("Fn"),
        parens,
        Token::Punct('-'),
        Token::Punct('>'),
        ident("Vec"),
        Token::Punct('<'),
        ident("u32"),
        Token::Punct('>'),
        Token::Punct('>'),
    ];
    let marker = format!("ctx.program_marker(\"research\", \"{:016x}\")?;", fnv1a(SOURCE));
    assert_eq!(durable_name(vec![], bound), marker);
}
