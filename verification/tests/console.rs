use pragmatic::cli::{
    action, clip, describe_run, discover, event_kind, event_summary, output_file, parse_args,
    journal_files, parse_port, run_of_file, runs_heading, show, verify_run, Action, Args,
};
use pragmatic::event::Event;
use pragmatic::export::{esc, render, row};
use pragmatic::journal::{Journal, Loaded};
use pragmatic::serve::{
    health_response, index_page, respond, route, route_text, run_response, unknown_response,
    Listed, Route,
};
use pragmatic::sha256::hex;
use pragmatic::names::{file_name, read_name, run_name};

fn words(list: &[&str]) -> Vec<String> {
    list.iter().map(|s| s.to_string()).collect()
}

fn args(list: &[&str]) -> Args {
    parse_args(&words(list)).unwrap_or_else(|e| panic!("{e}"))
}

fn refused(list: &[&str]) -> String {
    match parse_args(&words(list)) {
        Ok(_) => panic!("accepted"),
        Err(e) => e,
    }
}

#[test]
fn arguments_are_read() {
    let a = args(&[
        "export", "run-1", "--dir", "j", "--key", "k", "-o", "f.html", "--port", "+80", "--all",
    ]);
    assert_eq!(a.command, "export");
    assert_eq!(a.positional, vec!["run-1"]);
    assert_eq!(a.dir, "j");
    assert_eq!(a.key.as_deref(), Some("k"));
    assert_eq!(a.out.as_deref(), Some("f.html"));
    assert_eq!(a.port, 80);
    assert!(a.all);

    let none = args(&[]);
    assert_eq!(none.command, "help");
    assert_eq!((none.dir.as_str(), none.port), (".", 7171));
    assert_eq!(args(&["runs", "-h"]).command, "help");
}

#[test]
fn bad_arguments_are_refused() {
    assert_eq!(refused(&["runs", "--dir"]), "--dir needs a value");
    assert_eq!(refused(&["runs", "--key"]), "--key needs a value");
    assert_eq!(refused(&["runs", "--out"]), "-o needs a value");
    assert_eq!(refused(&["runs", "--port"]), "--port needs a value");
    assert_eq!(refused(&["runs", "--port", "x"]), "--port must be a number");
    assert_eq!(refused(&["runs", "--what"]), "unknown flag --what");
}

#[test]
fn ports_fit_sixteen_bits() {
    assert_eq!(parse_port("0"), Some(0));
    assert_eq!(parse_port("65535"), Some(65535));
    assert_eq!(parse_port("65536"), None);
    assert_eq!(parse_port("00080"), Some(80));
    assert_eq!(parse_port(""), None);
    assert_eq!(parse_port("+"), None);
    assert_eq!(parse_port("-1"), None);
    assert_eq!(parse_port("99999999999999999999"), None);
}

#[test]
fn commands_become_actions() {
    assert!(matches!(action(&args(&["runs"])), Ok(Action::Runs)));
    assert!(matches!(action(&args(&["show", "r"])), Ok(Action::Show(r)) if r == "r"));
    assert!(matches!(action(&args(&["verify", "r"])), Ok(Action::Verify(Some(r))) if r == "r"));
    assert!(matches!(
        action(&args(&["verify", "--all"])),
        Ok(Action::Verify(None))
    ));
    assert!(matches!(action(&args(&["export", "r"])), Ok(Action::Export(r)) if r == "r"));
    assert!(matches!(action(&args(&["serve"])), Ok(Action::Serve)));
    assert!(matches!(action(&args(&["--help"])), Ok(Action::Help)));
    let refused = |list: &[&str]| match action(&args(list)) {
        Ok(_) => panic!("accepted"),
        Err(e) => e,
    };
    assert_eq!(refused(&["show"]), "usage: pragmatic show RUN");
    assert_eq!(
        refused(&["verify"]),
        "usage: pragmatic verify RUN (or --all)"
    );
    assert_eq!(
        refused(&["export"]),
        "usage: pragmatic export RUN [-o FILE]"
    );
    assert_eq!(
        refused(&["dance"]),
        "unknown command 'dance' (try: pragmatic help)"
    );
}

#[test]
fn an_export_is_named_after_its_run() {
    assert_eq!(output_file(&args(&["export", "r"]), "r"), "r.html");
    assert_eq!(output_file(&args(&["export", "r", "-o", "x"]), "r"), "x");
}

fn draw(p: &str, o: &str) -> Event {
    Event::OracleDraw {
        prompt: p.into(),
        outcome: o.into(),
        provenance: "test".into(),
    }
}

#[test]
fn events_are_summed_up_on_one_line() {
    assert_eq!(clip("a\nb", 10), "a b");
    assert_eq!(clip("abcdef", 3), "abc…");
    assert_eq!(clip("äöü", 3), "äöü");
    let e = draw("line one\nline two", "ok");
    assert_eq!(event_kind(&e), "oracle");
    assert_eq!(event_summary(&e, 8), "line one… ⟶ ok  (test)");
    assert_eq!(
        event_summary(
            &Event::Program {
                name: "f".into(),
                hash: "00".into()
            },
            9
        ),
        "f [00]"
    );
    assert_eq!(
        event_summary(
            &Event::ChannelRecv {
                channel: "c".into(),
                value: "v".into()
            },
            9
        ),
        "c ? v"
    );
    assert_eq!(
        event_summary(
            &Event::EffectIntent {
                name: "n".into(),
                arg: "a".into()
            },
            9
        ),
        "n(a)"
    );
    assert_eq!(
        event_summary(
            &Event::EffectCommit {
                name: "n".into(),
                result: "r".into()
            },
            9
        ),
        "n ⟶ r"
    );
    assert_eq!(
        event_summary(&Event::EffectCompensated { name: "n".into() }, 9),
        "n"
    );
    assert_eq!(event_summary(&Event::Clock { nanos: 12 }, 9), "12 ns");
}

fn sample() -> Journal {
    let mut j = Journal::in_memory();
    j.append(draw("<p>", "o"));
    j.append(Event::EffectIntent {
        name: "pay".into(),
        arg: "5".into(),
    });
    j
}

fn loaded(journal: Journal, torn_bytes: u64) -> Result<Loaded, String> {
    Ok(Loaded {
        journal,
        torn_bytes,
    })
}

#[test]
fn runs_are_listed_in_columns() {
    assert_eq!(
        runs_heading(),
        "RUN                           ENTRIES  CHAIN     HEAD"
    );
    let head = hex(&sample().head().unwrap())[..16].to_string();
    assert_eq!(
        describe_run("r", &loaded(sample(), 0)),
        format!("{:<28} {:>8}  {:<9} {head}", "r", 2, "verified")
    );
    assert_eq!(
        describe_run("r", &loaded(sample(), 7)),
        format!("{:<28} {:>8}  {:<9} {head}  (truncated 7 torn bytes)", "r", 2, "verified")
    );
    assert_eq!(
        describe_run("r", &loaded(Journal::in_memory(), 0)),
        format!("{:<28} {:>8}  {:<9} -", "r", 0, "verified")
    );
    assert_eq!(
        describe_run("r", &Err("gone".to_string())),
        format!("{:<28} {:>8}  {:<9} gone", "r", "-", "ERROR")
    );
}

#[test]
fn a_timeline_is_shown() {
    let j = sample();
    let head = hex(&j.head().unwrap());
    assert_eq!(
        show("r", &j),
        format!(
            "run      : r\nentries  : 2\nchain    : verified\nhead     : {head}\n\
             dangling : 1 effect intent(s) without commit - crashed mid-effect\n\n\
             {:>6}  {:<12} <p> ⟶ o  (test)\n{:>6}  {:<12} pay(5)\n",
            0, "oracle", 1, "intent"
        )
    );
    assert_eq!(
        show("r", &Journal::in_memory()),
        "run      : r\nentries  : 0\nchain    : verified\n\n"
    );
}

#[test]
fn a_broken_chain_is_reported() {
    let mut j = sample();
    j.tamper(1, draw("x", "y"));
    assert!(show("r", &j).contains("chain    : BROKEN at cursor 1\n"));
    assert_eq!(
        verify_run("r", &loaded(j, 0)),
        ("r: HASH CHAIN BROKEN at cursor 1".to_string(), false)
    );
    assert_eq!(
        verify_run("r", &loaded(sample(), 0)),
        ("r: verified (2 entries)".to_string(), true)
    );
    assert_eq!(
        verify_run("r", &Err("gone".to_string())),
        ("r: gone".to_string(), false)
    );
}

#[test]
fn journals_are_discovered_in_order() {
    let files = words(&["b.journal", "a.journal", "x.txt", ".journal", "b-1.journal"]);
    assert_eq!(discover(&files), vec!["a", "b", "b-1"]);
    assert_eq!(run_of_file("a.b.journal"), Some("a.b".to_string()));
    assert_eq!(run_of_file("journal"), None);
}

#[test]
fn file_names_are_safe() {
    assert_eq!(file_name("run-1A"), "run-1A.journal");
    assert_eq!(file_name("run_1"), "run_5f1.journal");
    assert_eq!(file_name("../a b"), "_2e_2e_2fa_20b.journal");
    assert_eq!(file_name("é"), "_c3_a9.journal");
    assert_eq!(file_name(""), ".journal");
}

#[test]
fn runs_do_not_share_a_file() {
    let ids = ["a/b", "a_b", "a_2fb", "a.b", "a b", "A_b", "a-b", "_", "__", "_5f"];
    for a in ids {
        for b in ids {
            assert_eq!(file_name(a) == file_name(b), a == b, "{a} {b}");
        }
        let file = file_name(a);
        let stem = run_of_file(&file).unwrap();
        assert_eq!(read_name(&stem), Some(a.to_string()));
        assert_eq!(run_name(&stem), a);
    }
}

#[test]
fn a_file_named_by_hand_is_called_by_its_stem() {
    for stem in ["a.b", "my_run", "a_2F", "_ff", "x_41"] {
        assert_eq!(read_name(stem), None, "{stem}");
        assert_eq!(run_name(stem), stem);
    }
    assert_eq!(
        journal_files("a/b"),
        ("a_2fb.journal".to_string(), "a/b.journal".to_string())
    );
}

#[test]
fn the_console_calls_a_run_by_its_id() {
    let runs = vec![Listed {
        run: "a_2fb".to_string(),
        journal: Ok(sample()),
    }];
    assert!(index_page(&runs, "d").contains("<a href=\"/run/a_2fb\">a/b</a>"));
    let missing = run_response("a_2fb", &Err("gone".to_string()));
    assert!(missing.ends_with("no such run 'a/b': gone"));
}

#[test]
fn html_is_escaped() {
    assert_eq!(esc("<a href=\"x\">&</a>"), "&lt;a href=&quot;x&quot;&gt;&amp;&lt;/a&gt;");
    let r = row(&draw("<p>", "o"));
    assert_eq!(r.kind, "oracle");
    assert_eq!(r.title, "oracle draw");
    assert!(r.body.contains("<pre>&lt;p&gt;</pre>"));
    assert_eq!(r.meta, "test");
}

#[test]
fn a_run_is_rendered() {
    let page = render("r&d", &sample());
    assert!(page.starts_with("<!doctype html>"));
    assert!(page.contains("<title>r&amp;d — pragmatic replay</title>"));
    assert!(page.contains("chain verified"));
    assert!(page.contains("1 dangling intent(s)"));
    assert!(page.contains(&hex(&sample().head().unwrap())));
    assert!(page.contains("#1</span>"));
    assert!(page.ends_with("</html>\n"));
}

#[test]
fn requests_are_routed() {
    assert!(matches!(
        route(b"GET /healthz HTTP/1.1\r\n\r\n"),
        Route::Health
    ));
    assert!(matches!(route(b"GET / HTTP/1.1\r\n"), Route::Index));
    assert!(matches!(route(b"GET\n/healthz"), Route::Index));
    assert!(matches!(route(b"\xff\xff"), Route::Index));
    assert!(matches!(
        route_text("GET /run/a-1_b/../../etc HTTP/1.1"),
        Route::Run(r) if r == "a-1_b"
    ));
    assert!(matches!(route_text("GET  /run/  x"), Route::Run(r) if r.is_empty()));
    assert!(matches!(route_text("GET /ru HTTP/1.1"), Route::Unknown));
    assert!(matches!(route_text("GET\u{3000}/nope"), Route::Unknown));
}

#[test]
fn responses_state_their_length_in_bytes() {
    assert_eq!(
        respond("200 OK", "text/plain", "é"),
        "HTTP/1.1 200 OK\r\ncontent-type: text/plain; charset=utf-8\r\n\
         content-length: 2\r\nconnection: close\r\n\r\né"
    );
    assert!(health_response().ends_with("\r\n\r\nok"));
    assert!(unknown_response().starts_with("HTTP/1.1 404 Not Found\r\n"));
}

#[test]
fn a_missing_run_is_not_found() {
    let gone = run_response("r", &Err("gone".to_string()));
    assert!(gone.starts_with("HTTP/1.1 404 Not Found\r\n"));
    assert!(gone.ends_with("no such run 'r': gone"));
    assert!(run_response("r", &Ok(sample())).ends_with(&render("r", &sample())));
}

#[test]
fn the_index_sums_up_all_runs() {
    let runs = vec![
        Listed {
            run: "a<b".to_string(),
            journal: Ok(sample()),
        },
        Listed {
            run: "c".to_string(),
            journal: Err("torn & gone".to_string()),
        },
    ];
    let page = index_page(&runs, "./j");
    let head = hex(&sample().head().unwrap())[..12].to_string();
    assert!(page.contains("<div><b>2</b> runs</div>"));
    assert!(page.contains("<div><b>2</b> journaled steps</div>"));
    assert!(page.contains("chains <b>1/2</b> verified"));
    assert!(page.contains("1 OPEN INTENT(S)"));
    assert!(page.contains("<div>dir <b>./j</b></div>"));
    assert!(page.contains(&format!(
        "<tr class=\"run\"><td class=\"name\"><a href=\"/run/a&lt;b\">a&lt;b</a></td>\
         <td class=\"r\">2</td><td class=\"r\">1</td><td>verified</td>\
         <td><span class=\"alarm\">1 open</span></td>\
         <td><span class=\"faint\">{head}</span></td></tr>\n"
    )));
    assert!(page.contains("<span class=\"alarm\">torn &amp; gone</span>"));

    let none = index_page(&Vec::new(), ".");
    assert!(none.contains("no journals in this directory"));
    assert!(!none.contains("OPEN INTENT"));
}
