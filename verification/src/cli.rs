//! The `pragmatic` command line: what its arguments mean and what it prints.
//!
//! Reading files and writing to the terminal are left to the program.
use vstd::prelude::*;

use crate::event::{Event, EventView};
use crate::export;
use crate::journal;
use crate::journal::{EntryView, Journal, JournalView, Loaded};
use crate::memory;
use crate::names;
use crate::sha256;
use crate::text;

verus! {

/// The parsed command line.
pub struct Args {
    pub command: String,
    pub positional: Vec<String>,
    pub dir: String,
    pub key: Option<String>,
    pub out: Option<String>,
    pub all: bool,
    pub port: u16,
}

/// What an [`Args`] says.
#[verifier::ext_equal]
pub struct ArgsView {
    pub command: Seq<char>,
    pub positional: Seq<Seq<char>>,
    pub dir: Seq<char>,
    pub key: Option<Seq<char>>,
    pub out: Option<Seq<char>>,
    pub all: bool,
    pub port: u16,
}

/// The texts of a list.
pub open spec fn texts(list: Seq<String>) -> Seq<Seq<char>> {
    list.map_values(|s: String| s@)
}

/// The text of an option.
pub open spec fn opt_text(s: Option<String>) -> Option<Seq<char>> {
    match s {
        Some(t) => Some(t@),
        None => None,
    }
}

impl View for Args {
    type V = ArgsView;

    open spec fn view(&self) -> ArgsView {
        ArgsView {
            command: self.command@,
            positional: texts(self.positional@),
            dir: self.dir@,
            key: opt_text(self.key),
            out: opt_text(self.out),
            all: self.all,
            port: self.port,
        }
    }
}

/// Is the character a decimal digit?
pub open spec fn is_digit(c: char) -> bool {
    '0' <= c && c <= '9'
}

/// The number that a string of digits stands for.
pub open spec fn number_of(s: Seq<char>) -> nat
    decreases s.len(),
{
    if s.len() == 0 {
        0
    } else {
        10 * number_of(s.drop_last()) + (s.last() as nat - '0' as nat) as nat
    }
}

/// `s` without a plus sign at its start.
pub open spec fn unsigned(s: Seq<char>) -> Seq<char> {
    if s.len() > 0 && s[0] == '+' {
        s.skip(1)
    } else {
        s
    }
}

/// The port number that `s` stands for: digits, optionally after a plus sign,
/// of a value below 65536.
pub open spec fn port_of(s: Seq<char>) -> Option<u16> {
    let d = unsigned(s);
    if d.len() > 0 && (forall|i: int| 0 <= i < d.len() ==> is_digit(#[trigger] d[i])) && number_of(
        d,
    ) <= u16::MAX {
        Some(number_of(d) as u16)
    } else {
        None
    }
}

proof fn lemma_number_grows(s: Seq<char>, n: int)
    requires
        0 <= n <= s.len(),
        forall|i: int| 0 <= i < s.len() ==> is_digit(#[trigger] s[i]),
    ensures
        number_of(s.take(n)) <= number_of(s),
    decreases s.len() - n,
{
    if n == s.len() {
        assert(s.take(n) =~= s);
    } else {
        lemma_number_grows(s, n + 1);
        assert(s.take(n + 1).drop_last() =~= s.take(n));
        assert(s.take(n + 1).last() == s[n]);
    }
}

/// Parses a port number.
pub fn parse_port(s: &str) -> (r: Option<u16>)
    ensures
        r == port_of(s@),
{
    let len: usize = s.unicode_len();
    let start: usize = if len > 0 && s.get_char(0) == '+' {
        1
    } else {
        0
    };
    let ghost d = unsigned(s@);
    if len == start {
        return None;
    }
    let mut n: u32 = 0;
    let mut i: usize = start;
    assert(d.take(0) =~= Seq::empty());
    assert(d =~= s@.skip(start as int));
    while i < len
        invariant
            start <= i <= len,
            len == s@.len(),
            d == s@.skip(start as int),
            d == unsigned(s@),
            n <= 65535,
            n == number_of(d.take(i - start)),
            forall|k: int| 0 <= k < i - start ==> is_digit(#[trigger] d[k]),
        decreases len - i,
    {
        let c = s.get_char(i);
        assert(d[i - start] == c);
        if c < '0' || c > '9' {
            return None;
        }
        proof {
            assert(d.take(i - start + 1).drop_last() =~= d.take(i - start));
            assert(d.take(i - start + 1).last() == c);
        }
        n = n * 10 + (c as u32 - '0' as u32);
        i += 1;
        if n > 65535 {
            proof {
                if forall|k: int| 0 <= k < d.len() ==> is_digit(#[trigger] d[k]) {
                    lemma_number_grows(d, i - start);
                }
            }
            return None;
        }
    }
    assert(d.take(d.len() as int) =~= d);
    Some(n as u16)
}

/// Reads the arguments after the command into `a`.
pub open spec fn read_args(argv: Seq<Seq<char>>, a: ArgsView) -> Result<ArgsView, Seq<char>>
    decreases argv.len(),
{
    if argv.len() == 0 {
        Ok(a)
    } else {
        let word = argv[0];
        let rest = argv.skip(1);
        let value = rest[0];
        if word == "--dir"@ {
            if rest.len() == 0 {
                Err("--dir needs a value"@)
            } else {
                read_args(rest.skip(1), ArgsView { dir: value, ..a })
            }
        } else if word == "--key"@ {
            if rest.len() == 0 {
                Err("--key needs a value"@)
            } else {
                read_args(rest.skip(1), ArgsView { key: Some(value), ..a })
            }
        } else if word == "-o"@ || word == "--out"@ {
            if rest.len() == 0 {
                Err("-o needs a value"@)
            } else {
                read_args(rest.skip(1), ArgsView { out: Some(value), ..a })
            }
        } else if word == "--all"@ {
            read_args(rest, ArgsView { all: true, ..a })
        } else if word == "--port"@ {
            if rest.len() == 0 {
                Err("--port needs a value"@)
            } else {
                match port_of(value) {
                    None => Err("--port must be a number"@),
                    Some(port) => read_args(rest.skip(1), ArgsView { port, ..a }),
                }
            }
        } else if word == "-h"@ || word == "--help"@ {
            read_args(rest, ArgsView { command: "help"@, ..a })
        } else if word.len() > 0 && word[0] == '-' {
            Err("unknown flag "@ + word)
        } else {
            read_args(rest, ArgsView { positional: a.positional.push(word), ..a })
        }
    }
}

/// What the arguments after the program's name say.
pub open spec fn args_of(argv: Seq<Seq<char>>) -> Result<ArgsView, Seq<char>> {
    let start = ArgsView {
        command: if argv.len() == 0 {
            "help"@
        } else {
            argv[0]
        },
        positional: Seq::empty(),
        dir: "."@,
        key: None,
        out: None,
        all: false,
        port: 7171,
    };
    if argv.len() == 0 {
        Ok(start)
    } else {
        read_args(argv.skip(1), start)
    }
}

/// Parses the arguments after the program's name.
pub fn parse_args(argv: &Vec<String>) -> (r: Result<Args, String>)
    ensures
        match r {
            Ok(a) => args_of(texts(argv@)) == Ok::<ArgsView, Seq<char>>(a@),
            Err(e) => args_of(texts(argv@)) == Err::<ArgsView, Seq<char>>(e@),
        },
{
    let ghost all = texts(argv@);
    let mut args = Args {
        command: if argv.len() == 0 {
            "help".to_owned()
        } else {
            argv[0].clone()
        },
        positional: Vec::new(),
        dir: ".".to_owned(),
        key: None,
        out: None,
        all: false,
        port: 7171,
    };
    assert(texts(args.positional@) =~= Seq::empty());
    if argv.len() == 0 {
        return Ok(args);
    }
    let mut i: usize = 1;
    while i < argv.len()
        invariant
            1 <= i <= argv@.len(),
            all == texts(argv@),
            args_of(all) == read_args(all.skip(i as int), args@),
        decreases argv@.len() - i,
    {
        let word = argv[i].as_str();
        let ghost rest = all.skip(i as int);
        let ghost was = args@;
        proof {
            assert(rest[0] == word@);
            assert(rest.skip(1) =~= all.skip(i + 1));
            if i + 1 < argv.len() {
                assert(rest.skip(1)[0] == all[i + 1]);
                assert(rest.skip(1).skip(1) =~= all.skip(i + 2));
            }
        }
        let has_value: bool = i + 1 < argv.len();
        if text::same_text(word, "--dir") {
            if !has_value {
                return Err("--dir needs a value".to_owned());
            }
            args.dir = argv[i + 1].clone();
            i += 2;
        } else if text::same_text(word, "--key") {
            if !has_value {
                return Err("--key needs a value".to_owned());
            }
            args.key = Some(argv[i + 1].clone());
            i += 2;
        } else if text::same_text(word, "-o") || text::same_text(word, "--out") {
            if !has_value {
                return Err("-o needs a value".to_owned());
            }
            args.out = Some(argv[i + 1].clone());
            i += 2;
        } else if text::same_text(word, "--all") {
            args.all = true;
            i += 1;
        } else if text::same_text(word, "--port") {
            if !has_value {
                return Err("--port needs a value".to_owned());
            }
            match parse_port(argv[i + 1].as_str()) {
                None => {
                    return Err("--port must be a number".to_owned());
                },
                Some(p) => {
                    args.port = p;
                },
            }
            i += 2;
        } else if text::same_text(word, "-h") || text::same_text(word, "--help") {
            args.command = "help".to_owned();
            i += 1;
        } else if !word.is_empty() && word.get_char(0) == '-' {
            return Err("unknown flag ".to_owned().concat(word));
        } else {
            args.positional.push(word.to_owned());
            assert(texts(args.positional@) =~= was.positional.push(word@));
            i += 1;
        }
    }
    assert(all.skip(argv@.len() as int) =~= Seq::empty());
    Ok(args)
}

/// What the program is asked to do.
pub enum Action {
    Runs,
    Show(String),
    /// Verify one run, or all.
    Verify(Option<String>),
    Export(String),
    Serve,
    Help,
}

/// What an [`Action`] says.
pub enum ActionView {
    Runs,
    Show(Seq<char>),
    Verify(Option<Seq<char>>),
    Export(Seq<char>),
    Serve,
    Help,
}

impl View for Action {
    type V = ActionView;

    open spec fn view(&self) -> ActionView {
        match self {
            Action::Runs => ActionView::Runs,
            Action::Show(run) => ActionView::Show(run@),
            Action::Verify(run) => ActionView::Verify(opt_text(*run)),
            Action::Export(run) => ActionView::Export(run@),
            Action::Serve => ActionView::Serve,
            Action::Help => ActionView::Help,
        }
    }
}

/// What the arguments ask for.
pub open spec fn action_of(a: ArgsView) -> Result<ActionView, Seq<char>> {
    if a.command == "runs"@ {
        Ok(ActionView::Runs)
    } else if a.command == "show"@ {
        if a.positional.len() > 0 {
            Ok(ActionView::Show(a.positional[0]))
        } else {
            Err("usage: pragmatic show RUN"@)
        }
    } else if a.command == "verify"@ {
        if a.all {
            Ok(ActionView::Verify(None))
        } else if a.positional.len() > 0 {
            Ok(ActionView::Verify(Some(a.positional[0])))
        } else {
            Err("usage: pragmatic verify RUN (or --all)"@)
        }
    } else if a.command == "export"@ {
        if a.positional.len() > 0 {
            Ok(ActionView::Export(a.positional[0]))
        } else {
            Err("usage: pragmatic export RUN [-o FILE]"@)
        }
    } else if a.command == "serve"@ {
        Ok(ActionView::Serve)
    } else if a.command == "help"@ || a.command == "--help"@ || a.command == "-h"@ {
        Ok(ActionView::Help)
    } else {
        Err("unknown command '"@ + a.command + "' (try: pragmatic help)"@)
    }
}

/// Decides what the arguments ask for.
pub fn action(args: &Args) -> (r: Result<Action, String>)
    ensures
        match r {
            Ok(a) => action_of(args@) == Ok::<ActionView, Seq<char>>(a@),
            Err(e) => action_of(args@) == Err::<ActionView, Seq<char>>(e@),
        },
{
    let command = args.command.as_str();
    assert(args.positional@.len() > 0 ==> args@.positional[0] == args.positional@[0]@);
    if text::same_text(command, "runs") {
        Ok(Action::Runs)
    } else if text::same_text(command, "show") {
        if args.positional.len() > 0 {
            Ok(Action::Show(args.positional[0].clone()))
        } else {
            Err("usage: pragmatic show RUN".to_owned())
        }
    } else if text::same_text(command, "verify") {
        if args.all {
            Ok(Action::Verify(None))
        } else if args.positional.len() > 0 {
            Ok(Action::Verify(Some(args.positional[0].clone())))
        } else {
            Err("usage: pragmatic verify RUN (or --all)".to_owned())
        }
    } else if text::same_text(command, "export") {
        if args.positional.len() > 0 {
            Ok(Action::Export(args.positional[0].clone()))
        } else {
            Err("usage: pragmatic export RUN [-o FILE]".to_owned())
        }
    } else if text::same_text(command, "serve") {
        Ok(Action::Serve)
    } else if text::same_text(command, "help") || text::same_text(command, "--help")
        || text::same_text(command, "-h") {
        Ok(Action::Help)
    } else {
        Err("unknown command '".to_owned().concat(command).concat("' (try: pragmatic help)"))
    }
}

/// What `pragmatic help` prints.
pub const HELP: &'static str = "pragmatic - journal tooling for the Pragmatic durable-execution runtime

USAGE:
    pragmatic runs   [--dir DIR] [--key KEY]
    pragmatic show   RUN [--dir DIR] [--key KEY]
    pragmatic verify RUN|--all [--dir DIR] [--key KEY]
    pragmatic export RUN [--dir DIR] [--key KEY] [-o FILE]
    pragmatic serve  [--dir DIR] [--key KEY] [--port PORT]

COMMANDS:
    runs      List every run journaled under DIR (default: .)
    show      Print a run's full event timeline
    verify    Walk the tamper-evident hash chain end to end
    export    Write a self-contained HTML replay console for a run
    serve     Live web console on http://127.0.0.1:PORT (default 7171)

OPTIONS:
    --dir DIR    Journal directory (default: current directory)
    --key KEY    HMAC key for keyed (signed) journals
    -o FILE      Output path for export (default: RUN.html)
    --port PORT  Port for serve (loopback only; default 7171)";

/// The file that `pragmatic export` writes: the one asked for, or one named
/// after the run.
pub fn output_file(args: &Args, run: &str) -> (r: String)
    ensures
        r@ == (match args.out {
            Some(f) => f@,
            None => run@ + ".html"@,
        }),
{
    match &args.out {
        Some(f) => f.clone(),
        None => run.to_owned().concat(".html"),
    }
}

/// The kind of an event.
pub open spec fn kind_of(e: EventView) -> Seq<char> {
    match e {
        EventView::Program { .. } => "program"@,
        EventView::OracleDraw { .. } => "oracle"@,
        EventView::ChannelRecv { .. } => "recv"@,
        EventView::EffectIntent { .. } => "intent"@,
        EventView::EffectCommit { .. } => "commit"@,
        EventView::EffectCompensated { .. } => "compensated"@,
        EventView::Clock { .. } => "clock"@,
    }
}

/// The kind of an event.
pub fn event_kind(e: &Event) -> (r: &'static str)
    ensures
        r@ == kind_of(e@),
{
    match e {
        Event::Program { .. } => "program",
        Event::OracleDraw { .. } => "oracle",
        Event::ChannelRecv { .. } => "recv",
        Event::EffectIntent { .. } => "intent",
        Event::EffectCommit { .. } => "commit",
        Event::EffectCompensated { .. } => "compensated",
        Event::Clock { .. } => "clock",
    }
}

/// `s` on one line: newlines become spaces.
pub open spec fn one_line(s: Seq<char>) -> Seq<char> {
    s.map_values(
        |c: char|
            if c == '\n' {
                ' '
            } else {
                c
            },
    )
}

/// `s` on one line, cut after `width` characters.
pub open spec fn clipped(s: Seq<char>, width: nat) -> Seq<char> {
    if s.len() > width {
        one_line(s).take(width as int) + "…"@
    } else {
        one_line(s)
    }
}

/// `s` on one line, cut after `width` characters.
pub fn clip(s: &str, width: usize) -> (r: String)
    ensures
        r@ == clipped(s@, width as nat),
{
    let mut out = String::new();
    assert(one_line(s@.take(0)) =~= out@);
    for c in it: s.chars()
        invariant
            it.seq() == s@,
            out@ == one_line(s@.take(it.index() as int)),
    {
        let ghost k = it.index() as int;
        assert(s@[k] == c);
        if c == '\n' {
            out.push(' ');
        } else {
            out.push(c);
        }
        assert(out@ =~= one_line(s@.take(k + 1)));
    }
    assert(s@.take(s@.len() as int) =~= s@);
    if out.as_str().unicode_len() > width {
        let head = out.as_str().substring_char(0, width);
        assert(head@ =~= out@.take(width as int));
        head.to_owned().concat("…")
    } else {
        out
    }
}

/// The text of a value, clipped.
pub open spec fn clipped_value(v: Seq<u8>, width: nat) -> Seq<char> {
    clipped(text::lossy_text(v), width)
}

/// An event on one line.
pub open spec fn summary_of(e: EventView, width: nat) -> Seq<char> {
    match e {
        EventView::Program { name, hash } => name + " ["@ + hash + "]"@,
        EventView::OracleDraw { prompt, outcome, provenance } => clipped_value(prompt, width)
            + " ⟶ "@ + clipped_value(outcome, width) + "  ("@ + provenance + ")"@,
        EventView::ChannelRecv { channel, value } => channel + " ? "@ + clipped_value(value, width),
        EventView::EffectIntent { name, arg } => name + "("@ + clipped_value(arg, width) + ")"@,
        EventView::EffectCommit { name, result } => name + " ⟶ "@ + clipped_value(result, width),
        EventView::EffectCompensated { name } => name,
        EventView::Clock { nanos } => text::decimal(nanos as nat) + " ns"@,
    }
}

/// An event on one line, with values cut after `width` characters.
pub fn event_summary(e: &Event, width: usize) -> (r: String)
    ensures
        r@ == summary_of(e@, width as nat),
{
    match e {
        Event::Program { name, hash } => name.clone().concat(" [").concat(hash.as_str()).concat(
            "]",
        ),
        Event::OracleDraw { prompt, outcome, provenance } => clip(
            prompt.as_str().as_str(),
            width,
        ).concat(" ⟶ ").concat(clip(outcome.as_str().as_str(), width).as_str()).concat(
            "  (",
        ).concat(provenance.as_str()).concat(")"),
        Event::ChannelRecv { channel, value } => channel.clone().concat(" ? ").concat(
            clip(value.as_str().as_str(), width).as_str(),
        ),
        Event::EffectIntent { name, arg } => name.clone().concat("(").concat(
            clip(arg.as_str().as_str(), width).as_str(),
        ).concat(")"),
        Event::EffectCommit { name, result } => name.clone().concat(" ⟶ ").concat(
            clip(result.as_str().as_str(), width).as_str(),
        ),
        Event::EffectCompensated { name } => name.clone(),
        Event::Clock { nanos } => text::decimal_text(*nanos).concat(" ns"),
    }
}

/// What the command says of a chain.
pub open spec fn chain_word(intact: bool) -> Seq<char> {
    if intact {
        "verified"@
    } else {
        "BROKEN"@
    }
}

/// The first `n` digits of the head of the chain; a dash for an empty journal.
pub open spec fn short_head(j: JournalView, n: nat) -> Seq<char> {
    if j.entries.len() == 0 {
        "-"@
    } else {
        sha256::hex_spec(j.entries.last().hash).take(n as int)
    }
}

/// The first `n` digits of the head of the chain; a dash for an empty journal.
pub fn head_digits(j: &Journal, n: usize) -> (r: String)
    requires
        n <= 64,
    ensures
        r@ == short_head(j@, n as nat),
{
    match j.head() {
        Some(h) => export::hex_prefix(&h, n),
        None => "-".to_owned(),
    }
}

/// The line of `pragmatic runs` for one run.
pub open spec fn run_line(
    run: Seq<char>,
    count: Seq<char>,
    chain: Seq<char>,
    rest: Seq<char>,
) -> Seq<char> {
    text::left_aligned(run, 28) + " "@ + text::right_aligned(count, 8) + "  "@
        + text::left_aligned(chain, 9) + " "@ + rest
}

fn format_run_line(run: &str, count: &str, chain: &str, rest: &str) -> (r: String)
    ensures
        r@ == run_line(run@, count@, chain@, rest@),
{
    text::align_left(run, 28).concat(" ").concat(text::align_right(count, 8).as_str()).concat(
        "  ",
    ).concat(text::align_left(chain, 9).as_str()).concat(" ").concat(rest)
}

/// The heading of `pragmatic runs`.
pub fn runs_heading() -> (r: String)
    ensures
        r@ == run_line("RUN"@, "ENTRIES"@, "CHAIN"@, "HEAD"@),
{
    format_run_line("RUN", "ENTRIES", "CHAIN", "HEAD")
}

/// What is said of a torn tail.
pub open spec fn torn_note(torn: nat) -> Seq<char> {
    if torn > 0 {
        "  (truncated "@ + text::decimal(torn) + " torn bytes)"@
    } else {
        Seq::empty()
    }
}

/// The line of `pragmatic runs` for a run: its journal, or why it cannot be
/// opened.
pub fn describe_run(run: &str, loaded: &Result<Loaded, String>) -> (r: String)
    ensures
        r@ == (match loaded {
            Ok(l) => run_line(
                run@,
                text::decimal(l.journal@.entries.len()),
                chain_word(l.journal@.intact()),
                short_head(l.journal@, 16) + torn_note(l.torn_bytes as nat),
            ),
            Err(e) => run_line(run@, "-"@, "ERROR"@, e@),
        }),
{
    match loaded {
        Err(e) => format_run_line(run, "-", "ERROR", e.as_str()),
        Ok(l) => {
            let chain = if export::is_intact(&l.journal) {
                "verified"
            } else {
                "BROKEN"
            };
            let torn = if l.torn_bytes > 0 {
                "  (truncated ".to_owned().concat(
                    text::decimal_text(l.torn_bytes).as_str(),
                ).concat(" torn bytes)")
            } else {
                String::new()
            };
            let rest = head_digits(&l.journal, 16).concat(torn.as_str());
            format_run_line(
                run,
                text::decimal_text(l.journal.len()).as_str(),
                chain,
                rest.as_str(),
            )
        },
    }
}

/// What `pragmatic show` says of a chain.
pub open spec fn chain_status(j: JournalView, c: nat) -> Seq<char> {
    if j.intact() {
        "verified"@
    } else {
        "BROKEN at cursor "@ + text::decimal(c)
    }
}

/// Is `c` the first cursor whose link does not hold?
pub open spec fn first_broken(j: JournalView, c: nat) -> bool {
    &&& c < j.entries.len()
    &&& !journal::link_holds(j.key, j.entries, c as int)
    &&& forall|i: int| 0 <= i < c ==> #[trigger] journal::link_holds(j.key, j.entries, i)
}

/// The timeline of a run, one line per entry.
pub open spec fn timeline(entries: Seq<EntryView>) -> Seq<char>
    decreases entries.len(),
{
    if entries.len() == 0 {
        Seq::empty()
    } else {
        let n = (entries.len() - 1) as nat;
        let e = entries.last().event;
        timeline(entries.drop_last()) + (text::right_aligned(text::decimal(n), 6) + "  "@
            + text::left_aligned(kind_of(e), 12) + " "@ + summary_of(e, 100) + "\n"@)
    }
}

/// What `pragmatic show` prints, if `c` is the first broken cursor of a broken
/// chain.
pub open spec fn show_text(run: Seq<char>, j: JournalView, c: nat) -> Seq<char> {
    let head = if j.entries.len() == 0 {
        Seq::empty()
    } else {
        "head     : "@ + sha256::hex_spec(j.entries.last().hash) + "\n"@
    };
    let n = journal::open_intents(j.events()).len();
    let dangling = if n == 0 {
        Seq::empty()
    } else {
        "dangling : "@ + text::decimal(n)
            + " effect intent(s) without commit - crashed mid-effect\n"@
    };
    "run      : "@ + run + "\nentries  : "@ + text::decimal(j.entries.len()) + "\nchain    : "@
        + chain_status(j, c) + "\n"@ + head + dangling + "\n"@ + timeline(j.entries)
}

/// What `pragmatic show` prints.
pub fn show(run: &str, j: &Journal) -> (r: String)
    ensures
        exists|c: nat|
            (j@.intact() || first_broken(j@, c)) && r@ == #[trigger] show_text(run@, j@, c),
{
    let ghost mut broken: nat = 0;
    let chain = match j.verify() {
        Ok(()) => "verified".to_owned(),
        Err(c) => {
            proof {
                broken = c as nat;
                assert(first_broken(j@, broken));
                assert(!journal::link_holds(j@.key, j@.entries, c as int));
            }
            "BROKEN at cursor ".to_owned().concat(text::decimal_text(c).as_str())
        },
    };
    assert(chain@ == chain_status(j@, broken));
    let head = match j.head() {
        Some(h) => "head     : ".to_owned().concat(sha256::hex(&h).as_str()).concat("\n"),
        None => String::new(),
    };
    let n: usize = j.dangling_intents().len();
    let dangling = if n > 0 {
        "dangling : ".to_owned().concat(text::decimal_text(n as u64).as_str()).concat(
            " effect intent(s) without commit - crashed mid-effect\n",
        )
    } else {
        String::new()
    };
    let lines = show_timeline(j);
    let out = "run      : ".to_owned().concat(run).concat("\nentries  : ").concat(
        text::decimal_text(j.len()).as_str(),
    ).concat("\nchain    : ").concat(chain.as_str()).concat("\n").concat(head.as_str()).concat(
        dangling.as_str(),
    ).concat("\n").concat(lines.as_str());
    assert(out@ == show_text(run@, j@, broken));
    out
}

fn show_timeline(j: &Journal) -> (r: String)
    ensures
        r@ == timeline(j@.entries),
{
    let list = j.entries();
    let ghost all = j@.entries;
    let mut out = String::new();
    assert(all.take(0) =~= Seq::empty());
    let mut i: usize = 0;
    while i < list.len()
        invariant
            i <= list@.len(),
            all == journal::entry_views(list@),
            forall|k: int| 0 <= k < list@.len() ==> (#[trigger] list@[k]).cursor == k,
            out@ == timeline(all.take(i as int)),
        decreases list@.len() - i,
    {
        let e = &list[i];
        proof {
            assert(all.take(i + 1).drop_last() =~= all.take(i as int));
            assert(all.take(i + 1).last() == e@);
        }
        let line = text::align_right(text::decimal_text(e.cursor).as_str(), 6).concat("  ").concat(
            text::align_left(event_kind(&e.event), 12).as_str(),
        ).concat(" ").concat(event_summary(&e.event, 100).as_str()).concat("\n");
        out.append(line.as_str());
        i += 1;
    }
    assert(all.take(all.len() as int) =~= all);
    out
}

/// The line of `pragmatic verify` for a run, and whether it passed.
pub fn verify_run(run: &str, loaded: &Result<Loaded, String>) -> (r: (String, bool))
    ensures
        match loaded {
            Err(e) => r.0@ == run@ + ": "@ + e@ && !r.1,
            Ok(l) => r.1 == l.journal@.intact() && (if r.1 {
                r.0@ == run@ + ": verified ("@ + text::decimal(l.journal@.entries.len())
                    + " entries)"@
            } else {
                exists|c: nat| #[trigger]
                    first_broken(l.journal@, c) && r.0@ == run@
                        + ": HASH CHAIN BROKEN at cursor "@ + text::decimal(c)
            }),
        },
{
    match loaded {
        Err(e) => (run.to_owned().concat(": ").concat(e.as_str()), false),
        Ok(l) => match l.journal.verify() {
            Ok(()) => (
                run.to_owned().concat(": verified (").concat(
                    text::decimal_text(l.journal.len()).as_str(),
                ).concat(" entries)"),
                true,
            ),
            Err(c) => {
                proof {
                    assert(first_broken(l.journal@, c as nat));
                    assert(!journal::link_holds(l.journal@.key, l.journal@.entries, c as int));
                }
                (
                    run.to_owned().concat(": HASH CHAIN BROKEN at cursor ").concat(
                        text::decimal_text(c).as_str(),
                    ),
                    false,
                )
            },
        },
    }
}

/// The run whose journal a file holds, as the file's name writes it.
pub open spec fn run_of(file: Seq<char>) -> Option<Seq<char>> {
    let ext = ".journal"@;
    if file.len() > ext.len() && file.skip(file.len() - ext.len()) == ext {
        Some(file.take(file.len() - ext.len()))
    } else {
        None
    }
}

/// The run whose journal a file holds, as the file's name writes it.
pub fn run_of_file(file: &str) -> (r: Option<String>)
    ensures
        opt_text(r) == run_of(file@),
{
    let ext = ".journal";
    let n: usize = file.unicode_len();
    let k: usize = ext.unicode_len();
    if n <= k {
        return None;
    }
    let tail = file.substring_char(n - k, n);
    assert(tail@ =~= file@.skip(file@.len() - ext@.len()));
    if text::same_text(tail, ext) {
        let stem = file.substring_char(0, n - k);
        assert(stem@ =~= file@.take(file@.len() - ext@.len()));
        Some(stem.to_owned())
    } else {
        None
    }
}

/// The files that may hold the journal of the run that a command names: the
/// file of that run, and, for a file that was named by hand, the file with
/// that stem.
pub fn journal_files(run: &str) -> (r: (String, String))
    ensures
        r.0@ == names::safe_name(run@) + ".journal"@,
        r.1@ == run@ + ".journal"@,
{
    (names::file_name(run), run.to_owned().concat(".journal"))
}

/// The runs whose journals some files hold.
pub open spec fn runs_of(files: Seq<Seq<char>>) -> Seq<Seq<char>>
    decreases files.len(),
{
    if files.len() == 0 {
        Seq::empty()
    } else {
        match run_of(files.last()) {
            Some(run) => runs_of(files.drop_last()).push(run),
            None => runs_of(files.drop_last()),
        }
    }
}

/// Does no text precede an earlier one?
pub open spec fn in_order(list: Seq<Seq<char>>) -> bool {
    forall|i: int, j: int|
        0 <= i < j < list.len() ==> !memory::less_text(#[trigger] list[j], #[trigger] list[i])
}

/// The runs whose journals some files hold, as the files' names write them, in
/// order.
pub fn discover(files: &Vec<String>) -> (r: Vec<String>)
    ensures
        in_order(texts(r@)),
        texts(r@).to_multiset() == runs_of(texts(files@)).to_multiset(),
{
    let ghost all = texts(files@);
    let mut out: Vec<String> = Vec::new();
    assert(texts(out@) =~= Seq::empty());
    assert(all.take(0) =~= Seq::empty());
    let mut i: usize = 0;
    while i < files.len()
        invariant
            i <= files@.len(),
            all == texts(files@),
            in_order(texts(out@)),
            texts(out@).to_multiset() == runs_of(all.take(i as int)).to_multiset(),
        decreases files@.len() - i,
    {
        proof {
            assert(all.take(i + 1).drop_last() =~= all.take(i as int));
            assert(all.take(i + 1).last() == files@[i as int]@);
        }
        if let Some(run) = run_of_file(files[i].as_str()) {
            let ghost before = texts(out@);
            insert_in_order(&mut out, run);
            proof {
                let old_runs = runs_of(all.take(i as int));
                old_runs.to_multiset_ensures();
            }
        }
        i += 1;
    }
    assert(all.take(all.len() as int) =~= all);
    out
}

/// Inserts `s` into a list that is in order, behind all that do not follow it.
fn insert_in_order(list: &mut Vec<String>, s: String)
    requires
        in_order(texts(old(list)@)),
    ensures
        in_order(texts(final(list)@)),
        texts(final(list)@).to_multiset() == texts(old(list)@).to_multiset().insert(s@),
{
    let ghost before = texts(list@);
    let mut i: usize = 0;
    while i < list.len() && !memory::precedes(s.as_str(), list[i].as_str())
        invariant
            i <= list@.len(),
            before == texts(list@),
            forall|k: int| 0 <= k < i ==> !memory::less_text(s@, #[trigger] before[k]),
        decreases list@.len() - i,
    {
        i += 1;
    }
    list.insert(i, s);
    proof {
        let after = texts(list@);
        assert(after =~= before.insert(i as int, s@));
        before.to_multiset_ensures();
        vstd::seq_lib::to_multiset_insert(before, i as int, s@);
        assert forall|a: int, b: int| 0 <= a < b < after.len() implies !memory::less_text(
            #[trigger] after[b],
            #[trigger] after[a],
        ) by {
            let x = if a < i {
                a
            } else {
                a - 1
            };
            let y = if b < i {
                b
            } else {
                b - 1
            };
            if a == i {
                assert(after[b] == before[y]);
                memory::lemma_order(s@, before[i as int], before[y]);
            } else if b == i {
                assert(after[a] == before[x]);
            } else {
                assert(after[a] == before[x] && after[b] == before[y]);
            }
        }
    }
}

} // verus!
