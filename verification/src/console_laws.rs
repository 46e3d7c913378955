//! What the command line makes of what it is given, told by the arguments that
//! go in and the texts that come out.
use vstd::prelude::*;

use crate::cli;
use crate::cli::{Action, Args, ArgsView};
use crate::event::{Event, EventView};
use crate::export;
use crate::journal;
use crate::journal::{EntryView, JournalView, Loaded};
use crate::names;
use crate::sha256;
use crate::text;

verus! {

proof fn lemma_digits_are_digits(n: nat)
    ensures
        text::decimal(n).len() > 0,
        forall|i: int|
            0 <= i < text::decimal(n).len() ==> cli::is_digit(#[trigger] text::decimal(n)[i]),
        cli::number_of(text::decimal(n)) == n,
    decreases n,
{
    if n < 10 {
        assert(seq![text::digit(n)].drop_last() =~= Seq::<char>::empty());
        reveal_with_fuel(cli::number_of, 2);
    } else {
        lemma_digits_are_digits(n / 10);
        let d = text::decimal(n / 10);
        assert(text::decimal(n) == d.push(text::digit(n % 10)));
        assert(d.push(text::digit(n % 10)).drop_last() =~= d);
        assert(n == 10 * (n / 10) + n % 10);
    }
}

/// A number in decimal is read back as that number: all its characters are
/// digits, and no two numbers are written alike.
pub proof fn law_decimal_reads_back(n: nat, m: nat)
    ensures
        cli::number_of(text::decimal(n)) == n,
        forall|i: int|
            0 <= i < text::decimal(n).len() ==> '0' <= #[trigger] text::decimal(n)[i] <= '9',
        text::decimal(n) == text::decimal(m) ==> n == m,
{
    lemma_digits_are_digits(n);
    lemma_digits_are_digits(m);
    assert forall|i: int| 0 <= i < text::decimal(n).len() implies '0'
        <= #[trigger] text::decimal(n)[i] <= '9' by {
        assert(cli::is_digit(text::decimal(n)[i]));
    }
}

/// A port number is what its digits say, with or without a plus sign in front,
/// if it fits; a text with any other character is none.
pub proof fn law_port_reads_back(n: nat, s: Seq<char>, i: int)
    ensures
        n <= 65535 ==> cli::port_of(text::decimal(n)) == Some(n as u16),
        n <= 65535 ==> cli::port_of(seq!['+'] + text::decimal(n)) == Some(n as u16),
        n > 65535 ==> cli::port_of(text::decimal(n)) is None,
        0 < i < s.len() && !('0' <= s[i] <= '9') ==> cli::port_of(s) is None,
        s.len() > 0 && s[0] != '+' && !('0' <= s[0] <= '9') ==> cli::port_of(s) is None,
        cli::port_of(Seq::empty()) is None,
{
    let d = text::decimal(n);
    lemma_digits_are_digits(n);
    assert(cli::is_digit(d[0]));
    assert(cli::unsigned(d) == d);
    assert((seq!['+'] + d).skip(1) =~= d);
    if 0 < i < s.len() && !('0' <= s[i] <= '9') {
        let u = cli::unsigned(s);
        if s[0] == '+' {
            assert(u[i - 1] == s[i]);
        } else {
            assert(u[i] == s[i]);
        }
    }
}

/// An option takes the word behind it, whatever that is, and what follows is
/// read as if the option had not been there; without a word behind it, it is
/// refused. Of two settings of one option the later counts.
pub proof fn law_options_take_the_next_word(
    value: Seq<char>,
    rest: Seq<Seq<char>>,
    a: ArgsView,
)
    ensures
        cli::read_args(seq!["--dir"@, value] + rest, a) == cli::read_args(
            rest,
            ArgsView { dir: value, ..a },
        ),
        cli::read_args(seq!["--key"@, value] + rest, a) == cli::read_args(
            rest,
            ArgsView { key: Some(value), ..a },
        ),
        cli::read_args(seq!["-o"@, value] + rest, a) == cli::read_args(
            rest,
            ArgsView { out: Some(value), ..a },
        ),
        cli::read_args(seq!["--out"@, value] + rest, a) == cli::read_args(
            rest,
            ArgsView { out: Some(value), ..a },
        ),
        cli::port_of(value) matches Some(port) ==> cli::read_args(
            seq!["--port"@, value] + rest,
            a,
        ) == cli::read_args(rest, ArgsView { port, ..a }),
        cli::port_of(value) is None ==> cli::read_args(
            seq!["--port"@, value] + rest,
            a,
        ) is Err,
        cli::read_args(seq!["--all"@] + rest, a) == cli::read_args(
            rest,
            ArgsView { all: true, ..a },
        ),
        cli::read_args(seq!["--help"@] + rest, a) == cli::read_args(
            rest,
            ArgsView { command: "help"@, ..a },
        ),
        cli::read_args(seq!["-h"@] + rest, a) == cli::read_args(
            rest,
            ArgsView { command: "help"@, ..a },
        ),
        cli::read_args(seq!["--dir"@], a) is Err,
        cli::read_args(seq!["--key"@], a) is Err,
        cli::read_args(seq!["-o"@], a) is Err,
        cli::read_args(seq!["--out"@], a) is Err,
        cli::read_args(seq!["--port"@], a) is Err,
{
    lemma_flags();
    lemma_two("--dir"@, value, rest);
    lemma_two("--key"@, value, rest);
    lemma_two("-o"@, value, rest);
    lemma_two("--out"@, value, rest);
    lemma_two("--port"@, value, rest);
    lemma_one("--all"@, rest);
    lemma_one("--help"@, rest);
    lemma_one("-h"@, rest);
}

proof fn lemma_two(word: Seq<char>, value: Seq<char>, rest: Seq<Seq<char>>)
    ensures
        ({
            let argv = seq![word, value] + rest;
            argv.len() > 1 && argv[0] == word && argv.skip(1)[0] == value && argv.skip(1).skip(1)
                == rest && argv.skip(1).len() > 0
        }),
{
    assert((seq![word, value] + rest).skip(1).skip(1) =~= rest);
}

proof fn lemma_one(word: Seq<char>, rest: Seq<Seq<char>>)
    ensures
        ({
            let argv = seq![word] + rest;
            argv.len() > 0 && argv[0] == word && argv.skip(1) == rest
        }),
{
    assert((seq![word] + rest).skip(1) =~= rest);
}

proof fn lemma_flags()
    ensures
        "--dir"@.len() == 5 && "--dir"@[2] == 'd',
        "--key"@.len() == 5 && "--key"@[2] == 'k',
        "-o"@.len() == 2 && "-o"@[1] == 'o',
        "--out"@.len() == 5 && "--out"@[2] == 'o',
        "--all"@.len() == 5 && "--all"@[2] == 'a',
        "--port"@.len() == 6 && "--port"@[2] == 'p',
        "-h"@.len() == 2 && "-h"@[1] == 'h',
        "--help"@.len() == 6 && "--help"@[2] == 'h',
        "--dir"@[0] == '-' && "--key"@[0] == '-' && "-o"@[0] == '-' && "--out"@[0] == '-',
        "--all"@[0] == '-' && "--port"@[0] == '-' && "-h"@[0] == '-' && "--help"@[0] == '-',
{
    reveal_strlit("--dir");
    reveal_strlit("--key");
    reveal_strlit("-o");
    reveal_strlit("--out");
    reveal_strlit("--all");
    reveal_strlit("--port");
    reveal_strlit("-h");
    reveal_strlit("--help");
}

/// A word that does not start with a dash is kept, behind those kept before; a
/// word that does and is no option is refused.
pub proof fn law_other_words_are_kept(word: Seq<char>, rest: Seq<Seq<char>>, a: ArgsView)
    ensures
        word.len() == 0 || word[0] != '-' ==> cli::read_args(seq![word] + rest, a)
            == cli::read_args(rest, ArgsView { positional: a.positional.push(word), ..a }),
        word.len() > 0 && word[0] == '-' && word != "--dir"@ && word != "--key"@ && word != "-o"@
            && word != "--out"@ && word != "--all"@ && word != "--port"@ && word != "-h"@ && word
            != "--help"@ ==> (cli::read_args(seq![word] + rest, a) matches Err(m)
            && word.is_suffix_of(m)),
{
    lemma_flags();
    lemma_one(word, rest);
    let m = "unknown flag "@ + word;
    assert(m.skip(m.len() - word.len()) =~= word);
}

/// The first word is the command; all else starts from the defaults.
pub proof fn law_first_word_is_the_command(argv: Seq<Seq<char>>)
    ensures
        argv.len() == 0 ==> (cli::args_of(argv) matches Ok(a) && a.command == "help"@),
        argv.len() == 1 ==> (cli::args_of(argv) matches Ok(a) && a.command == argv[0]
            && a.positional.len() == 0 && a.dir == "."@ && a.key is None && a.out is None && !a.all
            && a.port == 7171),
        argv.len() > 0 ==> cli::args_of(argv) == cli::read_args(
            argv.skip(1),
            cli::args_of(argv.take(1))->Ok_0,
        ),
{
    if argv.len() > 0 {
        assert(argv.take(1).skip(1) =~= Seq::empty());
    }
    if argv.len() == 1 {
        assert(argv.take(1) =~= argv);
    }
}

/// A command asks for what it is called, of the run that is named first. One
/// that needs a run is refused without; verifying all needs none.
pub proof fn law_command_asks_for_its_action(args: &Args, r: Result<Action, String>)
    requires
        call_ensures(cli::action, (args,), r),
    ensures
        ({
            let named = args.positional@.len() > 0;
            let first = args.positional@[0]@;
            let c = args.command@;
            &&& (r matches Ok(Action::Runs)) <==> c == "runs"@
            &&& (r matches Ok(Action::Serve)) <==> c == "serve"@
            &&& (r matches Ok(Action::Show(_))) <==> c == "show"@ && named
            &&& r matches Ok(Action::Show(run)) ==> run@ == first
            &&& (r matches Ok(Action::Export(_))) <==> c == "export"@ && named
            &&& r matches Ok(Action::Export(run)) ==> run@ == first
            &&& (r matches Ok(Action::Verify(_))) <==> c == "verify"@ && (args.all || named)
            &&& (r matches Ok(Action::Verify(None))) <==> c == "verify"@ && args.all
            &&& r matches Ok(Action::Verify(Some(run))) ==> run@ == first
            &&& (r matches Ok(Action::Help)) <==> c == "help"@ || c == "--help"@ || c == "-h"@
        }),
{
    lemma_commands();
    if args.positional@.len() > 0 {
        assert(args@.positional[0] == args.positional@[0]@);
    }
}

proof fn lemma_commands()
    ensures
        "runs"@ != "show"@ && "runs"@ != "verify"@ && "runs"@ != "export"@ && "runs"@ != "serve"@
            && "runs"@ != "help"@ && "runs"@ != "--help"@ && "runs"@ != "-h"@,
        "show"@ != "verify"@ && "show"@ != "export"@ && "show"@ != "serve"@ && "show"@ != "help"@
            && "show"@ != "--help"@ && "show"@ != "-h"@,
        "verify"@ != "export"@ && "verify"@ != "serve"@ && "verify"@ != "help"@ && "verify"@
            != "--help"@ && "verify"@ != "-h"@,
        "export"@ != "serve"@ && "export"@ != "help"@ && "export"@ != "--help"@ && "export"@
            != "-h"@,
        "serve"@ != "help"@ && "serve"@ != "--help"@ && "serve"@ != "-h"@,
{
    reveal_strlit("runs");
    reveal_strlit("show");
    reveal_strlit("verify");
    reveal_strlit("export");
    reveal_strlit("serve");
    reveal_strlit("help");
    reveal_strlit("--help");
    reveal_strlit("-h");
    assert("runs"@.len() == 4 && "runs"@[0] == 'r');
    assert("show"@.len() == 4 && "show"@[0] == 's');
    assert("verify"@.len() == 6 && "verify"@[0] == 'v');
    assert("export"@.len() == 6 && "export"@[0] == 'e');
    assert("serve"@.len() == 5);
    assert("help"@.len() == 4 && "help"@[0] == 'h');
    assert("--help"@.len() == 6 && "--help"@[0] == '-');
    assert("-h"@.len() == 2);
}

/// An export goes where it is told to, or to a page named after its run.
pub proof fn law_export_goes_where_it_is_told(args: &Args, run: &str, file: String)
    requires
        call_ensures(cli::output_file, (args, run), file),
    ensures
        args.out matches Some(f) ==> file@ == f@,
        args.out is None ==> run@.is_prefix_of(file@) && ".html"@.is_suffix_of(file@)
            && file@.len() == run@.len() + ".html"@.len(),
{
    let s = run@ + ".html"@;
    assert(s.take(run@.len() as int) =~= run@);
    assert(s.skip(s.len() - ".html"@.len()) =~= ".html"@);
}

/// The command line and the page call an event's kind by the same word.
pub proof fn law_kinds_agree(e: EventView)
    ensures
        cli::kind_of(e) == export::row_view(e).kind,
{
}

/// A clipped text is one line. It is the text, with spaces for newlines, if that
/// fits, and otherwise as much of it as fits and one mark more.
pub proof fn law_clipped_text_is_its_start(s: Seq<char>, width: nat, i: int)
    ensures
        ({
            let c = cli::clipped(s, width);
            &&& c.len() == (if s.len() > width {
                width + 1
            } else {
                s.len()
            })
            &&& 0 <= i < s.len() && i < width ==> c[i] == (if s[i] == '\n' {
                ' '
            } else {
                s[i]
            })
            &&& 0 <= i < c.len() ==> c[i] != '\n'
        }),
{
    reveal_strlit("…");
}

/// The summary of an event tells what the event holds: a draw its prompt first,
/// then its outcome and where it came from; every other event its name and its
/// value, clipped.
pub proof fn law_summary_tells_the_event(e: &Event, width: usize, s: String)
    requires
        call_ensures(cli::event_summary, (e, width), s),
    ensures
        ({
            let w = width as nat;
            match e@ {
                EventView::Program { name, hash } => name.is_prefix_of(s@) && text::holds(
                    s@,
                    " ["@ + hash + "]"@,
                ),
                EventView::OracleDraw { prompt, outcome, provenance } => cli::clipped(
                    text::lossy_text(prompt),
                    w,
                ).is_prefix_of(s@) && text::holds(
                    s@,
                    " ⟶ "@ + cli::clipped(text::lossy_text(outcome), w) + "  ("@,
                ) && (provenance + ")"@).is_suffix_of(s@),
                EventView::ChannelRecv { channel, value } => channel.is_prefix_of(s@)
                    && cli::clipped(text::lossy_text(value), w).is_suffix_of(s@),
                EventView::EffectIntent { name, arg } => name.is_prefix_of(s@) && text::holds(
                    s@,
                    "("@ + cli::clipped(text::lossy_text(arg), w) + ")"@,
                ),
                EventView::EffectCommit { name, result } => name.is_prefix_of(s@) && cli::clipped(
                    text::lossy_text(result),
                    w,
                ).is_suffix_of(s@),
                EventView::EffectCompensated { name } => s@ == name,
                EventView::Clock { nanos } => text::decimal(nanos as nat).is_prefix_of(s@),
            }
        }),
{
    let w = width as nat;
    match e@ {
        EventView::Program { name, hash } => {
            let at = " ["@ + hash + "]"@;
            text::lemma_regroup(name, " ["@, hash);
            text::lemma_regroup(name, " ["@ + hash, "]"@);
            text::lemma_holds_itself(at);
            text::lemma_holds_in_sum(name, at, at);
            assert(s@.take(name.len() as int) =~= name);
        },
        EventView::OracleDraw { prompt, outcome, provenance } => {
            let p = cli::clipped(text::lossy_text(prompt), w);
            let o = cli::clipped(text::lossy_text(outcome), w);
            let mid = " ⟶ "@ + o + "  ("@;
            let end = provenance + ")"@;
            text::lemma_regroup(p, " ⟶ "@, o);
            text::lemma_regroup(p, " ⟶ "@ + o, "  ("@);
            text::lemma_regroup(p + mid, provenance, ")"@);
            text::lemma_holds_itself(mid);
            text::lemma_holds_in_sum(p, mid, mid);
            text::lemma_holds_in_sum(p + mid, end, mid);
            assert(s@.take(p.len() as int) =~= p);
            assert(s@.skip(s@.len() - end.len()) =~= end);
        },
        EventView::ChannelRecv { channel, value } => {
            let v = cli::clipped(text::lossy_text(value), w);
            assert(s@.take(channel.len() as int) =~= channel);
            assert(s@.skip(s@.len() - v.len()) =~= v);
        },
        EventView::EffectIntent { name, arg } => {
            let v = cli::clipped(text::lossy_text(arg), w);
            let call = "("@ + v + ")"@;
            text::lemma_regroup(name, "("@, v);
            text::lemma_regroup(name, "("@ + v, ")"@);
            text::lemma_holds_itself(call);
            text::lemma_holds_in_sum(name, call, call);
            assert(s@.take(name.len() as int) =~= name);
        },
        EventView::EffectCommit { name, result } => {
            let v = cli::clipped(text::lossy_text(result), w);
            assert(s@.take(name.len() as int) =~= name);
            assert(s@.skip(s@.len() - v.len()) =~= v);
        },
        EventView::Clock { nanos } => {
            let n = text::decimal(nanos as nat);
            assert(s@.take(n.len() as int) =~= n);
        },
        _ => {},
    }
}

/// The timeline has a line for every entry, with its number, its kind and its
/// summary.
pub proof fn law_timeline_shows_every_entry(entries: Seq<EntryView>, i: int)
    requires
        0 <= i < entries.len(),
    ensures
        text::holds(
            cli::timeline(entries),
            text::right_aligned(text::decimal(i as nat), 6) + "  "@ + text::left_aligned(
                cli::kind_of(entries[i].event),
                12,
            ) + " "@ + cli::summary_of(entries[i].event, 100) + "\n"@,
        ),
    decreases entries.len(),
{
    let n = (entries.len() - 1) as nat;
    let e = entries.last().event;
    let last = text::right_aligned(text::decimal(n), 6) + "  "@ + text::left_aligned(
        cli::kind_of(e),
        12,
    ) + " "@ + cli::summary_of(e, 100) + "\n"@;
    let line = text::right_aligned(text::decimal(i as nat), 6) + "  "@ + text::left_aligned(
        cli::kind_of(entries[i].event),
        12,
    ) + " "@ + cli::summary_of(entries[i].event, 100) + "\n"@;
    if i < n {
        assert(entries.drop_last()[i] == entries[i]);
        law_timeline_shows_every_entry(entries.drop_last(), i);
    } else {
        text::lemma_holds_itself(last);
    }
    text::lemma_holds_in_sum(cli::timeline(entries.drop_last()), last, line);
}

/// A text is padded with spaces on one side to a width, and never cut: it keeps
/// its place at the other side.
pub proof fn law_alignment_only_pads(s: Seq<char>, width: nat, i: int)
    ensures
        ({
            let l = text::left_aligned(s, width);
            let r = text::right_aligned(s, width);
            let n = if s.len() < width {
                width
            } else {
                s.len()
            };
            &&& l.len() == n && r.len() == n
            &&& s.is_prefix_of(l) && s.is_suffix_of(r)
            &&& s.len() <= i < n ==> l[i] == ' '
            &&& 0 <= i < n - s.len() ==> r[i] == ' '
        }),
{
    let l = text::left_aligned(s, width);
    let r = text::right_aligned(s, width);
    assert(l.take(s.len() as int) =~= s);
    assert(r.skip(r.len() - s.len()) =~= s);
}

/// A run passes verification if and only if its journal can be opened and its
/// chain is intact, and the line says so: it names the run, the length of an
/// intact chain or the first broken link, or why the journal cannot be opened.
pub proof fn law_verification_tells_the_chain(
    run: &str,
    loaded: &Result<Loaded, String>,
    r: (String, bool),
)
    requires
        call_ensures(cli::verify_run, (run, loaded), r),
    ensures
        r.1 <==> (loaded matches Ok(l) && l.journal@.intact()),
        run@.is_prefix_of(r.0@),
        r.1 ==> text::holds(
            r.0@,
            ": verified ("@ + text::decimal(loaded->Ok_0.journal@.entries.len()),
        ),
        *loaded matches Err(e) ==> e@.is_suffix_of(r.0@),
        loaded is Ok && !r.1 ==> exists|c: nat|
            c < loaded->Ok_0.journal@.entries.len() && !journal::link_holds(
                loaded->Ok_0.journal@.key,
                loaded->Ok_0.journal@.entries,
                c as int,
            ) && (#[trigger] text::decimal(c)).is_suffix_of(r.0@),
{
    match *loaded {
        Err(e) => {
            assert(r.0@.take(run@.len() as int) =~= run@);
            assert(r.0@.skip(r.0@.len() - e@.len()) =~= e@);
        },
        Ok(l) => {
            assert(r.0@.take(run@.len() as int) =~= run@);
            if r.1 {
                let n = text::decimal(l.journal@.entries.len());
                let v = ": verified ("@ + n;
                text::lemma_regroup(run@, ": verified ("@, n);
                text::lemma_holds_itself(v);
                text::lemma_holds_in_sum(run@, v, v);
                text::lemma_holds_in_sum(run@ + v, " entries)"@, v);
            } else {
                let c = choose|c: nat| #[trigger]
                    cli::first_broken(l.journal@, c) && r.0@ == run@
                        + ": HASH CHAIN BROKEN at cursor "@ + text::decimal(c);
                let n = text::decimal(c);
                assert(r.0@.skip(r.0@.len() - n.len()) =~= n);
                assert(n.is_suffix_of(r.0@));
            }
        },
    }
}

/// What is shown of a run names it, counts its entries, tells whether its chain
/// holds and where it ends, counts the intents that dangle, if any does, and
/// ends in its timeline.
pub proof fn law_show_tells_of_the_journal(run: Seq<char>, j: JournalView, c: nat)
    ensures
        ({
            let s = cli::show_text(run, j, c);
            let open = journal::open_intents(j.events()).len();
            &&& text::holds(s, "run      : "@ + run)
            &&& text::holds(s, "\nentries  : "@ + text::decimal(j.entries.len()))
            &&& j.intact() ==> text::holds(s, "\nchain    : "@ + "verified"@)
            &&& !j.intact() ==> text::holds(
                s,
                "\nchain    : "@ + ("BROKEN at cursor "@ + text::decimal(c)),
            )
            &&& j.entries.len() > 0 ==> text::holds(
                s,
                "head     : "@ + sha256::hex_spec(j.entries.last().hash),
            )
            &&& open > 0 ==> text::holds(
                s,
                "dangling : "@ + text::decimal(open),
            )
            &&& cli::timeline(j.entries).is_suffix_of(s)
        }),
{
    let open = journal::open_intents(j.events()).len();
    let hex = sha256::hex_spec(j.entries.last().hash);
    let head = if j.entries.len() == 0 {
        Seq::empty()
    } else {
        "head     : "@ + hex + "\n"@
    };
    let dangling = if open == 0 {
        Seq::empty()
    } else {
        "dangling : "@ + text::decimal(open)
            + " effect intent(s) without commit - crashed mid-effect\n"@
    };
    let n = text::decimal(j.entries.len());
    let status = cli::chain_status(j, c);
    let a = "run      : "@ + run;
    let b = "\nentries  : "@ + n;
    let d = "\nchain    : "@ + status;
    let lines = cli::timeline(j.entries);
    let ab = a + b;
    let abd = ab + d;
    let e = abd + "\n"@;
    let f = e + head;
    let g = f + dangling;
    let h = g + "\n"@;
    let s = h + lines;
    assert(cli::show_text(run, j, c) == s) by {
        text::lemma_regroup(a, "\nentries  : "@, n);
        text::lemma_regroup(ab, "\nchain    : "@, status);
    }
    let top = "head     : "@ + hex;
    let loose = "dangling : "@ + text::decimal(open);
    text::lemma_holds_itself(a);
    text::lemma_holds_itself(b);
    text::lemma_holds_itself(d);
    text::lemma_holds_itself(top);
    text::lemma_holds_itself(loose);
    text::lemma_holds_in_sum(top, "\n"@, top);
    text::lemma_holds_in_sum(
        loose,
        " effect intent(s) without commit - crashed mid-effect\n"@,
        loose,
    );
    assert forall|part: Seq<char>|
        text::holds(a, part) || text::holds(b, part) || text::holds(d, part) || text::holds(
            head,
            part,
        ) || text::holds(dangling, part) implies #[trigger] text::holds(s, part) by {
        text::lemma_holds_in_sum(a, b, part);
        text::lemma_holds_in_sum(ab, d, part);
        text::lemma_holds_in_sum(abd, "\n"@, part);
        text::lemma_holds_in_sum(e, head, part);
        text::lemma_holds_in_sum(f, dangling, part);
        text::lemma_holds_in_sum(g, "\n"@, part);
        text::lemma_holds_in_sum(h, lines, part);
    }
    assert(s.skip(s.len() - lines.len()) =~= lines);
}

/// The line of a run names it, counts its entries, tells whether its chain
/// holds, where it ends and what was torn off; or it tells why the journal
/// cannot be opened.
pub proof fn law_listing_tells_the_run(run: &str, loaded: &Result<Loaded, String>, line: String)
    requires
        call_ensures(cli::describe_run, (run, loaded), line),
    ensures
        run@.is_prefix_of(line@),
        *loaded matches Ok(l) ==> {
            let j = l.journal@;
            &&& text::holds(line@, text::decimal(j.entries.len()))
            &&& j.intact() ==> text::holds(line@, "verified"@)
            &&& !j.intact() ==> text::holds(line@, "BROKEN"@)
            &&& j.entries.len() > 0 ==> text::holds(
                line@,
                sha256::hex_spec(j.entries.last().hash).take(16),
            )
            &&& l.torn_bytes > 0 ==> text::holds(
                line@,
                "  (truncated "@ + text::decimal(l.torn_bytes as nat) + " torn bytes)"@,
            )
        },
        *loaded matches Err(e) ==> text::holds(line@, "ERROR"@) && e@.is_suffix_of(line@),
{
    match *loaded {
        Err(e) => {
            lemma_run_line(run@, "-"@, "ERROR"@, e@, "ERROR"@);
            text::lemma_holds_itself("ERROR"@);
        },
        Ok(l) => {
            let j = l.journal@;
            let n = text::decimal(j.entries.len());
            let chain = cli::chain_word(j.intact());
            let head = cli::short_head(j, 16);
            let note = cli::torn_note(l.torn_bytes as nat);
            text::lemma_holds_itself(n);
            text::lemma_holds_itself(chain);
            text::lemma_holds_itself(head);
            text::lemma_holds_itself(note);
            text::lemma_holds_in_sum(head, note, head);
            text::lemma_holds_in_sum(head, note, note);
            lemma_run_line(run@, n, chain, head + note, n);
            lemma_run_line(run@, n, chain, head + note, chain);
            lemma_run_line(run@, n, chain, head + note, head);
            lemma_run_line(run@, n, chain, head + note, note);
        },
    }
}

proof fn lemma_run_line(
    run: Seq<char>,
    count: Seq<char>,
    chain: Seq<char>,
    rest: Seq<char>,
    part: Seq<char>,
)
    ensures
        run.is_prefix_of(cli::run_line(run, count, chain, rest)),
        rest.is_suffix_of(cli::run_line(run, count, chain, rest)),
        text::holds(count, part) || text::holds(chain, part) || text::holds(rest, part)
            ==> text::holds(cli::run_line(run, count, chain, rest), part),
{
    let a = text::left_aligned(run, 28);
    let b = text::right_aligned(count, 8);
    let c = text::left_aligned(chain, 9);
    let line = cli::run_line(run, count, chain, rest);
    law_alignment_only_pads(run, 28, 0);
    assert(a.take(run.len() as int) =~= run);
    assert(line.take(run.len() as int) =~= run);
    assert(line.skip(line.len() - rest.len()) =~= rest);
    if count.len() < 8 {
        text::lemma_holds_in_sum(text::spaces((8 - count.len()) as nat), count, part);
    }
    if chain.len() < 9 {
        text::lemma_holds_in_sum(chain, text::spaces((9 - chain.len()) as nat), part);
    }
    text::lemma_holds_in_sum(a + " "@, b, part);
    text::lemma_holds_in_sum(a + " "@ + b, "  "@, part);
    text::lemma_holds_in_sum(a + " "@ + b + "  "@, c, part);
    text::lemma_holds_in_sum(a + " "@ + b + "  "@ + c, " "@, part);
    text::lemma_holds_in_sum(a + " "@ + b + "  "@ + c + " "@, rest, part);
}

/// A file is the journal of the run that its name writes before the extension;
/// a file without that extension, or with nothing before it, is none.
pub proof fn law_journal_file_names_its_run(file: Seq<char>, run: Seq<char>)
    ensures
        run.len() > 0 ==> cli::run_of(run + ".journal"@) == Some(run),
        cli::run_of(file) matches Some(r) ==> file == r + ".journal"@ && r.len() > 0,
{
    let ext = ".journal"@;
    let whole = run + ext;
    assert(whole.skip(whole.len() - ext.len()) =~= ext);
    assert(whole.take(whole.len() - ext.len()) =~= run);
    if let Some(r) = cli::run_of(file) {
        assert(file =~= r + ext);
    }
}

/// The file that a command looks for first is the one that a run's journal is
/// kept in.
pub proof fn law_command_finds_the_journal(run: &str, file: String, r: (String, String))
    requires
        call_ensures(names::file_name, (run,), file),
        call_ensures(cli::journal_files, (run,), r),
    ensures
        r.0@ == file@,
        run@.len() > 0 ==> cli::run_of(r.1@) == Some(run@),
{
    law_journal_file_names_its_run(run@, run@);
}

/// The runs that are discovered are those whose journals are among the files,
/// each as often as it occurs there.
pub proof fn law_discovery_finds_every_journal(
    files: &Vec<String>,
    r: Vec<String>,
    run: Seq<char>,
)
    requires
        call_ensures(cli::discover, (files,), r),
    ensures
        (exists|i: int| 0 <= i < r@.len() && (#[trigger] r@[i])@ == run) <==> run.len() > 0
            && exists|i: int|
            0 <= i < files@.len() && (#[trigger] files@[i])@ == run + ".journal"@,
{
    let found = cli::texts(r@);
    let all = cli::texts(files@);
    let runs = cli::runs_of(all);
    found.to_multiset_ensures();
    runs.to_multiset_ensures();
    assert(found.contains(run) <==> found.to_multiset().count(run) > 0);
    assert(runs.contains(run) <==> runs.to_multiset().count(run) > 0);
    lemma_runs_of(all, run);
    if exists|i: int| 0 <= i < r@.len() && (#[trigger] r@[i])@ == run {
        let i = choose|i: int| 0 <= i < r@.len() && (#[trigger] r@[i])@ == run;
        assert(found[i] == run);
        assert(found.contains(run));
        let k = choose|k: int| 0 <= k < all.len() && cli::run_of(#[trigger] all[k]) == Some(run);
        law_journal_file_names_its_run(all[k], run);
        assert(files@[k]@ == run + ".journal"@);
    }
    if run.len() > 0 && exists|i: int|
        0 <= i < files@.len() && (#[trigger] files@[i])@ == run + ".journal"@ {
        let k = choose|k: int|
            0 <= k < files@.len() && (#[trigger] files@[k])@ == run + ".journal"@;
        law_journal_file_names_its_run(run, run);
        assert(cli::run_of(all[k]) == Some(run));
        assert(found.contains(run));
        let i = choose|i: int| 0 <= i < found.len() && found[i] == run;
        assert(r@[i]@ == run);
    }
}

proof fn lemma_runs_of(files: Seq<Seq<char>>, run: Seq<char>)
    ensures
        cli::runs_of(files).contains(run) <==> exists|k: int|
            0 <= k < files.len() && cli::run_of(#[trigger] files[k]) == Some(run),
    decreases files.len(),
{
    if files.len() > 0 {
        let before = files.drop_last();
        lemma_runs_of(before, run);
        let was = cli::runs_of(before);
        let now = cli::runs_of(files);
        if cli::run_of(files.last()) is Some {
            let last = cli::run_of(files.last())->0;
            assert(now == was.push(last));
            assert(now[now.len() - 1] == last);
            if was.contains(run) {
                let i = choose|i: int| 0 <= i < was.len() && was[i] == run;
                assert(now[i] == run);
            }
            if now.contains(run) && last != run {
                let i = choose|i: int| 0 <= i < now.len() && now[i] == run;
                assert(was[i] == run);
            }
        }
        if exists|k: int| 0 <= k < before.len() && cli::run_of(#[trigger] before[k]) == Some(run) {
            let k = choose|k: int|
                0 <= k < before.len() && cli::run_of(#[trigger] before[k]) == Some(run);
            assert(files[k] == before[k]);
        }
        if exists|k: int| 0 <= k < files.len() && cli::run_of(#[trigger] files[k]) == Some(run) {
            let k = choose|k: int|
                0 <= k < files.len() && cli::run_of(#[trigger] files[k]) == Some(run);
            if k < before.len() {
                assert(before[k] == files[k]);
            }
        }
        assert(files[files.len() - 1] == files.last());
    }
}

/// The heading of the listing names its columns, each where the lines of the runs
/// have theirs.
pub proof fn law_heading_names_the_columns(r: String)
    requires
        call_ensures(cli::runs_heading, (), r),
    ensures
        "RUN"@.is_prefix_of(r@),
        text::holds(r@, "ENTRIES"@),
        text::holds(r@, "CHAIN"@),
        "HEAD"@.is_suffix_of(r@),
{
    text::lemma_holds_itself("ENTRIES"@);
    text::lemma_holds_itself("CHAIN"@);
    lemma_run_line("RUN"@, "ENTRIES"@, "CHAIN"@, "HEAD"@, "ENTRIES"@);
    lemma_run_line("RUN"@, "ENTRIES"@, "CHAIN"@, "HEAD"@, "CHAIN"@);
}

} // verus!
