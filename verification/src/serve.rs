//! The replay console as a local web application: which page a request asks
//! for, and what is answered. The socket and the journal directory are left to
//! the program.
use vstd::prelude::*;
use vstd::utf8::*;

use crate::cli;
use crate::event::{Event, EventView};
use crate::export;
use crate::journal;
use crate::journal::{Journal, JournalView};
use crate::names;
use crate::text;

verus! {

/// Has the character the Unicode property `White_Space`?
pub open spec fn is_white(c: char) -> bool {
    let n = c as u32;
    ||| 0x09 <= n <= 0x0d
    ||| n == 0x20
    ||| n == 0x85
    ||| n == 0xa0
    ||| n == 0x1680
    ||| 0x2000 <= n <= 0x200a
    ||| n == 0x2028
    ||| n == 0x2029
    ||| n == 0x202f
    ||| n == 0x205f
    ||| n == 0x3000
}

fn white(c: char) -> (r: bool)
    ensures
        r == is_white(c),
{
    let n: u32 = c as u32;
    (0x09 <= n && n <= 0x0d) || n == 0x20 || n == 0x85 || n == 0xa0 || n == 0x1680 || (0x2000 <= n
        && n <= 0x200a) || n == 0x2028 || n == 0x2029 || n == 0x202f || n == 0x205f || n == 0x3000
}

/// The longest start of `s` whose characters all satisfy `p`.
pub open spec fn leading(s: Seq<char>, p: spec_fn(char) -> bool) -> Seq<char>
    decreases s.len(),
{
    if s.len() == 0 || !p(s[0]) {
        Seq::empty()
    } else {
        seq![s[0]] + leading(s.skip(1), p)
    }
}

/// The first line of `s`, without its end.
pub open spec fn first_line(s: Seq<char>) -> Seq<char> {
    leading(s, |c: char| c != '\n')
}

/// `s` without the white space that it starts with.
pub open spec fn trimmed(s: Seq<char>) -> Seq<char> {
    s.skip(leading(s, |c: char| is_white(c)).len() as int)
}

/// The characters of `s` before any white space.
pub open spec fn word(s: Seq<char>) -> Seq<char> {
    leading(s, |c: char| !is_white(c))
}

/// The second word of `s`; empty if it has fewer.
pub open spec fn second_word(s: Seq<char>) -> Seq<char> {
    let first = trimmed(s);
    word(trimmed(first.skip(word(first).len() as int)))
}

/// The path that a request asks for: the second word of its first line.
pub open spec fn path_of(request: Seq<char>) -> Seq<char> {
    let path = second_word(first_line(request));
    if path.len() == 0 {
        "/"@
    } else {
        path
    }
}

/// What a request asks for.
pub enum Route {
    Health,
    Index,
    Run(String),
    Unknown,
}

/// What a [`Route`] says.
pub enum RouteView {
    Health,
    Index,
    Run(Seq<char>),
    Unknown,
}

impl View for Route {
    type V = RouteView;

    open spec fn view(&self) -> RouteView {
        match self {
            Route::Health => RouteView::Health,
            Route::Index => RouteView::Index,
            Route::Run(run) => RouteView::Run(run@),
            Route::Unknown => RouteView::Unknown,
        }
    }
}

/// What the page at `path` is. The name of a run ends at the first character
/// that is not safe in a file name.
pub open spec fn route_of(path: Seq<char>) -> RouteView {
    let prefix = "/run/"@;
    if path == "/healthz"@ {
        RouteView::Health
    } else if path == "/"@ {
        RouteView::Index
    } else if path.len() >= prefix.len() && path.take(prefix.len() as int) == prefix {
        RouteView::Run(leading(path.skip(prefix.len() as int), |c: char| names::is_safe(c)))
    } else {
        RouteView::Unknown
    }
}

/// What the bytes of a request ask for.
pub fn route(request: &[u8]) -> (r: Route)
    ensures
        r@ == route_of(path_of(text::lossy_text(request@))),
{
    route_text(text::lossy(request).as_str())
}

/// What the text of a request asks for.
pub fn route_text(request: &str) -> (r: Route)
    ensures
        r@ == route_of(path_of(request@)),
{
    let path = path(request);
    route_path(path.as_str())
}

fn all_chars(s: &str) -> (r: Vec<char>)
    ensures
        r@ == s@,
{
    let mut out: Vec<char> = Vec::new();
    for c in it: s.chars()
        invariant
            it.seq() == s@,
            out@ == s@.take(it.index() as int),
    {
        assert(s@[it.index() as int] == c);
        out.push(c);
        assert(out@ =~= s@.take(it.index() + 1));
    }
    assert(s@.take(s@.len() as int) =~= s@);
    out
}

proof fn lemma_leading(s: Seq<char>, p: spec_fn(char) -> bool, n: int)
    requires
        0 <= n <= s.len(),
        forall|i: int| 0 <= i < n ==> p(#[trigger] s[i]),
        n == s.len() || !p(s[n]),
    ensures
        leading(s, p) == s.take(n),
    decreases n,
{
    if n > 0 {
        assert forall|i: int| 0 <= i < n - 1 implies p(#[trigger] s.skip(1)[i]) by {
            assert(s.skip(1)[i] == s[i + 1]);
        }
        assert(p(s[0]));
        lemma_leading(s.skip(1), p, n - 1);
        assert(seq![s[0]] + s.skip(1).take(n - 1) =~= s.take(n));
    } else {
        assert(s.take(0) =~= Seq::empty());
    }
}

/// The end of the run of characters from `from` on that are, or are not,
/// white space.
fn skip(cs: &[char], from: usize, end: usize, spaces: bool) -> (r: usize)
    requires
        from <= end <= cs@.len(),
    ensures
        from <= r <= end,
        leading(cs@.subrange(from as int, end as int), |c: char| is_white(c) == spaces)
            == cs@.subrange(from as int, r as int),
{
    let mut i: usize = from;
    while i < end && white(cs[i]) == spaces
        invariant
            from <= i <= end <= cs@.len(),
            forall|k: int| from <= k < i ==> is_white(#[trigger] cs@[k]) == spaces,
        decreases end - i,
    {
        i += 1;
    }
    proof {
        let s = cs@.subrange(from as int, end as int);
        lemma_leading(s, |c: char| is_white(c) == spaces, i - from);
        assert(s.take(i - from) =~= cs@.subrange(from as int, i as int));
    }
    i
}

fn text_between(cs: &[char], from: usize, end: usize) -> (r: String)
    requires
        from <= end <= cs@.len(),
    ensures
        r@ == cs@.subrange(from as int, end as int),
{
    let mut out = String::new();
    let mut i: usize = from;
    while i < end
        invariant
            from <= i <= end <= cs@.len(),
            out@ == cs@.subrange(from as int, i as int),
        decreases end - i,
    {
        out.push(cs[i]);
        assert(out@ =~= cs@.subrange(from as int, i + 1));
        i += 1;
    }
    out
}

/// The path that a request asks for.
pub fn path(request: &str) -> (r: String)
    ensures
        r@ == path_of(request@),
{
    let cs = all_chars(request);
    let mut end: usize = 0;
    while end < cs.len() && cs[end] != '\n'
        invariant
            end <= cs@.len(),
            forall|k: int| 0 <= k < end ==> #[trigger] cs@[k] != '\n',
        decreases cs@.len() - end,
    {
        end += 1;
    }
    let ghost line = cs@.take(end as int);
    proof {
        lemma_leading(cs@, |c: char| c != '\n', end as int);
        assert(first_line(request@) == line);
        assert(line =~= cs@.subrange(0, end as int));
    }
    let a: usize = skip(&cs, 0, end, true);
    let b: usize = skip(&cs, a, end, false);
    let c: usize = skip(&cs, b, end, true);
    let d: usize = skip(&cs, c, end, false);
    let out = text_between(&cs, c, d);
    proof {
        let white_is_true = |c: char| is_white(c) == true;
        let white_is_false = |c: char| is_white(c) == false;
        assert(white_is_true =~= |c: char| is_white(c));
        assert(white_is_false =~= |c: char| !is_white(c));
        let first = trimmed(line);
        assert(first =~= cs@.subrange(a as int, end as int));
        let rest = first.skip(word(first).len() as int);
        assert(rest =~= cs@.subrange(b as int, end as int));
        assert(trimmed(rest) =~= cs@.subrange(c as int, end as int));
    }
    if c == d {
        "/".to_owned()
    } else {
        out
    }
}

/// What the page at `path` is.
pub fn route_path(path: &str) -> (r: Route)
    ensures
        r@ == route_of(path@),
{
    if text::same_text(path, "/healthz") {
        return Route::Health;
    }
    if text::same_text(path, "/") {
        return Route::Index;
    }
    let prefix = "/run/";
    let n: usize = prefix.unicode_len();
    let len: usize = path.unicode_len();
    if len < n {
        return Route::Unknown;
    }
    let start = path.substring_char(0, n);
    assert(start@ =~= path@.take(n as int));
    if !text::same_text(start, prefix) {
        return Route::Unknown;
    }
    let cs = all_chars(path);
    let mut end: usize = n;
    while end < cs.len() && names::safe(cs[end])
        invariant
            n <= end <= cs@.len(),
            forall|k: int| n <= k < end ==> names::is_safe(#[trigger] cs@[k]),
        decreases cs@.len() - end,
    {
        end += 1;
    }
    proof {
        let s = cs@.skip(n as int);
        lemma_leading(s, |c: char| names::is_safe(c), end - n);
        assert(s.take(end - n) =~= cs@.subrange(n as int, end as int));
    }
    Route::Run(text_between(&cs, n, end))
}

/// The name of a run that a path asks for holds only characters that are safe
/// in a file name: no request leaves the journal directory.
pub proof fn law_requested_runs_are_safe(path: Seq<char>)
    ensures
        route_of(path) matches RouteView::Run(run) ==> forall|i: int|
            0 <= i < run.len() ==> names::is_safe(#[trigger] run[i]),
{
    let prefix = "/run/"@;
    lemma_leading_holds(path.skip(prefix.len() as int), |c: char| names::is_safe(c));
}

/// The link that the index gives for a run leads to that run.
pub proof fn law_listed_run_is_reached(run_id: Seq<char>)
    ensures
        route_of("/run/"@ + names::safe_name(run_id)) == RouteView::Run(names::safe_name(run_id)),
{
    let prefix = "/run/"@;
    let stem = names::safe_name(run_id);
    let path = prefix + stem;
    reveal_strlit("/run/");
    reveal_strlit("/healthz");
    reveal_strlit("/");
    names::law_file_name_is_safe(run_id);
    assert(path.take(prefix.len() as int) =~= prefix);
    assert(path.skip(prefix.len() as int) =~= stem);
    assert(path[1] == 'r');
    lemma_leading(stem, |c: char| names::is_safe(c), stem.len() as int);
    assert(stem.take(stem.len() as int) =~= stem);
}

proof fn lemma_leading_holds(s: Seq<char>, p: spec_fn(char) -> bool)
    ensures
        forall|i: int| 0 <= i < leading(s, p).len() ==> p(#[trigger] leading(s, p)[i]),
    decreases s.len(),
{
    if s.len() > 0 && p(s[0]) {
        let rest = leading(s.skip(1), p);
        lemma_leading_holds(s.skip(1), p);
        assert forall|i: int| 0 <= i < leading(s, p).len() implies p(
            #[trigger] leading(s, p)[i],
        ) by {
            if i > 0 {
                assert(leading(s, p)[i] == rest[i - 1]);
            }
        }
    }
}

/// How many model calls some events record.
pub open spec fn draws(events: Seq<EventView>) -> nat
    decreases events.len(),
{
    if events.len() == 0 {
        0
    } else {
        draws(events.drop_last()) + (if events.last() is OracleDraw {
            1nat
        } else {
            0nat
        })
    }
}

fn count_draws(j: &Journal) -> (r: usize)
    ensures
        r == draws(j@.events()),
{
    let list = j.entries();
    let ghost all = j@.events();
    let mut n: usize = 0;
    let mut i: usize = 0;
    assert(all.take(0) =~= Seq::empty());
    while i < list.len()
        invariant
            i <= list@.len(),
            n <= i,
            all == journal::events_of(journal::entry_views(list@)),
            n == draws(all.take(i as int)),
        decreases list@.len() - i,
    {
        proof {
            assert(all.take(i + 1).drop_last() =~= all.take(i as int));
            assert(all.take(i + 1).last() == list@[i as int].event@);
        }
        if let Event::OracleDraw { .. } = &list[i].event {
            n += 1;
        }
        i += 1;
    }
    assert(all.take(all.len() as int) =~= all);
    n
}

/// A run of the index: its journal, or why it cannot be opened.
pub struct Listed {
    /// The run, as the name of its file writes it.
    pub run: String,
    pub journal: Result<Journal, String>,
}

/// What a [`Listed`] says.
pub struct ListedView {
    pub run: Seq<char>,
    pub journal: Result<JournalView, Seq<char>>,
}

impl View for Listed {
    type V = ListedView;

    open spec fn view(&self) -> ListedView {
        ListedView {
            run: self.run@,
            journal: match self.journal {
                Ok(j) => Ok(j@),
                Err(e) => Err(e@),
            },
        }
    }
}

/// What some listed runs say.
pub open spec fn listed_views(runs: Seq<Listed>) -> Seq<ListedView> {
    runs.map_values(|l: Listed| l@)
}

/// What the index says of a chain.
pub open spec fn chain_cell(intact: bool) -> Seq<char> {
    if intact {
        "verified"@
    } else {
        "<span class=\"alarm\">BROKEN</span>"@
    }
}

/// What the index says of a run's effects.
pub open spec fn effects_cell(open: nat) -> Seq<char> {
    if open > 0 {
        "<span class=\"alarm\">"@ + text::decimal(open) + " open</span>"@
    } else {
        "<span class=\"faint\">settled</span>"@
    }
}

/// How many intents of a journal are open.
pub open spec fn open_count(j: JournalView) -> nat {
    journal::open_intents(j.events()).len()
}

/// The row of the index for a run.
pub open spec fn listed_row(l: ListedView) -> Seq<char> {
    let run = export::escaped(names::run_named(l.run));
    match l.journal {
        Ok(j) => "<tr class=\"run\"><td class=\"name\"><a href=\"/run/"@ + export::escaped(l.run)
            + "\">"@ + run
            + "</a></td><td class=\"r\">"@ + text::decimal(j.entries.len())
            + "</td><td class=\"r\">"@ + text::decimal(draws(j.events())) + "</td><td>"@
            + chain_cell(j.intact()) + "</td><td>"@ + effects_cell(open_count(j))
            + "</td><td><span class=\"faint\">"@ + cli::short_head(j, 12)
            + "</span></td></tr>\n"@,
        Err(e) => "<tr class=\"run\"><td class=\"name\">"@ + run
            + "</td><td colspan=\"5\"><span class=\"alarm\">"@ + export::escaped(e)
            + "</span></td></tr>\n"@,
    }
}

/// The rows of the index.
pub open spec fn listed_rows(runs: Seq<ListedView>) -> Seq<char>
    decreases runs.len(),
{
    if runs.len() == 0 {
        Seq::empty()
    } else {
        listed_rows(runs.drop_last()) + listed_row(runs.last())
    }
}

/// A figure of every run that can be opened, summed up.
pub open spec fn total(runs: Seq<ListedView>, f: spec_fn(JournalView) -> nat) -> nat
    decreases runs.len(),
{
    if runs.len() == 0 {
        0
    } else {
        total(runs.drop_last(), f) + (match runs.last().journal {
            Ok(j) => f(j),
            Err(_) => 0,
        })
    }
}

/// How many steps all runs have journaled.
pub open spec fn total_steps(runs: Seq<ListedView>) -> nat {
    total(runs, |j: JournalView| j.entries.len())
}

/// How many runs have an intact chain.
pub open spec fn total_verified(runs: Seq<ListedView>) -> nat {
    total(
        runs,
        |j: JournalView|
            if j.intact() {
                1
            } else {
                0
            },
    )
}

/// How many intents of all runs are open.
pub open spec fn total_open(runs: Seq<ListedView>) -> nat {
    total(runs, |j: JournalView| open_count(j))
}

/// The index page.
pub open spec fn index_html(runs: Seq<ListedView>, dir: Seq<char>) -> Seq<char> {
    let table = if runs.len() == 0 {
        "<div class=\"empty\">no journals in this directory - point an agent's runtime here and runs appear as they record</div>"@
    } else {
        "<table><tr><th>run</th><th class=\"r\">steps</th><th class=\"r\">draws</th><th>chain</th><th>effects</th><th>head</th></tr>"@
            + listed_rows(runs) + "</table>"@
    };
    let open = if total_open(runs) > 0 {
        "<div><span class=\"alarm\">"@ + text::decimal(total_open(runs))
            + " OPEN INTENT(S)</span></div>"@
    } else {
        Seq::empty()
    };
    let body = export::masthead_html("runs"@, "live - refresh to follow"@)
        + "\n<div class=\"facts\">\n  <div><b>"@ + text::decimal(runs.len())
        + "</b> runs</div>\n  <div><b>"@ + text::decimal(total_steps(runs))
        + "</b> journaled steps</div>\n  <div>chains <b>"@ + text::decimal(total_verified(runs))
        + "/"@ + text::decimal(runs.len()) + "</b> verified</div>\n  "@ + open
        + "\n  <div>dir <b>"@ + export::escaped(dir) + "</b></div>\n</div>\n"@ + table;
    export::console_html("pragmatic console"@, body)
}

fn number_text(n: u128) -> (r: String)
    ensures
        r@ == text::decimal(n as nat),
{
    let mut out = String::new();
    text::push_digits(&mut out, n, 10);
    assert(out@ =~= text::decimal(n as nat));
    out
}

fn list_row(run: &str, j: &Journal, open: usize, verified: bool) -> (r: String)
    requires
        open == open_count(j@),
        verified == j@.intact(),
    ensures
        r@ == listed_row(ListedView { run: run@, journal: Ok(j@) }),
{
    let chain = if verified {
        "verified"
    } else {
        "<span class=\"alarm\">BROKEN</span>"
    };
    let effects = if open > 0 {
        "<span class=\"alarm\">".to_owned().concat(text::decimal_text(open as u64).as_str()).concat(
            " open</span>",
        )
    } else {
        "<span class=\"faint\">settled</span>".to_owned()
    };
    let name = export::esc(names::run_name(run).as_str());
    let link = export::esc(run);
    "<tr class=\"run\"><td class=\"name\"><a href=\"/run/".to_owned().concat(link.as_str()).concat(
        "\">",
    ).concat(name.as_str()).concat("</a></td><td class=\"r\">").concat(
        text::decimal_text(j.len()).as_str(),
    ).concat("</td><td class=\"r\">").concat(
        text::decimal_text(count_draws(j) as u64).as_str(),
    ).concat("</td><td>").concat(chain).concat("</td><td>").concat(effects.as_str()).concat(
        "</td><td><span class=\"faint\">",
    ).concat(cli::head_digits(j, 12).as_str()).concat("</span></td></tr>\n")
}

fn list_fault(run: &str, e: &str) -> (r: String)
    ensures
        r@ == listed_row(ListedView { run: run@, journal: Err(e@) }),
{
    let name = export::esc(names::run_name(run).as_str());
    "<tr class=\"run\"><td class=\"name\">".to_owned().concat(name.as_str()).concat(
        "</td><td colspan=\"5\"><span class=\"alarm\">",
    ).concat(export::esc(e).as_str()).concat("</span></td></tr>\n")
}

/// The page that lists all runs.
pub fn index_page(runs: &Vec<Listed>, dir: &str) -> (r: String)
    ensures
        r@ == index_html(listed_views(runs@), dir@),
{
    let ghost all = listed_views(runs@);
    let mut steps: u128 = 0;
    let mut verified: u128 = 0;
    let mut open: u128 = 0;
    let mut rows = String::new();
    assert(all.take(0) =~= Seq::empty());
    let mut i: usize = 0;
    while i < runs.len()
        invariant
            i <= runs@.len(),
            all == listed_views(runs@),
            rows@ == listed_rows(all.take(i as int)),
            steps == total_steps(all.take(i as int)),
            verified == total_verified(all.take(i as int)),
            open == total_open(all.take(i as int)),
            steps <= i * u64::MAX,
            verified <= i * u64::MAX,
            open <= i * u64::MAX,
        decreases runs@.len() - i,
    {
        proof {
            assert(all.take(i + 1).drop_last() =~= all.take(i as int));
            assert(all.take(i + 1).last() == runs@[i as int]@);
            assert((i + 1) * u64::MAX == i * u64::MAX + u64::MAX) by (nonlinear_arith);
            assert(i * u64::MAX + u64::MAX <= u128::MAX) by (nonlinear_arith)
                requires
                    i < u64::MAX,
            ;
        }
        let run = runs[i].run.as_str();
        match &runs[i].journal {
            Ok(j) => {
                let intact: bool = export::is_intact(j);
                let dangling: usize = j.dangling_intents().len();
                rows.append(list_row(run, j, dangling, intact).as_str());
                steps += j.len() as u128;
                open += dangling as u128;
                if intact {
                    verified += 1;
                }
            },
            Err(e) => {
                rows.append(list_fault(run, e.as_str()).as_str());
            },
        }
        i += 1;
    }
    assert(all.take(all.len() as int) =~= all);
    let table = if runs.len() == 0 {
        "<div class=\"empty\">no journals in this directory - point an agent's runtime here and runs appear as they record</div>".to_owned()
    } else {
        "<table><tr><th>run</th><th class=\"r\">steps</th><th class=\"r\">draws</th><th>chain</th><th>effects</th><th>head</th></tr>".to_owned().concat(
            rows.as_str(),
        ).concat("</table>")
    };
    let alarm = if open > 0 {
        "<div><span class=\"alarm\">".to_owned().concat(number_text(open).as_str()).concat(
            " OPEN INTENT(S)</span></div>",
        )
    } else {
        String::new()
    };
    let count = text::decimal_text(runs.len() as u64);
    let body = export::masthead("runs", "live - refresh to follow").concat(
        "\n<div class=\"facts\">\n  <div><b>",
    ).concat(count.as_str()).concat("</b> runs</div>\n  <div><b>").concat(
        number_text(steps).as_str(),
    ).concat("</b> journaled steps</div>\n  <div>chains <b>").concat(
        number_text(verified).as_str(),
    ).concat("/").concat(count.as_str()).concat("</b> verified</div>\n  ").concat(
        alarm.as_str(),
    ).concat("\n  <div>dir <b>").concat(export::esc(dir).as_str()).concat(
        "</b></div>\n</div>\n",
    ).concat(table.as_str());
    export::page("pragmatic console", body.as_str())
}

/// An HTTP response.
pub open spec fn response_text(status: Seq<char>, kind: Seq<char>, body: Seq<char>) -> Seq<char> {
    "HTTP/1.1 "@ + status + "\r\ncontent-type: "@ + kind + "; charset=utf-8\r\ncontent-length: "@
        + text::decimal(encode_utf8(body).len()) + "\r\nconnection: close\r\n\r\n"@ + body
}

/// An HTTP response.
pub fn respond(status: &str, kind: &str, body: &str) -> (r: String)
    ensures
        r@ == response_text(status@, kind@, body@),
{
    let length: usize = body.as_bytes().len();
    "HTTP/1.1 ".to_owned().concat(status).concat("\r\ncontent-type: ").concat(kind).concat(
        "; charset=utf-8\r\ncontent-length: ",
    ).concat(text::decimal_text(length as u64).as_str()).concat(
        "\r\nconnection: close\r\n\r\n",
    ).concat(body)
}

/// The answer to a liveness probe.
pub fn health_response() -> (r: String)
    ensures
        r@ == response_text("200 OK"@, "text/plain"@, "ok"@),
{
    respond("200 OK", "text/plain", "ok")
}

/// The answer to a request for the index.
pub fn index_response(runs: &Vec<Listed>, dir: &str) -> (r: String)
    ensures
        r@ == response_text("200 OK"@, "text/html"@, index_html(listed_views(runs@), dir@)),
{
    respond("200 OK", "text/html", index_page(runs, dir).as_str())
}

/// The answer to a request for a run, as the name of its file writes it: its
/// journal, or why it cannot be opened.
pub fn run_response(run: &str, journal: &Result<Journal, String>) -> (r: String)
    ensures
        r@ == (match journal {
            Ok(j) => response_text("200 OK"@, "text/html"@, export::page_html(
                names::run_named(run@),
                j@,
            )),
            Err(e) => response_text(
                "404 Not Found"@,
                "text/plain"@,
                "no such run '"@ + names::run_named(run@) + "': "@ + e@,
            ),
        }),
{
    let name = names::run_name(run);
    match journal {
        Ok(j) => respond("200 OK", "text/html", export::render(name.as_str(), j).as_str()),
        Err(e) => respond(
            "404 Not Found",
            "text/plain",
            "no such run '".to_owned().concat(name.as_str()).concat("': ").concat(
                e.as_str(),
            ).as_str(),
        ),
    }
}

/// The answer to a request for anything else.
pub fn unknown_response() -> (r: String)
    ensures
        r@ == response_text("404 Not Found"@, "text/plain"@, "not found"@),
{
    respond("404 Not Found", "text/plain", "not found")
}

proof fn lemma_leading_is_longest(s: Seq<char>, p: spec_fn(char) -> bool)
    ensures
        leading(s, p).len() <= s.len(),
        leading(s, p) == s.take(leading(s, p).len() as int),
        leading(s, p).len() < s.len() ==> !p(s[leading(s, p).len() as int]),
    decreases s.len(),
{
    if s.len() > 0 && p(s[0]) {
        let rest = s.skip(1);
        lemma_leading_is_longest(rest, p);
        let n = leading(s, p).len();
        assert(leading(s, p) =~= s.take(n as int));
        if n < s.len() {
            assert(s[n as int] == rest[n - 1]);
        }
    } else {
        assert(leading(s, p) =~= s.take(0));
    }
}

/// The path of a request is the second word of its first line, whatever method
/// comes before it and whatever stands behind it.
pub proof fn law_request_line_names_the_path(
    method: Seq<char>,
    path: Seq<char>,
    behind: Seq<char>,
)
    requires
        method.len() > 0,
        path.len() > 0,
        forall|i: int| 0 <= i < method.len() ==> !is_white(#[trigger] method[i]),
        forall|i: int| 0 <= i < path.len() ==> !is_white(#[trigger] path[i]),
    ensures
        path_of(method + seq![' '] + path + seq![' '] + behind) == path,
{
    let s = method + seq![' '] + path + seq![' '] + behind;
    let m = method.len() as int;
    let l = m + 1 + path.len();
    assert forall|i: int| 0 <= i < s.len() implies #[trigger] s[i] == (if i < m {
        method[i]
    } else if i == m || i == l {
        ' '
    } else if i < l {
        path[i - m - 1]
    } else {
        behind[i - l - 1]
    }) by {}
    let not_end = |c: char| c != '\n';
    lemma_leading_is_longest(s, not_end);
    let n = leading(s, not_end).len() as int;
    assert(n > l) by {
        if n < l + 1 {
            assert(!not_end(s[n]));
            assert(is_white('\n'));
        }
    }
    let line = s.take(n);
    assert(first_line(s) == line);
    let white_p = |c: char| is_white(c);
    let black_p = |c: char| !is_white(c);
    assert(line[0] == method[0]);
    lemma_leading(line, white_p, 0);
    assert(trimmed(line) =~= line);
    assert forall|i: int| 0 <= i < m implies black_p(#[trigger] line[i]) by {
        assert(line[i] == method[i]);
    }
    assert(is_white(' '));
    assert(line[m] == ' ');
    lemma_leading(line, black_p, m);
    let rest = line.skip(m);
    assert(word(line).len() == m);
    assert(rest[0] == ' ' && rest[1] == path[0]);
    lemma_leading(rest, white_p, 1);
    let second = rest.skip(1);
    assert(trimmed(rest) =~= second);
    assert forall|i: int| 0 <= i < path.len() implies black_p(#[trigger] second[i]) by {
        assert(second[i] == path[i]);
    }
    assert(second[path.len() as int] == ' ');
    lemma_leading(second, black_p, path.len() as int);
    assert(second.take(path.len() as int) =~= path);
}

/// Which page a path asks for: the probe and the index by their own paths, a
/// run by its name behind the prefix, up to the first character that no file
/// name holds, and nothing by any other path.
pub proof fn law_path_asks_for_its_page(path: Seq<char>)
    ensures
        route_of(path) is Health <==> path == "/healthz"@,
        route_of(path) is Index <==> path == "/"@,
        route_of(path) is Run <==> "/run/"@.is_prefix_of(path),
        route_of(path) matches RouteView::Run(run) ==> {
            let asked = path.skip(5);
            &&& run.is_prefix_of(asked)
            &&& run.len() < asked.len() ==> !names::is_safe(asked[run.len() as int])
        },
{
    reveal_strlit("/run/");
    reveal_strlit("/healthz");
    reveal_strlit("/");
    let prefix = "/run/"@;
    assert("/healthz"@[1] == 'h');
    if prefix.is_prefix_of(path) {
        assert(path.take(5) =~= prefix);
        assert(path[1] == prefix[1]);
    }
    if path.len() >= 5 && path.take(5) == prefix {
        assert(prefix.is_prefix_of(path));
    }
    lemma_leading_is_longest(path.skip(5), |c: char| names::is_safe(c));
}

/// Draws are counted one by one.
pub proof fn law_draws_add_up(a: Seq<EventView>, e: EventView)
    ensures
        draws(Seq::empty()) == 0,
        draws(a.push(e)) == draws(a) + (if e is OracleDraw {
            1nat
        } else {
            0nat
        }),
{
    assert(a.push(e).drop_last() =~= a);
}

/// The totals of the index are sums over the runs: each run that can be opened
/// adds its steps, its open intents, and one if its chain is intact; one that
/// cannot be opened adds nothing.
pub proof fn law_totals_add_up(runs: Seq<ListedView>, l: ListedView)
    ensures
        ({
            let more = runs.push(l);
            match l.journal {
                Ok(j) => {
                    &&& total_steps(more) == total_steps(runs) + j.events().len()
                    &&& total_open(more) == total_open(runs) + journal::open_intents(
                        j.events(),
                    ).len()
                    &&& j.intact() ==> total_verified(more) == total_verified(runs) + 1
                    &&& !j.intact() ==> total_verified(more) == total_verified(runs)
                },
                Err(_) => total_steps(more) == total_steps(runs) && total_open(more) == total_open(
                    runs,
                ) && total_verified(more) == total_verified(runs),
            }
        }),
        total_steps(Seq::empty()) == 0 && total_open(Seq::empty()) == 0 && total_verified(
            Seq::empty(),
        ) == 0,
{
    assert(runs.push(l).drop_last() =~= runs);
}

/// The row of a run that can be opened links to the run by the name of its
/// file, shows its id, its steps and its draws, tells whether its chain holds,
/// how many of its intents are open, and where its chain ends. The row of one
/// that cannot be opened shows its id and why.
pub proof fn law_index_row_tells_the_run(l: ListedView)
    ensures
        ({
            let row = listed_row(l);
            let run = export::escaped(names::run_named(l.run));
            &&& text::holds(row, run)
            &&& match l.journal {
                Ok(j) => {
                    let open = journal::open_intents(j.events()).len();
                    &&& text::holds(row, "<a href=\"/run/"@ + export::escaped(l.run))
                    &&& text::holds(
                        row,
                        "</a></td><td class=\"r\">"@ + text::decimal(j.events().len())
                            + "</td><td class=\"r\">"@ + text::decimal(draws(j.events())),
                    )
                    &&& j.intact() ==> text::holds(row, "<td>"@ + "verified"@)
                    &&& !j.intact() ==> text::holds(
                        row,
                        "<td>"@ + "<span class=\"alarm\">BROKEN</span>"@,
                    )
                    &&& open > 0 ==> text::holds(row, text::decimal(open) + " open</span>"@)
                    &&& open == 0 ==> text::holds(
                        row,
                        "<span class=\"faint\">settled</span>"@,
                    )
                    &&& text::holds(row, "<span class=\"faint\">"@ + cli::short_head(j, 12))
                },
                Err(e) => text::holds(row, "<span class=\"alarm\">"@ + export::escaped(e)),
            }
        }),
{
    let run = export::escaped(names::run_named(l.run));
    lemma_row_literals();
    match l.journal {
        Err(e) => {
            let why = export::escaped(e);
            let a = "<tr class=\"run\"><td class=\"name\">"@;
            let b = "</td><td colspan=\"5\"><span class=\"alarm\">"@;
            let told = b + why;
            text::lemma_holds_behind(b, "<span class=\"alarm\">"@, why);
            text::lemma_regroup(a + run, b, why);
            text::lemma_holds_itself(run);
            text::lemma_holds_in_sum(a, run, run);
            text::lemma_holds_in_sum(a + run, told, run);
            text::lemma_holds_in_sum(a + run, told, "<span class=\"alarm\">"@ + why);
            text::lemma_holds_in_sum(a + run + told, "</span></td></tr>\n"@, run);
            text::lemma_holds_in_sum(
                a + run + told,
                "</span></td></tr>\n"@,
                "<span class=\"alarm\">"@ + why,
            );
        },
        Ok(j) => lemma_opened_row(l, j),
    }
}

proof fn lemma_opened_row(l: ListedView, j: JournalView)
    requires
        l.journal == Ok::<JournalView, Seq<char>>(j),
    ensures
        ({
            let row = listed_row(l);
            let open = journal::open_intents(j.events()).len();
            &&& text::holds(row, export::escaped(names::run_named(l.run)))
            &&& text::holds(row, "<a href=\"/run/"@ + export::escaped(l.run))
            &&& text::holds(
                row,
                "</a></td><td class=\"r\">"@ + text::decimal(j.events().len())
                    + "</td><td class=\"r\">"@ + text::decimal(draws(j.events())),
            )
            &&& text::holds(row, "<td>"@ + chain_cell(j.intact()))
            &&& open > 0 ==> text::holds(row, text::decimal(open) + " open</span>"@)
            &&& open == 0 ==> text::holds(row, "<span class=\"faint\">settled</span>"@)
            &&& text::holds(row, "<span class=\"faint\">"@ + cli::short_head(j, 12))
        }),
{
    lemma_row_literals();
    let run = export::escaped(names::run_named(l.run));
    let link = export::escaped(l.run);
    let open = open_count(j);
    let steps = text::decimal(j.entries.len());
    let drawn = text::decimal(draws(j.events()));
    let chain = chain_cell(j.intact());
    let effects = effects_cell(open);
    let head = cli::short_head(j, 12);
    let p0 = "<tr class=\"run\"><td class=\"name\"><a href=\"/run/"@;
    let p2 = "</a></td><td class=\"r\">"@;
    let p3 = "</td><td class=\"r\">"@;
    let p4 = "</td><td>"@;
    let p5 = "</td><td><span class=\"faint\">"@;
    let first = p0 + link;
    let counts = p2 + steps + p3 + drawn;
    let held = p4 + chain;
    let ends = p5 + head;
    let a = first + "\">"@;
    let b = a + run;
    let c = b + counts;
    let d = c + held;
    let e = d + p4;
    let f = e + effects;
    let g = f + ends;
    let row = g + "</span></td></tr>\n"@;
    assert(listed_row(l) == row) by {
        text::lemma_regroup(b, p2, steps);
        text::lemma_regroup(b, p2 + steps, p3);
        text::lemma_regroup(b, p2 + steps + p3, drawn);
        text::lemma_regroup(c, p4, chain);
        text::lemma_regroup(f, p5, head);
    }
    text::lemma_holds_behind(p0, "<a href=\"/run/"@, link);
    text::lemma_holds_behind(p4, "<td>"@, chain);
    text::lemma_holds_behind(p5, "<span class=\"faint\">"@, head);
    text::lemma_holds_itself(run);
    text::lemma_holds_itself(counts);
    text::lemma_holds_itself(effects);
    let many = text::decimal(open) + " open</span>"@;
    text::lemma_holds_itself(many);
    text::lemma_holds_in_sum("<span class=\"alarm\">"@, many, many);
    text::lemma_regroup("<span class=\"alarm\">"@, text::decimal(open), " open</span>"@);
    assert forall|part: Seq<char>|
        text::holds(first, part) || text::holds(run, part) || text::holds(counts, part)
            || text::holds(held, part) || text::holds(effects, part) || text::holds(
            ends,
            part,
        ) implies #[trigger] text::holds(row, part) by {
        text::lemma_holds_in_sum(first, "\">"@, part);
        text::lemma_holds_in_sum(a, run, part);
        text::lemma_holds_in_sum(b, counts, part);
        text::lemma_holds_in_sum(c, held, part);
        text::lemma_holds_in_sum(d, p4, part);
        text::lemma_holds_in_sum(e, effects, part);
        text::lemma_holds_in_sum(f, ends, part);
        text::lemma_holds_in_sum(g, "</span></td></tr>\n"@, part);
    }
}

proof fn lemma_row_literals()
    ensures
        "<a href=\"/run/"@.is_suffix_of("<tr class=\"run\"><td class=\"name\"><a href=\"/run/"@),
        "<td>"@.is_suffix_of("</td><td>"@),
        "<span class=\"faint\">"@.is_suffix_of("</td><td><span class=\"faint\">"@),
        "<span class=\"alarm\">"@.is_suffix_of(
            "</td><td colspan=\"5\"><span class=\"alarm\">"@,
        ),
{
    assert("<a href=\"/run/"@.is_suffix_of(
        "<tr class=\"run\"><td class=\"name\"><a href=\"/run/"@,
    )) by {
        reveal_strlit("<a href=\"/run/");
        reveal_strlit("<tr class=\"run\"><td class=\"name\"><a href=\"/run/");
    }
    assert("<td>"@.is_suffix_of("</td><td>"@)) by {
        reveal_strlit("<td>");
        reveal_strlit("</td><td>");
    }
    assert("<span class=\"faint\">"@.is_suffix_of("</td><td><span class=\"faint\">"@)) by {
        reveal_strlit("<span class=\"faint\">");
        reveal_strlit("</td><td><span class=\"faint\">");
    }
    assert("<span class=\"alarm\">"@.is_suffix_of(
        "</td><td colspan=\"5\"><span class=\"alarm\">"@,
    )) by {
        reveal_strlit("<span class=\"alarm\">");
        reveal_strlit("</td><td colspan=\"5\"><span class=\"alarm\">");
    }
}

/// The index has a row for every run, and tells how many there are, what they
/// have journaled, how many chains hold and how many intents are open.
pub proof fn law_index_shows_every_run(runs: Seq<ListedView>, dir: Seq<char>, i: int)
    ensures
        ({
            let page = index_html(runs, dir);
            let n = text::decimal(runs.len());
            &&& 0 <= i < runs.len() ==> text::holds(page, listed_row(runs[i]))
            &&& text::holds(page, n + "</b> runs</div>\n  <div><b>"@)
            &&& text::holds(
                page,
                text::decimal(total_steps(runs)) + "</b> journaled steps</div>\n  <div>chains <b>"@,
            )
            &&& text::holds(
                page,
                text::decimal(total_verified(runs)) + "/"@ + n + "</b> verified</div>\n  "@,
            )
            &&& total_open(runs) > 0 ==> text::holds(
                page,
                text::decimal(total_open(runs)) + " OPEN INTENT(S)</span></div>"@,
            )
            &&& text::holds(page, "\n  <div>dir <b>"@ + export::escaped(dir))
        }),
{
    let n = text::decimal(runs.len());
    let q1 = "</b> runs</div>\n  <div><b>"@;
    let q2 = "</b> journaled steps</div>\n  <div>chains <b>"@;
    let q3 = "</b> verified</div>\n  "@;
    let q4 = "\n  <div>dir <b>"@;
    let open = if total_open(runs) > 0 {
        "<div><span class=\"alarm\">"@ + text::decimal(total_open(runs))
            + " OPEN INTENT(S)</span></div>"@
    } else {
        Seq::empty()
    };
    let t0 =
        "<table><tr><th>run</th><th class=\"r\">steps</th><th class=\"r\">draws</th><th>chain</th><th>effects</th><th>head</th></tr>"@;
    let table = if runs.len() == 0 {
        "<div class=\"empty\">no journals in this directory - point an agent's runtime here and runs appear as they record</div>"@
    } else {
        t0 + listed_rows(runs) + "</table>"@
    };
    let start = export::masthead_html("runs"@, "live - refresh to follow"@)
        + "\n<div class=\"facts\">\n  <div><b>"@;
    let count = n + q1;
    let steps = text::decimal(total_steps(runs)) + q2;
    let held = text::decimal(total_verified(runs)) + "/"@ + n + q3;
    let place = q4 + export::escaped(dir);
    let a = start + count;
    let b = a + steps;
    let c = b + held;
    let d = c + open;
    let e = d + place;
    let f = e + "</b></div>\n</div>\n"@;
    let body = f + table;
    let top = export::TOP@ + "pragmatic console"@ + export::CONSOLE_STYLE@;
    let page = top + body + "\n</div>\n</body>\n</html>\n"@;
    assert(index_html(runs, dir) == page) by {
        let v = text::decimal(total_verified(runs));
        text::lemma_regroup(start, n, q1);
        text::lemma_regroup(a, text::decimal(total_steps(runs)), q2);
        text::lemma_regroup(b, v, "/"@);
        text::lemma_regroup(b, v + "/"@, n);
        text::lemma_regroup(b, v + "/"@ + n, q3);
        text::lemma_regroup(d, q4, export::escaped(dir));
    }
    let many = text::decimal(total_open(runs)) + " OPEN INTENT(S)</span></div>"@;
    text::lemma_holds_itself(many);
    text::lemma_holds_in_sum("<div><span class=\"alarm\">"@, many, many);
    text::lemma_regroup(
        "<div><span class=\"alarm\">"@,
        text::decimal(total_open(runs)),
        " OPEN INTENT(S)</span></div>"@,
    );
    text::lemma_holds_itself(count);
    text::lemma_holds_itself(steps);
    text::lemma_holds_itself(held);
    text::lemma_holds_itself(place);
    if 0 <= i < runs.len() {
        let row = listed_row(runs[i]);
        lemma_rows_hold(runs, i);
        text::lemma_holds_in_sum(t0, listed_rows(runs), row);
        text::lemma_holds_in_sum(t0 + listed_rows(runs), "</table>"@, row);
    }
    assert forall|part: Seq<char>|
        text::holds(count, part) || text::holds(steps, part) || text::holds(held, part)
            || text::holds(open, part) || text::holds(place, part) || text::holds(
            table,
            part,
        ) implies #[trigger] text::holds(page, part) by {
        text::lemma_holds_in_sum(start, count, part);
        text::lemma_holds_in_sum(a, steps, part);
        text::lemma_holds_in_sum(b, held, part);
        text::lemma_holds_in_sum(c, open, part);
        text::lemma_holds_in_sum(d, place, part);
        text::lemma_holds_in_sum(e, "</b></div>\n</div>\n"@, part);
        text::lemma_holds_in_sum(f, table, part);
        text::lemma_holds_in_sum(top, body, part);
        text::lemma_holds_in_sum(top + body, "\n</div>\n</body>\n</html>\n"@, part);
    }
}

proof fn lemma_rows_hold(runs: Seq<ListedView>, i: int)
    requires
        0 <= i < runs.len(),
    ensures
        text::holds(listed_rows(runs), listed_row(runs[i])),
    decreases runs.len(),
{
    let before = runs.drop_last();
    if i < before.len() {
        assert(before[i] == runs[i]);
        lemma_rows_hold(before, i);
    } else {
        text::lemma_holds_itself(listed_row(runs[i]));
    }
    text::lemma_holds_in_sum(listed_rows(before), listed_row(runs.last()), listed_row(runs[i]));
}

/// A response starts with its status, tells the kind of its body and how many
/// bytes it has, and ends in it.
pub proof fn law_response_carries_its_body(status: &str, kind: &str, body: &str, r: String)
    requires
        call_ensures(respond, (status, kind, body), r),
    ensures
        ("HTTP/1.1 "@ + status@).is_prefix_of(r@),
        text::holds(r@, "\r\ncontent-type: "@ + kind@),
        text::holds(r@, "content-length: "@ + text::decimal(encode_utf8(body@).len())),
        ("\r\n\r\n"@ + body@).is_suffix_of(r@),
{
    let size = text::decimal(encode_utf8(body@).len());
    let a = "HTTP/1.1 "@ + status@;
    let b = "\r\ncontent-type: "@ + kind@;
    let w = "; charset=utf-8\r\ncontent-length: "@;
    let c = w + size;
    let x = "\r\nconnection: close\r\n\r\n"@;
    assert("content-length: "@.is_suffix_of(w)) by {
        reveal_strlit("content-length: ");
        reveal_strlit("; charset=utf-8\r\ncontent-length: ");
    }
    assert("\r\n\r\n"@.is_suffix_of(x)) by {
        reveal_strlit("\r\n\r\n");
        reveal_strlit("\r\nconnection: close\r\n\r\n");
    }
    text::lemma_holds_behind(w, "content-length: "@, size);
    text::lemma_holds_itself(b);
    let ab = a + b;
    let abc = ab + c;
    let abcx = abc + x;
    assert(r@ == abcx + body@) by {
        text::lemma_regroup(a, "\r\ncontent-type: "@, kind@);
        text::lemma_regroup(ab, w, size);
    }
    let length = "content-length: "@ + size;
    text::lemma_holds_in_sum(a, b, b);
    text::lemma_holds_in_sum(ab, c, b);
    text::lemma_holds_in_sum(ab, c, length);
    text::lemma_holds_in_sum(abc, x, b);
    text::lemma_holds_in_sum(abc, x, length);
    text::lemma_holds_in_sum(abcx, body@, b);
    text::lemma_holds_in_sum(abcx, body@, length);
    assert(r@.take(a.len() as int) =~= a);
    let end = "\r\n\r\n"@ + body@;
    assert(r@.skip(r@.len() - end.len()) =~= end) by {
        assert(x.skip(x.len() - "\r\n\r\n"@.len()) =~= "\r\n\r\n"@);
        assert forall|i: int| 0 <= i < "\r\n\r\n"@.len() implies r@[r@.len() - end.len() + i]
            == "\r\n\r\n"@[i] by {
            assert(x.skip(x.len() - "\r\n\r\n"@.len())[i] == "\r\n\r\n"@[i]);
        }
    }
}

/// A request is answered by the page of what it asks for: the probe and the
/// index always, a run if its journal can be opened; what cannot be shown is
/// not found, and why is told.
pub proof fn law_requests_are_answered(
    run: &str,
    journal: &Result<Journal, String>,
    runs: &Vec<Listed>,
    dir: &str,
    page: String,
    index: String,
    health: String,
    unknown: String,
)
    requires
        call_ensures(run_response, (run, journal), page),
        call_ensures(index_response, (runs, dir), index),
        call_ensures(health_response, (), health),
        call_ensures(unknown_response, (), unknown),
    ensures
        ({
            let found = "HTTP/1.1 "@ + "200 OK"@;
            let missing = "HTTP/1.1 "@ + "404 Not Found"@;
            &&& match *journal {
                Ok(j) => found.is_prefix_of(page@) && export::page_html(
                    names::run_named(run@),
                    j@,
                ).is_suffix_of(page@),
                Err(e) => missing.is_prefix_of(page@) && e@.is_suffix_of(page@),
            }
            &&& found.is_prefix_of(index@) && index_html(
                listed_views(runs@),
                dir@,
            ).is_suffix_of(index@)
            &&& found.is_prefix_of(health@)
            &&& missing.is_prefix_of(unknown@)
        }),
{
    let found = "200 OK"@;
    let missing = "404 Not Found"@;
    lemma_response(found, "text/plain"@, "ok"@);
    lemma_response(missing, "text/plain"@, "not found"@);
    lemma_response(found, "text/html"@, index_html(listed_views(runs@), dir@));
    match *journal {
        Ok(j) => lemma_response(
            found,
            "text/html"@,
            export::page_html(names::run_named(run@), j@),
        ),
        Err(e) => {
            let body = "no such run '"@ + names::run_named(run@) + "': "@ + e@;
            lemma_response(missing, "text/plain"@, body);
            assert(page@.skip(page@.len() - e@.len()) =~= e@) by {
                assert(page@.skip(page@.len() - body.len()) =~= body);
                assert forall|i: int| 0 <= i < e@.len() implies page@[page@.len() - e@.len() + i]
                    == e@[i] by {
                    let k = body.len() - e@.len() + i;
                    assert(page@.skip(page@.len() - body.len())[k] == body[k]);
                }
            }
        },
    }
}

proof fn lemma_response(status: Seq<char>, kind: Seq<char>, body: Seq<char>)
    ensures
        ("HTTP/1.1 "@ + status).is_prefix_of(response_text(status, kind, body)),
        body.is_suffix_of(response_text(status, kind, body)),
{
    let r = response_text(status, kind, body);
    let a = "HTTP/1.1 "@ + status;
    assert(r.take(a.len() as int) =~= a);
    assert(r.skip(r.len() - body.len()) =~= body);
}

/// A request without a second word asks for the index.
pub proof fn law_request_without_a_path_asks_for_the_index(word_only: Seq<char>)
    requires
        forall|i: int| 0 <= i < word_only.len() ==> !is_white(#[trigger] word_only[i]),
    ensures
        path_of(word_only) == "/"@,
        route_of(path_of(word_only)) is Index,
{
    let s = word_only;
    let n = s.len() as int;
    assert forall|i: int| 0 <= i < n implies #[trigger] s[i] != '\n' by {
        assert(is_white('\n'));
    }
    lemma_leading(s, |c: char| c != '\n', n);
    assert(s.take(n) =~= s);
    lemma_leading(s, |c: char| is_white(c), 0);
    assert(trimmed(s) =~= s);
    lemma_leading(s, |c: char| !is_white(c), n);
    let rest = s.skip(n);
    assert(rest.len() == 0);
    assert(leading(rest, |c: char| is_white(c)).len() == 0);
    assert(trimmed(rest).len() == 0);
    law_path_asks_for_its_page("/"@);
}

/// White space is the tab, the line ends and the space, the two of Latin-1, and
/// the spaces and separators of the general punctuation and of the scripts that
/// have their own.
pub proof fn law_white_space(c: char)
    ensures
        is_white(c) <==> c == '\t' || c == '\n' || c == '\u{b}' || c == '\u{c}' || c == '\r' || c
            == ' ' || c == '\u{85}' || c == '\u{a0}' || c == '\u{1680}' || '\u{2000}' <= c
            <= '\u{200a}' || c == '\u{2028}' || c == '\u{2029}' || c == '\u{202f}' || c
            == '\u{205f}' || c == '\u{3000}',
{
}

} // verus!
