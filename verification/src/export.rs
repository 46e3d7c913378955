//! Self-contained HTML replay console: one run's journal as a browsable
//! timeline. No external assets, opens anywhere, safe to attach to an incident
//! ticket.
use vstd::prelude::*;

use crate::event::{Event, EventView};
use crate::journal;
use crate::journal::{EntryView, Journal, JournalView};
use crate::sha256;
use crate::text;

verus! {

/// What stands for a character in HTML text and attribute values.
pub open spec fn escaped_char(c: char) -> Seq<char> {
    if c == '&' {
        "&amp;"@
    } else if c == '<' {
        "&lt;"@
    } else if c == '>' {
        "&gt;"@
    } else if c == '"' {
        "&quot;"@
    } else {
        seq![c]
    }
}

/// `s` with the characters that HTML reserves escaped.
pub open spec fn escaped(s: Seq<char>) -> Seq<char> {
    text::flat_map(s, |c: char| escaped_char(c))
}

/// Escapes the characters that HTML reserves.
pub fn esc(s: &str) -> (r: String)
    ensures
        r@ == escaped(s@),
{
    let mut out = String::new();
    assert(s@.take(0) =~= Seq::empty());
    for c in it: s.chars()
        invariant
            it.seq() == s@,
            out@ == escaped(s@.take(it.index() as int)),
    {
        let ghost k = it.index() as int;
        let ghost before = out@;
        assert(s@[k] == c);
        assert(s@.take(k + 1).drop_last() =~= s@.take(k));
        assert(s@.take(k + 1).last() == c);
        if c == '&' {
            out.append("&amp;");
        } else if c == '<' {
            out.append("&lt;");
        } else if c == '>' {
            out.append("&gt;");
        } else if c == '"' {
            out.append("&quot;");
        } else {
            out.push(c);
            assert(out@ =~= before + seq![c]);
        }
    }
    assert(s@.take(s@.len() as int) =~= s@);
    out
}

/// Escaped text holds none of the characters `<`, `>` and `"`: it can neither
/// open an element nor leave an attribute value.
pub proof fn law_escaped_text_is_inert(s: Seq<char>)
    ensures
        forall|i: int|
            0 <= i < escaped(s).len() ==> (#[trigger] escaped(s)[i]) != '<' && escaped(s)[i] != '>'
                && escaped(s)[i] != '"',
    decreases s.len(),
{
    if s.len() > 0 {
        law_escaped_text_is_inert(s.drop_last());
        reveal_strlit("&amp;");
        reveal_strlit("&lt;");
        reveal_strlit("&gt;");
        reveal_strlit("&quot;");
        let head = escaped(s.drop_last());
        let tail = escaped_char(s.last());
        assert(escaped(s) == head + tail);
        assert forall|i: int| 0 <= i < escaped(s).len() implies (#[trigger] escaped(s)[i]) != '<'
            && escaped(s)[i] != '>' && escaped(s)[i] != '"' by {
            if i < head.len() {
                assert(escaped(s)[i] == head[i]);
            } else {
                assert(escaped(s)[i] == tail[i - head.len()]);
            }
        }
    }
}

/// One entry of the timeline.
pub struct Row {
    pub kind: String,
    pub title: String,
    pub body: String,
    pub meta: String,
}

/// What a [`Row`] says.
#[verifier::ext_equal]
pub struct RowView {
    pub kind: Seq<char>,
    pub title: Seq<char>,
    pub body: Seq<char>,
    pub meta: Seq<char>,
}

impl View for Row {
    type V = RowView;

    open spec fn view(&self) -> RowView {
        RowView { kind: self.kind@, title: self.title@, body: self.body@, meta: self.meta@ }
    }
}

/// A code span after a label.
pub open spec fn labelled(label: Seq<char>, name: Seq<char>) -> Seq<char> {
    label + " <code>"@ + escaped(name) + "</code>"@
}

/// A preformatted value.
pub open spec fn preformatted(v: Seq<u8>) -> Seq<char> {
    "<pre>"@ + escaped(text::lossy_text(v)) + "</pre>"@
}

/// The timeline entry of an event.
pub open spec fn row_view(e: EventView) -> RowView {
    let none = Seq::<char>::empty();
    match e {
        EventView::Program { name, hash } => RowView {
            kind: "program"@,
            title: labelled("program"@, name),
            body: none,
            meta: "source hash "@ + escaped(hash),
        },
        EventView::OracleDraw { prompt, outcome, provenance } => RowView {
            kind: "oracle"@,
            title: "oracle draw"@,
            body: "<div class=\"lbl\">prompt</div>"@ + preformatted(prompt)
                + "<div class=\"lbl\">outcome</div>"@ + preformatted(outcome),
            meta: escaped(provenance),
        },
        EventView::ChannelRecv { channel, value } => RowView {
            kind: "recv"@,
            title: labelled("receive on"@, channel),
            body: preformatted(value),
            meta: none,
        },
        EventView::EffectIntent { name, arg } => RowView {
            kind: "intent"@,
            title: labelled("effect intent"@, name),
            body: preformatted(arg),
            meta: "write-ahead: journaled before the world changed"@,
        },
        EventView::EffectCommit { name, result } => RowView {
            kind: "commit"@,
            title: labelled("effect committed"@, name),
            body: preformatted(result),
            meta: none,
        },
        EventView::EffectCompensated { name } => RowView {
            kind: "compensated"@,
            title: labelled("effect compensated"@, name),
            body: none,
            meta: "saga rollback — replay will not double-undo"@,
        },
        EventView::Clock { nanos } => RowView {
            kind: "clock"@,
            title: "clock read"@,
            body: "<pre>"@ + text::decimal(nanos as nat) + " ns since epoch</pre>"@,
            meta: none,
        },
    }
}

fn label(text: &str, name: &str) -> (r: String)
    ensures
        r@ == labelled(text@, name@),
{
    text.to_owned().concat(" <code>").concat(esc(name).as_str()).concat("</code>")
}

fn pre(v: &crate::value::Value) -> (r: String)
    ensures
        r@ == preformatted(v@),
{
    "<pre>".to_owned().concat(esc(v.as_str().as_str()).as_str()).concat("</pre>")
}

/// The timeline entry of an event.
pub fn row(event: &Event) -> (r: Row)
    ensures
        r@ == row_view(event@),
{
    match event {
        Event::Program { name, hash } => Row {
            kind: "program".to_owned(),
            title: label("program", name.as_str()),
            body: String::new(),
            meta: "source hash ".to_owned().concat(esc(hash.as_str()).as_str()),
        },
        Event::OracleDraw { prompt, outcome, provenance } => Row {
            kind: "oracle".to_owned(),
            title: "oracle draw".to_owned(),
            body: "<div class=\"lbl\">prompt</div>".to_owned().concat(
                pre(prompt).as_str(),
            ).concat("<div class=\"lbl\">outcome</div>").concat(pre(outcome).as_str()),
            meta: esc(provenance.as_str()),
        },
        Event::ChannelRecv { channel, value } => Row {
            kind: "recv".to_owned(),
            title: label("receive on", channel.as_str()),
            body: pre(value),
            meta: String::new(),
        },
        Event::EffectIntent { name, arg } => Row {
            kind: "intent".to_owned(),
            title: label("effect intent", name.as_str()),
            body: pre(arg),
            meta: "write-ahead: journaled before the world changed".to_owned(),
        },
        Event::EffectCommit { name, result } => Row {
            kind: "commit".to_owned(),
            title: label("effect committed", name.as_str()),
            body: pre(result),
            meta: String::new(),
        },
        Event::EffectCompensated { name } => Row {
            kind: "compensated".to_owned(),
            title: label("effect compensated", name.as_str()),
            body: String::new(),
            meta: "saga rollback — replay will not double-undo".to_owned(),
        },
        Event::Clock { nanos } => Row {
            kind: "clock".to_owned(),
            title: "clock read".to_owned(),
            body: "<pre>".to_owned().concat(text::decimal_text(*nanos).as_str()).concat(
                " ns since epoch</pre>",
            ),
            meta: String::new(),
        },
    }
}

/// `s` in a `div` of a class, unless it is empty.
pub open spec fn section(class: Seq<char>, s: Seq<char>) -> Seq<char> {
    if s.len() == 0 {
        s
    } else {
        "<div class=\""@ + class + "\">"@ + s + "</div>"@
    }
}

fn in_section(class: &str, s: &str) -> (r: String)
    ensures
        r@ == section(class@, s@),
{
    if s.is_empty() {
        s.to_owned()
    } else {
        "<div class=\"".to_owned().concat(class).concat("\">").concat(s).concat("</div>")
    }
}

/// The HTML of the entry at `cursor`.
pub open spec fn entry_html(cursor: nat, e: EntryView) -> Seq<char> {
    let r = row_view(e.event);
    let hash = sha256::hex_spec(e.hash);
    "<div class=\"entry "@ + r.kind + "\"><div class=\"head\"><span class=\"cursor\">#"@
        + text::decimal(cursor) + "</span><span class=\"badge "@ + r.kind + "\">"@ + r.kind
        + "</span><span class=\"title\">"@ + r.title + "</span><span class=\"hash\" title=\""@
        + hash + "\">"@ + hash.take(16) + "</span></div>"@ + section("body"@, r.body) + section(
        "meta"@,
        r.meta,
    ) + "</div>\n"@
}

/// The HTML of all entries.
pub open spec fn entries_html(entries: Seq<EntryView>) -> Seq<char>
    decreases entries.len(),
{
    if entries.len() == 0 {
        Seq::empty()
    } else {
        entries_html(entries.drop_last()) + entry_html(
            (entries.len() - 1) as nat,
            entries.last(),
        )
    }
}

/// The first `n` characters of a hex digest.
pub fn hex_prefix(hash: &sha256::Digest, n: usize) -> (r: String)
    requires
        n <= 64,
    ensures
        r@ == sha256::hex_spec(hash@).take(n as int),
{
    let s = sha256::hex(hash);
    proof {
        lemma_hex_len(hash@);
    }
    let head = s.as_str().substring_char(0, n);
    assert(head@ =~= s@.take(n as int));
    head.to_owned()
}

/// Two digits stand for every byte.
pub proof fn lemma_hex_len(b: Seq<u8>)
    ensures
        sha256::hex_spec(b).len() == 2 * b.len(),
    decreases b.len(),
{
    if b.len() > 0 {
        lemma_hex_len(b.drop_last());
    }
}

fn render_entry(e: &journal::Entry) -> (r: String)
    ensures
        r@ == entry_html(e.cursor as nat, e@),
{
    let line = row(&e.event);
    let hash = sha256::hex(&e.hash);
    let short = hex_prefix(&e.hash, 16);
    let kind = line.kind.as_str();
    "<div class=\"entry ".to_owned().concat(kind).concat(
        "\"><div class=\"head\"><span class=\"cursor\">#",
    ).concat(text::decimal_text(e.cursor).as_str()).concat("</span><span class=\"badge ").concat(
        kind,
    ).concat("\">").concat(kind).concat("</span><span class=\"title\">").concat(
        line.title.as_str(),
    ).concat("</span><span class=\"hash\" title=\"").concat(hash.as_str()).concat("\">").concat(
        short.as_str(),
    ).concat("</span></div>").concat(in_section("body", line.body.as_str()).as_str()).concat(
        in_section("meta", line.meta.as_str()).as_str(),
    ).concat("</div>\n")
}

/// The head of the chain in hexadecimal; a dash for an empty journal.
pub open spec fn head_text(j: JournalView) -> Seq<char> {
    if j.entries.len() == 0 {
        "—"@
    } else {
        sha256::hex_spec(j.entries.last().hash)
    }
}

/// What the page says of the chain.
pub open spec fn chain_badge(intact: bool) -> Seq<char> {
    if intact {
        "<span class=\"chain ok\">chain verified</span>"@
    } else {
        "<span class=\"chain bad\">CHAIN BROKEN</span>"@
    }
}

/// What the page says of dangling intents.
pub open spec fn dangling_badge(n: nat) -> Seq<char> {
    if n > 0 {
        "<span class=\"chain warn\">"@ + text::decimal(n)
            + " dangling intent(s) — crashed mid-effect</span>"@
    } else {
        Seq::empty()
    }
}

/// The page up to its title.
pub const TOP: &'static str = "<!doctype html>
<html lang=\"en\">
<head>
<meta charset=\"utf-8\">
<meta name=\"viewport\" content=\"width=device-width, initial-scale=1\">
<title>";

/// The page from its title to its heading.
pub const STYLE: &'static str = " — pragmatic replay</title>
<style>
  :root {
    --bg: #0b0e14; --panel: #11151f; --line: #1e2530; --text: #d7dde8;
    --dim: #7b8496; --accent: #7aa2f7;
    --oracle: #7aa2f7; --intent: #e0af68; --commit: #9ece6a; --recv: #bb9af7;
    --compensated: #f7768e; --clock: #565f89; --program: #2ac3de;
  }
  * { box-sizing: border-box; }
  body { margin: 0; background: var(--bg); color: var(--text);
         font: 15px/1.5 ui-sans-serif, system-ui, -apple-system, sans-serif; }
  .wrap { max-width: 880px; margin: 0 auto; padding: 40px 20px 80px; }
  h1 { font-size: 20px; margin: 0 0 4px; }
  h1 code { color: var(--accent); }
  .sub { color: var(--dim); font-size: 13px; margin-bottom: 8px; word-break: break-all; }
  .chips { margin: 14px 0 28px; display: flex; gap: 8px; flex-wrap: wrap; }
  .chain { font-size: 12px; padding: 3px 10px; border-radius: 999px; font-weight: 600; }
  .chain.ok { background: #1c2b1e; color: #9ece6a; }
  .chain.bad { background: #34191f; color: #f7768e; }
  .chain.warn { background: #332a18; color: #e0af68; }
  .entry { background: var(--panel); border: 1px solid var(--line);
            border-left: 3px solid var(--dim); border-radius: 8px;
            padding: 12px 16px; margin-bottom: 10px; }
  .entry.oracle { border-left-color: var(--oracle); }
  .entry.intent { border-left-color: var(--intent); }
  .entry.commit { border-left-color: var(--commit); }
  .entry.recv { border-left-color: var(--recv); }
  .entry.compensated { border-left-color: var(--compensated); }
  .entry.clock { border-left-color: var(--clock); }
  .entry.program { border-left-color: var(--program); }
  .head { display: flex; align-items: baseline; gap: 10px; }
  .cursor { color: var(--dim); font-family: ui-monospace, monospace; font-size: 12px; min-width: 34px; }
  .badge { font-size: 11px; font-weight: 700; text-transform: uppercase; letter-spacing: .05em; }
  .badge.oracle { color: var(--oracle); } .badge.intent { color: var(--intent); }
  .badge.commit { color: var(--commit); } .badge.recv { color: var(--recv); }
  .badge.compensated { color: var(--compensated); } .badge.clock { color: var(--clock); }
  .badge.program { color: var(--program); }
  .title { flex: 1; } .title code { color: var(--text); }
  .hash { color: var(--dim); font-family: ui-monospace, monospace; font-size: 11px; }
  .body { margin-top: 10px; }
  .lbl { color: var(--dim); font-size: 11px; text-transform: uppercase;
          letter-spacing: .06em; margin: 8px 0 2px; }
  pre { background: #0d1118; border: 1px solid var(--line); border-radius: 6px;
        padding: 8px 12px; margin: 2px 0; white-space: pre-wrap;
        word-break: break-word; font: 13px/1.5 ui-monospace, monospace; }
  .meta { color: var(--dim); font-size: 12px; margin-top: 8px; }
  footer { color: var(--dim); font-size: 12px; margin-top: 40px; text-align: center; }
  footer a { color: var(--accent); text-decoration: none; }
</style>
</head>
<body>
<div class=\"wrap\">
  <h1>run <code>";

/// The page from its last entry to its end.
pub const BOTTOM: &'static str = "
  <footer>append-only, hash-chained journal · exported by
    <a href=\"https://github.com/pragmaticco/pragmaticMain\">pragmatic</a> —
    durable execution for nondeterministic agents</footer>
</div>
</body>
</html>
";

/// The page of a run.
pub open spec fn page_html(run_id: Seq<char>, j: JournalView) -> Seq<char> {
    TOP@ + escaped(run_id) + STYLE@ + escaped(run_id) + "</code></h1>
  <div class=\"sub\">"@ + text::decimal(
        j.entries.len(),
    ) + " journaled steps · chain head "@ + head_text(j) + "</div>
  <div class=\"chips\">"@ + chain_badge(j.intact()) + dangling_badge(
        journal::open_intents(j.events()).len(),
    ) + "</div>
  "@ + entries_html(j.entries) + BOTTOM@
}

/// The page of a run: its chain status, its dangling intents and a full
/// timeline.
pub fn render(run_id: &str, j: &Journal) -> (r: String)
    ensures
        r@ == page_html(run_id@, j@),
{
    let verified: bool = is_intact(j);
    let head = match j.head() {
        Some(h) => sha256::hex(&h),
        None => "—".to_owned(),
    };
    let dangling: usize = j.dangling_intents().len();
    let rows = render_entries(j);
    let chain = if verified {
        "<span class=\"chain ok\">chain verified</span>"
    } else {
        "<span class=\"chain bad\">CHAIN BROKEN</span>"
    };
    let warning = if dangling > 0 {
        "<span class=\"chain warn\">".to_owned().concat(
            text::decimal_text(dangling as u64).as_str(),
        ).concat(" dangling intent(s) — crashed mid-effect</span>")
    } else {
        String::new()
    };
    let run = esc(run_id);
    let top: &str = TOP;
    let style: &str = STYLE;
    let bottom: &str = BOTTOM;
    top.to_owned().concat(run.as_str()).concat(style).concat(run.as_str()).concat(
        "</code></h1>
  <div class=\"sub\">",
    ).concat(text::decimal_text(j.len()).as_str()).concat(" journaled steps · chain head ").concat(
        head.as_str(),
    ).concat("</div>
  <div class=\"chips\">").concat(chain).concat(warning.as_str()).concat(
        "</div>
  ",
    ).concat(rows.as_str()).concat(bottom)
}

/// The console page from its title to its body.
pub const CONSOLE_STYLE: &'static str = "</title>
<style>
  :root {
    --bg: #0b0e14; --line: #1e2530; --text: #d7dde8; --dim: #7b8496;
    --accent: #7aa2f7; --alarm: #f7768e;
  }
  body { margin: 0; background: var(--bg); color: var(--text);
         font: 15px/1.5 ui-sans-serif, system-ui, -apple-system, sans-serif; }
  .wrap { max-width: 880px; margin: 0 auto; padding: 40px 20px 80px; }
  a { color: var(--accent); text-decoration: none; }
  .mast { display: flex; align-items: baseline; gap: 10px; }
  .mast h1 { font-size: 20px; margin: 0; flex: 1; }
  .facts { display: flex; gap: 18px; flex-wrap: wrap; margin: 14px 0 28px; color: var(--dim); }
  .alarm { color: var(--alarm); font-weight: 600; }
  .faint, .empty { color: var(--dim); }
  table { width: 100%; border-collapse: collapse; }
  th, td { text-align: left; padding: 6px 10px; border-bottom: 1px solid var(--line); }
  .r { text-align: right; }
</style>
</head>
<body>
<div class=\"wrap\">
";

/// The head of a console page: what it shows, and a note.
pub open spec fn masthead_html(section: Seq<char>, note: Seq<char>) -> Seq<char> {
    "<div class=\"mast\"><h1>pragmatic <code>"@ + section + "</code></h1><span class=\"faint\">"@
        + note + "</span></div>"@
}

/// The head of a console page: what it shows, and a note.
pub fn masthead(section: &str, note: &str) -> (r: String)
    ensures
        r@ == masthead_html(section@, note@),
{
    "<div class=\"mast\"><h1>pragmatic <code>".to_owned().concat(section).concat(
        "</code></h1><span class=\"faint\">",
    ).concat(note).concat("</span></div>")
}

/// A console page.
pub open spec fn console_html(title: Seq<char>, body: Seq<char>) -> Seq<char> {
    TOP@ + title + CONSOLE_STYLE@ + body + "\n</div>\n</body>\n</html>\n"@
}

/// A console page.
pub fn page(title: &str, body: &str) -> (r: String)
    ensures
        r@ == console_html(title@, body@),
{
    let top: &str = TOP;
    let style: &str = CONSOLE_STYLE;
    top.to_owned().concat(title).concat(style).concat(body).concat("\n</div>\n</body>\n</html>\n")
}

/// Is the chain of the journal intact?
pub fn is_intact(j: &Journal) -> (r: bool)
    ensures
        r == j@.intact(),
{
    match j.verify() {
        Ok(()) => true,
        Err(c) => {
            assert(!journal::link_holds(j@.key, j@.entries, c as int));
            false
        },
    }
}

fn render_entries(j: &Journal) -> (r: String)
    ensures
        r@ == entries_html(j@.entries),
{
    let list = j.entries();
    let ghost all = j@.entries;
    let mut out = String::new();
    assert(all.take(0) =~= Seq::empty());
    let mut i: usize = 0;
    while i < list.len()
        invariant
            i <= list@.len(),
            all == journal::entry_views(list@),
            forall|k: int| 0 <= k < list@.len() ==> (#[trigger] list@[k]).cursor == k,
            out@ == entries_html(all.take(i as int)),
        decreases list@.len() - i,
    {
        let e = &list[i];
        proof {
            assert(all.take(i + 1).drop_last() =~= all.take(i as int));
            assert(all.take(i + 1).last() == e@);
        }
        let html = render_entry(e);
        out.append(html.as_str());
        i += 1;
    }
    assert(all.take(all.len() as int) =~= all);
    out
}

/// Escaping goes character by character, from the front as well.
proof fn lemma_escaped_front(s: Seq<char>)
    requires
        s.len() > 0,
    ensures
        escaped(s) == escaped_char(s[0]) + escaped(s.skip(1)),
    decreases s.len(),
{
    let none = Seq::<char>::empty();
    if s.len() == 1 {
        assert(s.drop_last() =~= none);
        assert(s.skip(1) =~= none);
        assert(escaped(none) =~= none);
        assert(escaped(s) =~= escaped_char(s[0]) + escaped(s.skip(1)));
    } else {
        lemma_escaped_front(s.drop_last());
        assert(s.drop_last().skip(1) =~= s.skip(1).drop_last());
        assert(s.skip(1).last() == s.last());
        assert(escaped(s) =~= escaped_char(s[0]) + escaped(s.skip(1)));
    }
}

/// Escaping loses nothing: different texts stay different.
pub proof fn law_escaped_text_tells_texts_apart(a: Seq<char>, b: Seq<char>)
    ensures
        escaped(a) == escaped(b) ==> a == b,
    decreases a.len(),
{
    reveal_strlit("&amp;");
    reveal_strlit("&lt;");
    reveal_strlit("&gt;");
    reveal_strlit("&quot;");
    if escaped(a) == escaped(b) {
        if a.len() > 0 {
            lemma_escaped_front(a);
        }
        if b.len() > 0 {
            lemma_escaped_front(b);
        }
        if a.len() == 0 || b.len() == 0 {
            assert(a.len() == 0 ==> escaped(a).len() == 0);
            assert(b.len() == 0 ==> escaped(b).len() == 0);
            assert(a =~= b);
        } else {
            let x = escaped_char(a[0]);
            let y = escaped_char(b[0]);
            assert(escaped(a)[0] == x[0]);
            assert(escaped(b)[0] == y[0]);
            if x[0] == '&' {
                assert(x.len() > 1 && y.len() > 1);
                assert(escaped(a)[1] == x[1]);
                assert(escaped(b)[1] == y[1]);
            }
            assert(a[0] == b[0]);
            assert(escaped(a.skip(1)) =~= escaped(a).skip(x.len() as int));
            assert(escaped(b.skip(1)) =~= escaped(b).skip(y.len() as int));
            law_escaped_text_tells_texts_apart(a.skip(1), b.skip(1));
            assert(a =~= seq![a[0]] + a.skip(1));
            assert(b =~= seq![b[0]] + b.skip(1));
        }
    }
}

/// A value, shown in full: its text, escaped, in a preformatted block.
pub open spec fn shown(v: Seq<u8>) -> Seq<char> {
    "<pre>"@ + escaped(text::lossy_text(v)) + "</pre>"@
}

/// The row of an event tells what the event holds. A draw shows its prompt
/// under the label of the prompt, its outcome under that of the outcome, and
/// where it came from; every other event shows its name and its value.
pub proof fn law_row_shows_the_event(event: &Event, r: Row)
    requires
        call_ensures(row, (event,), r),
    ensures
        match event@ {
            EventView::Program { name, hash } => text::holds(
                r.title@,
                " <code>"@ + escaped(name) + "</code>"@,
            ) && text::holds(r.meta@, escaped(hash)) && r.kind@ == "program"@,
            EventView::OracleDraw { prompt, outcome, provenance } => r.body@
                == "<div class=\"lbl\">prompt</div>"@ + shown(prompt)
                + "<div class=\"lbl\">outcome</div>"@ + shown(outcome) && text::holds(
                r.meta@,
                escaped(provenance),
            ) && r.kind@ == "oracle"@,
            EventView::ChannelRecv { channel, value } => text::holds(
                r.title@,
                " <code>"@ + escaped(channel) + "</code>"@,
            ) && text::holds(r.body@, shown(value)) && r.kind@ == "recv"@,
            EventView::EffectIntent { name, arg } => text::holds(
                r.title@,
                " <code>"@ + escaped(name) + "</code>"@,
            ) && text::holds(r.body@, shown(arg)) && r.kind@ == "intent"@,
            EventView::EffectCommit { name, result } => text::holds(
                r.title@,
                " <code>"@ + escaped(name) + "</code>"@,
            ) && text::holds(r.body@, shown(result)) && r.kind@ == "commit"@,
            EventView::EffectCompensated { name } => text::holds(
                r.title@,
                " <code>"@ + escaped(name) + "</code>"@,
            ) && r.kind@ == "compensated"@,
            EventView::Clock { nanos } => text::holds(
                r.body@,
                text::decimal(nanos as nat) + " ns since epoch</pre>"@,
            ) && r.kind@ == "clock"@,
        },
{
    match event@ {
        EventView::Program { name, hash } => {
            lemma_labelled("program"@, name);
            text::lemma_holds_itself(escaped(hash));
            text::lemma_holds_in_sum("source hash "@, escaped(hash), escaped(hash));
        },
        EventView::OracleDraw { prompt, outcome, provenance } => {
            text::lemma_holds_itself(escaped(provenance));
        },
        EventView::ChannelRecv { channel, value } => {
            lemma_labelled("receive on"@, channel);
            text::lemma_holds_itself(shown(value));
        },
        EventView::EffectIntent { name, arg } => {
            lemma_labelled("effect intent"@, name);
            text::lemma_holds_itself(shown(arg));
        },
        EventView::EffectCommit { name, result } => {
            lemma_labelled("effect committed"@, name);
            text::lemma_holds_itself(shown(result));
        },
        EventView::EffectCompensated { name } => {
            lemma_labelled("effect compensated"@, name);
        },
        EventView::Clock { nanos } => {
            let time = text::decimal(nanos as nat) + " ns since epoch</pre>"@;
            text::lemma_holds_itself(time);
            text::lemma_holds_in_sum("<pre>"@, time, time);
            text::lemma_regroup("<pre>"@, text::decimal(nanos as nat), " ns since epoch</pre>"@);
        },
    }
}

proof fn lemma_labelled(label: Seq<char>, name: Seq<char>)
    ensures
        text::holds(labelled(label, name), " <code>"@ + escaped(name) + "</code>"@),
{
    let code = " <code>"@ + escaped(name) + "</code>"@;
    text::lemma_holds_itself(code);
    text::lemma_holds_in_sum(label, code, code);
    text::lemma_regroup(label, " <code>"@, escaped(name));
    text::lemma_regroup(label, " <code>"@ + escaped(name), "</code>"@);
}

/// Two draws that differ in the text of the outcome alone, or in that of the
/// prompt alone, have different rows; so do two events of one kind and name
/// that differ in the text of their value.
pub proof fn law_rows_tell_values_apart(
    a: Seq<u8>,
    b: Seq<u8>,
    prompt: Seq<u8>,
    name: Seq<char>,
    provenance: Seq<char>,
)
    requires
        text::lossy_text(a) != text::lossy_text(b),
    ensures
        row_view(EventView::OracleDraw { prompt, outcome: a, provenance }) != row_view(
            EventView::OracleDraw { prompt, outcome: b, provenance },
        ),
        row_view(EventView::OracleDraw { prompt: a, outcome: prompt, provenance }) != row_view(
            EventView::OracleDraw { prompt: b, outcome: prompt, provenance },
        ),
        row_view(EventView::ChannelRecv { channel: name, value: a }) != row_view(
            EventView::ChannelRecv { channel: name, value: b },
        ),
        row_view(EventView::EffectIntent { name, arg: a }) != row_view(
            EventView::EffectIntent { name, arg: b },
        ),
        row_view(EventView::EffectCommit { name, result: a }) != row_view(
            EventView::EffectCommit { name, result: b },
        ),
{
    let x = escaped(text::lossy_text(a));
    let y = escaped(text::lossy_text(b));
    law_escaped_text_tells_texts_apart(text::lossy_text(a), text::lossy_text(b));
    let none = Seq::<char>::empty();
    lemma_same_around("<pre>"@, x, y, "</pre>"@);
    let p = "<div class=\"lbl\">prompt</div>"@;
    let o = "<div class=\"lbl\">outcome</div>"@;
    lemma_same_around(p + preformatted(prompt) + o, preformatted(a), preformatted(b), none);
    assert(p + preformatted(prompt) + o + preformatted(a) + none =~= p + preformatted(prompt) + o
        + preformatted(a));
    assert(p + preformatted(prompt) + o + preformatted(b) + none =~= p + preformatted(prompt) + o
        + preformatted(b));
    lemma_same_around(p, preformatted(a), preformatted(b), o + preformatted(prompt));
    assert(p + preformatted(a) + (o + preformatted(prompt)) =~= p + preformatted(a) + o
        + preformatted(prompt));
    assert(p + preformatted(b) + (o + preformatted(prompt)) =~= p + preformatted(b) + o
        + preformatted(prompt));
}

/// What stands between the same two texts is the same if the whole is.
proof fn lemma_same_around(before: Seq<char>, x: Seq<char>, y: Seq<char>, after: Seq<char>)
    ensures
        before + x + after == before + y + after ==> x == y,
{
    if before + x + after == before + y + after {
        let s = before + x + after;
        let t = before + y + after;
        assert(s.len() == t.len());
        assert forall|i: int| 0 <= i < x.len() implies x[i] == y[i] by {
            assert(s[before.len() + i] == x[i]);
            assert(t[before.len() + i] == y[i]);
        }
        assert(x =~= y);
    }
}

/// The page of a run shows every entry of its journal: its number, its kind, its
/// title, its whole hash, and all that its row has to tell.
pub proof fn law_page_shows_every_entry(run_id: Seq<char>, j: JournalView, i: int)
    requires
        0 <= i < j.entries.len(),
    ensures
        ({
            let page = page_html(run_id, j);
            let r = row_view(j.entries[i].event);
            &&& text::holds(page, "<span class=\"cursor\">#"@ + text::decimal(i as nat))
            &&& text::holds(page, "<div class=\"entry "@ + r.kind)
            &&& text::holds(page, "<span class=\"title\">"@ + r.title)
            &&& text::holds(page, "title=\""@ + sha256::hex_spec(j.entries[i].hash))
            &&& text::holds(page, r.body)
            &&& text::holds(page, r.meta)
        }),
{
    lemma_entries_hold(j.entries, i);
    let html = entry_html(i as nat, j.entries[i]);
    law_page_tells_of_the_journal(run_id, j);
    text::lemma_holds_within(page_html(run_id, j), entries_html(j.entries), html);
    lemma_entry_parts(i as nat, j.entries[i]);
    let r = row_view(j.entries[i].event);
    let page = page_html(run_id, j);
    text::lemma_holds_within(
        page,
        html,
        "<span class=\"cursor\">#"@ + text::decimal(i as nat),
    );
    text::lemma_holds_within(page, html, "<div class=\"entry "@ + r.kind);
    text::lemma_holds_within(page, html, "<span class=\"title\">"@ + r.title);
    text::lemma_holds_within(
        page,
        html,
        "title=\""@ + sha256::hex_spec(j.entries[i].hash),
    );
    text::lemma_holds_within(page, html, r.body);
    text::lemma_holds_within(page, html, r.meta);
}

/// The page of a run shows what every entry holds: the prompt of a draw under
/// the label of the prompt, its outcome under that of the outcome, the value of
/// a receive, the argument of an intent, the result of a commit, the time of a
/// clock read, and the names of all of them.
pub proof fn law_page_shows_every_value(run_id: &str, j: &Journal, page: String, i: int)
    requires
        call_ensures(render, (run_id, j), page),
        0 <= i < j@.entries.len(),
    ensures
        match j@.entries[i].event {
            EventView::Program { name, hash } => text::holds(page@, escaped(name)) && text::holds(
                page@,
                escaped(hash),
            ),
            EventView::OracleDraw { prompt, outcome, provenance } => text::holds(
                page@,
                "<div class=\"lbl\">prompt</div>"@ + shown(prompt),
            ) && text::holds(page@, "<div class=\"lbl\">outcome</div>"@ + shown(outcome))
                && text::holds(page@, escaped(provenance)),
            EventView::ChannelRecv { channel, value } => text::holds(page@, escaped(channel))
                && text::holds(page@, shown(value)),
            EventView::EffectIntent { name, arg } => text::holds(page@, escaped(name))
                && text::holds(page@, shown(arg)),
            EventView::EffectCommit { name, result } => text::holds(page@, escaped(name))
                && text::holds(page@, shown(result)),
            EventView::EffectCompensated { name } => text::holds(page@, escaped(name)),
            EventView::Clock { nanos } => text::holds(
                page@,
                text::decimal(nanos as nat) + " ns since epoch</pre>"@,
            ),
        },
{
    let e = j@.entries[i].event;
    let r = row_view(e);
    law_page_shows_every_entry(run_id@, j@, i);
    match e {
        EventView::OracleDraw { prompt, outcome, provenance } => {
            let p = "<div class=\"lbl\">prompt</div>"@ + shown(prompt);
            let o = "<div class=\"lbl\">outcome</div>"@ + shown(outcome);
            text::lemma_regroup(p, "<div class=\"lbl\">outcome</div>"@, shown(outcome));
            text::lemma_holds_itself(p);
            text::lemma_holds_itself(o);
            text::lemma_holds_in_sum(p, o, p);
            text::lemma_holds_in_sum(p, o, o);
            text::lemma_holds_within(page@, r.body, p);
            text::lemma_holds_within(page@, r.body, o);
        },
        EventView::Clock { nanos } => {
            let time = text::decimal(nanos as nat) + " ns since epoch</pre>"@;
            text::lemma_regroup("<pre>"@, text::decimal(nanos as nat), " ns since epoch</pre>"@);
            text::lemma_holds_itself(time);
            text::lemma_holds_in_sum("<pre>"@, time, time);
            text::lemma_holds_within(page@, r.body, time);
        },
        EventView::Program { name, hash } => {
            lemma_title_holds(page@, "program"@, name);
            text::lemma_holds_itself(escaped(hash));
            text::lemma_holds_in_sum("source hash "@, escaped(hash), escaped(hash));
            text::lemma_holds_within(page@, r.meta, escaped(hash));
        },
        EventView::ChannelRecv { channel, value } => {
            lemma_title_holds(page@, "receive on"@, channel);
        },
        EventView::EffectIntent { name, arg } => {
            lemma_title_holds(page@, "effect intent"@, name);
        },
        EventView::EffectCommit { name, result } => {
            lemma_title_holds(page@, "effect committed"@, name);
        },
        EventView::EffectCompensated { name } => {
            lemma_title_holds(page@, "effect compensated"@, name);
        },
    }
}

proof fn lemma_title_holds(page: Seq<char>, label: Seq<char>, name: Seq<char>)
    requires
        text::holds(page, "<span class=\"title\">"@ + labelled(label, name)),
    ensures
        text::holds(page, escaped(name)),
{
    let title = "<span class=\"title\">"@ + labelled(label, name);
    text::lemma_holds_itself(escaped(name));
    text::lemma_holds_in_sum(label + " <code>"@, escaped(name), escaped(name));
    text::lemma_holds_in_sum(label + " <code>"@ + escaped(name), "</code>"@, escaped(name));
    text::lemma_holds_in_sum("<span class=\"title\">"@, labelled(label, name), escaped(name));
    text::lemma_holds_within(page, title, escaped(name));
}

proof fn lemma_entries_hold(entries: Seq<EntryView>, i: int)
    requires
        0 <= i < entries.len(),
    ensures
        text::holds(entries_html(entries), entry_html(i as nat, entries[i])),
    decreases entries.len(),
{
    let before = entries.drop_last();
    let last = entry_html((entries.len() - 1) as nat, entries.last());
    let html = entry_html(i as nat, entries[i]);
    if i < before.len() {
        lemma_entries_hold(before, i);
        assert(before[i] == entries[i]);
    } else {
        text::lemma_holds_itself(last);
    }
    text::lemma_holds_in_sum(entries_html(before), last, html);
}

proof fn lemma_section(class: Seq<char>, s: Seq<char>)
    ensures
        text::holds(section(class, s), s),
{
    text::lemma_holds_itself(s);
    if s.len() > 0 {
        text::lemma_holds_in_sum("<div class=\""@ + class + "\">"@, s, s);
        text::lemma_holds_in_sum("<div class=\""@ + class + "\">"@ + s, "</div>"@, s);
    }
}

proof fn lemma_entry_parts(cursor: nat, e: EntryView)
    ensures
        ({
            let html = entry_html(cursor, e);
            let r = row_view(e.event);
            &&& text::holds(html, "<span class=\"cursor\">#"@ + text::decimal(cursor))
            &&& text::holds(html, "<div class=\"entry "@ + r.kind)
            &&& text::holds(html, "<span class=\"title\">"@ + r.title)
            &&& text::holds(html, "title=\""@ + sha256::hex_spec(e.hash))
            &&& text::holds(html, r.body)
            &&& text::holds(html, r.meta)
        }),
{
    let r = row_view(e.event);
    let hash = sha256::hex_spec(e.hash);
    lemma_entry_literals();
    let c1 = "\"><div class=\"head\"><span class=\"cursor\">#"@;
    let c2 = "</span><span class=\"title\">"@;
    let c3 = "</span><span class=\"hash\" title=\""@;
    text::lemma_holds_behind(c1, "<span class=\"cursor\">#"@, text::decimal(cursor));
    text::lemma_holds_behind(c2, "<span class=\"title\">"@, r.title);
    text::lemma_holds_behind(c3, "title=\""@, hash);
    let kind = "<div class=\"entry "@ + r.kind;
    let number = c1 + text::decimal(cursor);
    let badge = "</span><span class=\"badge "@ + r.kind + "\">"@ + r.kind;
    let title = c2 + r.title;
    let full = c3 + hash;
    let short = "\">"@ + hash.take(16) + "</span></div>"@;
    let body = section("body"@, r.body);
    let meta = section("meta"@, r.meta);
    let a = kind + number;
    let b = a + badge;
    let c = b + title;
    let d = c + full;
    let f = d + short;
    let g = f + body;
    let h = g + meta;
    let html = h + "</div>\n"@;
    assert(entry_html(cursor, e) == html) by {
        let open = "</span><span class=\"badge "@;
        text::lemma_regroup(kind, c1, text::decimal(cursor));
        text::lemma_regroup(a, open, r.kind);
        text::lemma_regroup(a, open + r.kind, "\">"@);
        text::lemma_regroup(a, open + r.kind + "\">"@, r.kind);
        text::lemma_regroup(b, c2, r.title);
        text::lemma_regroup(c, c3, hash);
        text::lemma_regroup(d, "\">"@, hash.take(16));
        text::lemma_regroup(d, "\">"@ + hash.take(16), "</span></div>"@);
    }
    lemma_section("body"@, r.body);
    lemma_section("meta"@, r.meta);
    assert forall|part: Seq<char>|
        text::holds(kind, part) || text::holds(number, part) || text::holds(title, part)
            || text::holds(full, part) || text::holds(body, part) || text::holds(
            meta,
            part,
        ) implies #[trigger] text::holds(html, part) by {
        text::lemma_holds_in_sum(kind, number, part);
        text::lemma_holds_in_sum(a, badge, part);
        text::lemma_holds_in_sum(b, title, part);
        text::lemma_holds_in_sum(c, full, part);
        text::lemma_holds_in_sum(d, short, part);
        text::lemma_holds_in_sum(f, body, part);
        text::lemma_holds_in_sum(g, meta, part);
        text::lemma_holds_in_sum(h, "</div>\n"@, part);
    }
    text::lemma_holds_itself(kind);
    assert(text::holds(html, kind));
}

proof fn lemma_entry_literals()
    ensures
        "<span class=\"cursor\">#"@.is_suffix_of(
            "\"><div class=\"head\"><span class=\"cursor\">#"@,
        ),
        "<span class=\"title\">"@.is_suffix_of("</span><span class=\"title\">"@),
        "title=\""@.is_suffix_of("</span><span class=\"hash\" title=\""@),
{
    assert("<span class=\"cursor\">#"@.is_suffix_of(
        "\"><div class=\"head\"><span class=\"cursor\">#"@,
    )) by {
        reveal_strlit("\"><div class=\"head\"><span class=\"cursor\">#");
        reveal_strlit("<span class=\"cursor\">#");
    }
    assert("<span class=\"title\">"@.is_suffix_of("</span><span class=\"title\">"@)) by {
        reveal_strlit("</span><span class=\"title\">");
        reveal_strlit("<span class=\"title\">");
    }
    assert("title=\""@.is_suffix_of("</span><span class=\"hash\" title=\""@)) by {
        reveal_strlit("</span><span class=\"hash\" title=\"");
        reveal_strlit("title=\"");
    }
}

/// The page of a run tells of the whole journal: whose it is, how many entries
/// it has, where its chain ends, whether the chain holds, and how many intents
/// dangle, if any does.
pub proof fn law_page_tells_of_the_journal(run_id: Seq<char>, j: JournalView)
    ensures
        ({
            let page = page_html(run_id, j);
            let open = journal::open_intents(j.events()).len();
            &&& text::holds(page, TOP@ + escaped(run_id))
            &&& text::holds(page, STYLE@ + escaped(run_id) + "</code></h1>
  <div class=\"sub\">"@)
            &&& text::holds(
                page,
                text::decimal(j.entries.len()) + " journaled steps · chain head "@,
            )
            &&& j.entries.len() > 0 ==> text::holds(
                page,
                " journaled steps · chain head "@ + sha256::hex_spec(j.entries.last().hash),
            )
            &&& j.intact() ==> text::holds(
                page,
                "<span class=\"chain ok\">chain verified</span>"@,
            )
            &&& !j.intact() ==> text::holds(
                page,
                "<span class=\"chain bad\">CHAIN BROKEN</span>"@,
            )
            &&& open > 0 ==> text::holds(
                page,
                text::decimal(open) + " dangling intent(s) — crashed mid-effect</span>"@,
            )
            &&& text::holds(page, entries_html(j.entries))
        }),
{
    let run = escaped(run_id);
    let open = journal::open_intents(j.events()).len();
    let steps = " journaled steps · chain head "@;
    let title = TOP@ + run;
    let heading = STYLE@ + run + "</code></h1>
  <div class=\"sub\">"@;
    let count = text::decimal(j.entries.len()) + steps;
    let head = steps + head_text(j);
    let line = text::decimal(j.entries.len()) + steps + head_text(j);
    let chips = "</div>
  <div class=\"chips\">"@;
    let chain = chain_badge(j.intact());
    let warn = dangling_badge(open);
    let rows = entries_html(j.entries);
    let a = title + heading;
    let b = a + line;
    let c = b + chips;
    let d = c + chain;
    let f = d + warn;
    let g = f + "</div>
  "@;
    let h = g + rows;
    let page = h + BOTTOM@;
    assert(page_html(run_id, j) == page) by {
        let n = text::decimal(j.entries.len());
        text::lemma_regroup(title, STYLE@, run);
        text::lemma_regroup(title, STYLE@ + run, "</code></h1>
  <div class=\"sub\">"@);
        text::lemma_regroup(a, n, steps);
        text::lemma_regroup(a, n + steps, head_text(j));
    }
    text::lemma_holds_itself(count);
    text::lemma_holds_in_sum(count, head_text(j), count);
    text::lemma_holds_itself(head);
    text::lemma_holds_in_sum(text::decimal(j.entries.len()), head, head);
    text::lemma_regroup(text::decimal(j.entries.len()), steps, head_text(j));
    let many = text::decimal(open) + " dangling intent(s) — crashed mid-effect</span>"@;
    text::lemma_holds_itself(many);
    text::lemma_holds_in_sum("<span class=\"chain warn\">"@, many, many);
    text::lemma_regroup(
        "<span class=\"chain warn\">"@,
        text::decimal(open),
        " dangling intent(s) — crashed mid-effect</span>"@,
    );
    text::lemma_holds_itself(title);
    text::lemma_holds_itself(heading);
    text::lemma_holds_itself(chain);
    text::lemma_holds_itself(rows);
    assert forall|part: Seq<char>|
        text::holds(title, part) || text::holds(heading, part) || text::holds(line, part)
            || text::holds(chain, part) || text::holds(warn, part) || text::holds(
            rows,
            part,
        ) implies #[trigger] text::holds(page, part) by {
        text::lemma_holds_in_sum(title, heading, part);
        text::lemma_holds_in_sum(a, line, part);
        text::lemma_holds_in_sum(b, chips, part);
        text::lemma_holds_in_sum(c, chain, part);
        text::lemma_holds_in_sum(d, warn, part);
        text::lemma_holds_in_sum(f, "</div>
  "@, part);
        text::lemma_holds_in_sum(g, rows, part);
        text::lemma_holds_in_sum(h, BOTTOM@, part);
    }
}

/// A console page shows its title and its body, and its head what the page shows
/// and a note.
pub proof fn law_console_page_shows_its_parts(
    title: &str,
    body: &str,
    whole: String,
    section: &str,
    note: &str,
    head: String,
)
    requires
        call_ensures(page, (title, body), whole),
        call_ensures(masthead, (section, note), head),
    ensures
        text::holds(whole@, TOP@ + title@),
        text::holds(whole@, body@),
        text::holds(head@, "<h1>pragmatic <code>"@ + section@),
        text::holds(head@, "<span class=\"faint\">"@ + note@),
{
    let a = TOP@ + title@;
    text::lemma_holds_itself(a);
    text::lemma_holds_itself(body@);
    text::lemma_holds_in_sum(a, CONSOLE_STYLE@, a);
    text::lemma_holds_in_sum(a + CONSOLE_STYLE@, body@, a);
    text::lemma_holds_in_sum(a + CONSOLE_STYLE@, body@, body@);
    let end = "\n</div>\n</body>\n</html>\n"@;
    text::lemma_holds_in_sum(a + CONSOLE_STYLE@ + body@, end, a);
    text::lemma_holds_in_sum(a + CONSOLE_STYLE@ + body@, end, body@);
    let p = "<div class=\"mast\"><h1>pragmatic <code>"@;
    let q = "</code></h1><span class=\"faint\">"@;
    assert("<h1>pragmatic <code>"@.is_suffix_of(p)) by {
        reveal_strlit("<h1>pragmatic <code>");
        reveal_strlit("<div class=\"mast\"><h1>pragmatic <code>");
    }
    assert("<span class=\"faint\">"@.is_suffix_of(q)) by {
        reveal_strlit("<span class=\"faint\">");
        reveal_strlit("</code></h1><span class=\"faint\">");
    }
    let s = "<h1>pragmatic <code>"@ + section@;
    let n = "<span class=\"faint\">"@ + note@;
    text::lemma_holds_behind(p, "<h1>pragmatic <code>"@, section@);
    text::lemma_holds_behind(q, "<span class=\"faint\">"@, note@);
    text::lemma_regroup(p + section@, q, note@);
    text::lemma_holds_in_sum(p + section@, q + note@, s);
    text::lemma_holds_in_sum(p + section@, q + note@, n);
    text::lemma_holds_in_sum(p + section@ + (q + note@), "</span></div>"@, s);
    text::lemma_holds_in_sum(p + section@ + (q + note@), "</span></div>"@, n);
}

/// Escaping goes character by character: the four characters that HTML reserves
/// become their entities, every other one stays, and two texts are escaped
/// together as they are apart.
pub proof fn law_escaping_is_character_wise(a: Seq<char>, b: Seq<char>, c: char)
    ensures
        escaped(Seq::empty()).len() == 0,
        escaped(a + b) == escaped(a) + escaped(b),
        escaped(seq!['&']) == "&amp;"@,
        escaped(seq!['<']) == "&lt;"@,
        escaped(seq!['>']) == "&gt;"@,
        escaped(seq!['"']) == "&quot;"@,
        c != '&' && c != '<' && c != '>' && c != '"' ==> escaped(seq![c]) == seq![c],
    decreases b.len(),
{
    lemma_escaped_one('&');
    lemma_escaped_one('<');
    lemma_escaped_one('>');
    lemma_escaped_one('"');
    lemma_escaped_one(c);
    if b.len() == 0 {
        assert(a + b =~= a);
        assert(escaped(a) + escaped(b) =~= escaped(a));
    } else {
        law_escaping_is_character_wise(a, b.drop_last(), c);
        assert((a + b).drop_last() =~= a + b.drop_last());
        assert(escaped(a + b) =~= escaped(a) + escaped(b));
    }
}

proof fn lemma_escaped_one(c: char)
    ensures
        escaped(seq![c]) == escaped_char(c),
{
    lemma_escaped_front(seq![c]);
    let none = Seq::<char>::empty();
    assert(seq![c].skip(1) =~= none);
    assert(escaped(none) =~= none);
    assert(escaped(seq![c]) =~= escaped_char(c));
}

} // verus!
