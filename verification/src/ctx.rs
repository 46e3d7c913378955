//! `Ctx`: the durable execution context handed to an agent.
//!
//! One code path, two semantics. The agent calls `oracle`, `effect`, `recv`
//! and `now`; the context decides, per step, whether the outcome is replayed
//! from the journal or recorded fresh. A resumed run replays its surviving
//! prefix and falls through to recording at the tail.
//!
//! Each step is specified by a function of [`CtxView`], from the state before
//! the step to the state after it and the answer the agent gets.
use std::collections::VecDeque;

use vstd::prelude::*;
use vstd::utf8::*;

use crate::event::{Event, EventView};
use crate::fault::{Fault, FaultView};
use crate::journal::{Cursor, Journal, JournalView};
use crate::oracle::Oracle;
use crate::table::Table;
use crate::text;
use crate::value::Value;

verus! {

/// One observable step of a run. Record and replay produce identical label
/// sequences.
#[derive(Debug, PartialEq, Eq)]
pub enum TraceLabel {
    /// An oracle draw at `cursor` realized `outcome`.
    Oracle { cursor: Cursor, outcome: Value },
    /// A durable effect committed at `cursor` with `result`.
    Effect { cursor: Cursor, name: String, result: Value },
    /// A channel receive at `cursor`.
    Recv { cursor: Cursor, channel: String, value: Value },
    /// A journaled clock read.
    Clock { cursor: Cursor, nanos: u64 },
    /// The run halted with `output`.
    Done { output: Value },
}

/// What a [`TraceLabel`] says.
#[verifier::ext_equal]
pub enum LabelView {
    Oracle { cursor: nat, outcome: Seq<u8> },
    Effect { cursor: nat, name: Seq<char>, result: Seq<u8> },
    Recv { cursor: nat, channel: Seq<char>, value: Seq<u8> },
    Clock { cursor: nat, nanos: u64 },
    Done { output: Seq<u8> },
}

impl View for TraceLabel {
    type V = LabelView;

    open spec fn view(&self) -> LabelView {
        match self {
            TraceLabel::Oracle { cursor, outcome } => LabelView::Oracle {
                cursor: *cursor as nat,
                outcome: outcome@,
            },
            TraceLabel::Effect { cursor, name, result } => LabelView::Effect {
                cursor: *cursor as nat,
                name: name@,
                result: result@,
            },
            TraceLabel::Recv { cursor, channel, value } => LabelView::Recv {
                cursor: *cursor as nat,
                channel: channel@,
                value: value@,
            },
            TraceLabel::Clock { cursor, nanos } => LabelView::Clock {
                cursor: *cursor as nat,
                nanos: *nanos,
            },
            TraceLabel::Done { output } => LabelView::Done { output: output@ },
        }
    }
}

impl Clone for TraceLabel {
    fn clone(&self) -> (r: Self)
        ensures
            r@ == self@,
    {
        match self {
            TraceLabel::Oracle { cursor, outcome } => TraceLabel::Oracle {
                cursor: *cursor,
                outcome: outcome.clone(),
            },
            TraceLabel::Effect { cursor, name, result } => TraceLabel::Effect {
                cursor: *cursor,
                name: name.clone(),
                result: result.clone(),
            },
            TraceLabel::Recv { cursor, channel, value } => TraceLabel::Recv {
                cursor: *cursor,
                channel: channel.clone(),
                value: value.clone(),
            },
            TraceLabel::Clock { cursor, nanos } => TraceLabel::Clock {
                cursor: *cursor,
                nanos: *nanos,
            },
            TraceLabel::Done { output } => TraceLabel::Done { output: output.clone() },
        }
    }
}

/// The views of a sequence of labels.
pub open spec fn label_views(labels: Seq<TraceLabel>) -> Seq<LabelView> {
    labels.map_values(|l: TraceLabel| l@)
}

/// Per-run execution limits and grants (capabilities).
#[derive(Debug)]
pub struct RunOptions {
    /// Maximum number of oracle draws before `BudgetExhausted` fires. `None`
    /// is unbounded.
    pub budget: Option<u64>,
    /// Effect names this run holds capabilities for. `None` allows all
    /// effects; `Some` is an allowlist, anything else is `CapabilityDenied`.
    pub caps: Option<Vec<String>>,
}

/// The texts of a list of names, as a set.
pub open spec fn names(list: Seq<String>) -> Set<Seq<char>> {
    Set::new(|k: Seq<char>| exists|i: int| 0 <= i < list.len() && (#[trigger] list[i])@ == k)
}

/// The names that an allowlist holds, if there is one.
pub open spec fn caps_view(caps: Option<Vec<String>>) -> Option<Set<Seq<char>>> {
    match caps {
        Some(list) => Some(names(list@)),
        None => None,
    }
}

impl Default for RunOptions {
    /// No limits.
    fn default() -> (r: Self)
        ensures
            r.budget is None,
            r.caps is None,
    {
        RunOptions { budget: None, caps: None }
    }
}

impl Clone for RunOptions {
    fn clone(&self) -> (r: Self)
        ensures
            r.budget == self.budget,
            caps_view(r.caps) == caps_view(self.caps),
    {
        RunOptions { budget: self.budget, caps: clone_caps(&self.caps) }
    }
}

fn clone_caps(caps: &Option<Vec<String>>) -> (r: Option<Vec<String>>)
    ensures
        caps_view(r) == caps_view(*caps),
{
    match caps {
        None => None,
        Some(list) => {
            let mut out: Vec<String> = Vec::new();
            let mut i: usize = 0;
            while i < list.len()
                invariant
                    i <= list@.len(),
                    out@.len() == i,
                    forall|j: int| 0 <= j < i ==> (#[trigger] out@[j])@ == list@[j]@,
                decreases list@.len() - i,
            {
                out.push(list[i].clone());
                i += 1;
            }
            proof {
                assert forall|k: Seq<char>| names(out@).contains(k) == names(list@).contains(k) by {
                    if names(out@).contains(k) {
                        let j = choose|j: int| 0 <= j < out@.len() && (#[trigger] out@[j])@ == k;
                        assert(list@[j]@ == k);
                    }
                    if names(list@).contains(k) {
                        let j = choose|j: int| 0 <= j < list@.len() && (#[trigger] list@[j])@ == k;
                        assert(out@[j]@ == k);
                    }
                }
                assert(names(out@) =~= names(list@));
            }
            Some(out)
        },
    }
}

impl RunOptions {
    pub fn with_budget(self, draws: u64) -> (r: Self)
        ensures
            r.budget == Some(draws),
            r.caps == self.caps,
    {
        RunOptions { budget: Some(draws), caps: self.caps }
    }

    pub fn with_caps(self, caps: Vec<String>) -> (r: Self)
        ensures
            r.budget == self.budget,
            r.caps == Some(caps),
    {
        RunOptions { budget: self.budget, caps: Some(caps) }
    }
}

/// How many characters of `s`, from the first on, take at most 48 bytes, given
/// that the first `n` do.
pub open spec fn preview_len(s: Seq<char>, n: nat) -> nat
    decreases s.len() - n,
{
    if n >= s.len() || encode_utf8(s.take(n as int + 1)).len() > 48 {
        n
    } else {
        preview_len(s, n + 1)
    }
}

/// A prompt as it is quoted in messages: the text, cut after 48 bytes.
pub open spec fn preview_text(v: Seq<u8>) -> Seq<char> {
    let s = text::lossy_text(v);
    if encode_utf8(s).len() > 48 {
        s.take(preview_len(s, 0) as int) + "…"@
    } else {
        s
    }
}

/// A value as it is quoted in messages: its text, cut after 48 bytes.
pub fn preview(v: &Value) -> (r: String)
    ensures
        r@ == preview_text(v@),
{
    let s = v.as_str();
    if s.as_str().as_bytes().len() <= 48 {
        return s;
    }
    let ghost whole = s@;
    let n: usize = s.as_str().unicode_len();
    let mut i: usize = 0;
    let mut kept = String::new();
    assert(whole.take(0) =~= kept@);
    let mut more: bool = true;
    while more
        invariant
            i <= n,
            n == whole.len(),
            s@ == whole,
            kept@ == whole.take(i as int),
            more ==> preview_len(whole, 0) == preview_len(whole, i as nat),
            !more ==> preview_len(whole, 0) == i,
        decreases n - i + (if more { 1int } else { 0int }),
    {
        if i >= n {
            more = false;
        } else {
            let mut next = kept.clone();
            next.push(s.as_str().get_char(i));
            assert(next@ =~= whole.take(i + 1));
            if next.as_str().as_bytes().len() > 48 {
                more = false;
            } else {
                kept = next;
                i += 1;
            }
        }
    }
    kept.concat("…")
}

/// The state of a context.
#[verifier::ext_equal]
pub struct CtxView {
    pub journal: JournalView,
    pub inbox: Map<Seq<char>, Seq<Seq<u8>>>,
    /// Strict replay: never fall through to recording.
    pub strict: bool,
    /// Replay read cursor: entries below `pos` have been consumed.
    pub pos: nat,
    pub trace: Seq<LabelView>,
    pub budget: Option<u64>,
    pub caps: Option<Set<Seq<char>>>,
    /// Journaled entries consumed.
    pub replayed: nat,
    /// Oracle draws recorded fresh.
    pub fresh: nat,
}

/// The fault for a program that asks for something else than the journal
/// holds.
pub open spec fn desync(cursor: nat, expected: Seq<char>, found: Seq<char>) -> FaultView {
    FaultView::JournalDesync { cursor: cursor as u64, expected, found }
}

impl CtxView {
    /// The state at the start of a run.
    pub open spec fn start(
        journal: JournalView,
        inbox: Map<Seq<char>, Seq<Seq<u8>>>,
        strict: bool,
        budget: Option<u64>,
        caps: Option<Set<Seq<char>>>,
    ) -> CtxView {
        CtxView {
            journal,
            inbox,
            strict,
            pos: 0,
            trace: Seq::empty(),
            budget,
            caps,
            replayed: 0,
            fresh: 0,
        }
    }

    /// The state with the journal and the inbox that were left behind.
    pub open spec fn leaving(self, journal: Journal, inbox: Inbox) -> CtxView {
        CtxView { journal: journal@, inbox: inbox_view(inbox@), ..self }
    }

    /// Does nothing that the run records have to reach stable storage?
    pub open spec fn in_memory(self) -> bool {
        !self.journal.durable || self.strict
    }

    /// Are the counters within the journal?
    pub open spec fn wf(self) -> bool {
        &&& self.replayed <= self.pos <= self.journal.entries.len() <= u64::MAX
        &&& self.fresh <= self.journal.entries.len()
    }

    /// The event under the read cursor, if the journal has not ended.
    pub open spec fn next_event(self) -> Option<EventView> {
        if self.pos < self.journal.entries.len() {
            Some(self.journal.entries[self.pos as int].event)
        } else {
            None
        }
    }

    /// The event under the read cursor has been consumed.
    pub open spec fn advanced(self) -> CtxView {
        CtxView { pos: self.pos + 1, replayed: self.replayed + 1, ..self }
    }

    /// A step has been observed.
    pub open spec fn traced(self, label: LabelView) -> CtxView {
        CtxView { trace: self.trace.push(label), ..self }
    }

    /// `event` has been recorded and the read cursor stands behind it.
    pub open spec fn recorded(self, event: EventView) -> CtxView {
        CtxView {
            journal: self.journal.append(event),
            pos: self.journal.entries.len() + 1,
            ..self
        }
    }

    /// All that was to be written has been handed over.
    pub open spec fn synced(self) -> CtxView {
        CtxView { journal: JournalView { unsynced: Seq::empty(), ..self.journal }, ..self }
    }

    /// One draw has been charged to the budget, if it allows one.
    pub open spec fn charged(self) -> Option<CtxView> {
        match self.budget {
            None => Some(self),
            Some(b) => if b == 0 {
                None
            } else {
                Some(CtxView { budget: Some((b - 1) as u64), ..self })
            },
        }
    }

    /// What a step that finds the journal at its end is told: strict replay
    /// refuses to go on, otherwise the outcome must be obtained fresh.
    pub open spec fn at_end<T>(self) -> (CtxView, Result<Option<T>, FaultView>) {
        if self.strict {
            (self, Err(FaultView::ReplayExhausted { cursor: self.pos as u64 }))
        } else {
            (self, Ok(None))
        }
    }

    /// The replay half of an oracle draw.
    pub open spec fn oracle_replay(self, prompt: Seq<u8>) -> (
        CtxView,
        Result<Option<Seq<u8>>, FaultView>,
    ) {
        match self.charged() {
            None => (self, Err(FaultView::BudgetExhausted)),
            Some(c) => match c.next_event() {
                Some(EventView::OracleDraw { prompt: p, outcome, .. }) if p == prompt => (
                    c.advanced().traced(LabelView::Oracle { cursor: c.pos, outcome }),
                    Ok(Some(outcome)),
                ),
                Some(other) => (
                    c,
                    Err(
                        desync(
                            c.pos,
                            "OracleDraw("@ + preview_text(prompt) + ")"@,
                            other.quoted(),
                        ),
                    ),
                ),
                None => c.at_end(),
            },
        }
    }

    /// The record half of an oracle draw.
    pub open spec fn oracle_commit(
        self,
        prompt: Seq<u8>,
        outcome: Seq<u8>,
        provenance: Seq<char>,
    ) -> CtxView {
        let c = self.recorded(EventView::OracleDraw { prompt, outcome, provenance });
        CtxView { fresh: self.fresh + 1, ..c }.traced(
            LabelView::Oracle { cursor: self.journal.entries.len(), outcome },
        )
    }

    /// The program marker.
    pub open spec fn program_marker(self, name: Seq<char>, hash: Seq<char>) -> (
        CtxView,
        Result<(), FaultView>,
    ) {
        match self.next_event() {
            Some(EventView::Program { name: n, hash: h }) if n == name => if h == hash {
                (self.advanced(), Ok(()))
            } else {
                (
                    self,
                    Err(
                        desync(
                            self.pos,
                            "Program("@ + name + ", "@ + hash + ")"@,
                            "Program("@ + n + ", "@ + h + ") — the source of `"@ + name
                                + "` changed since this journal was recorded"@,
                        ),
                    ),
                )
            },
            Some(other) => (
                self,
                Err(desync(self.pos, "Program("@ + name + ")"@, other.quoted())),
            ),
            None => if self.strict {
                (self, Err(FaultView::ReplayExhausted { cursor: self.pos as u64 }))
            } else {
                (self.recorded(EventView::Program { name, hash }), Ok(()))
            },
        }
    }

    /// Does the run hold the capability for the effect `name`?
    pub open spec fn allows(self, name: Seq<char>) -> bool {
        match self.caps {
            None => true,
            Some(set) => set.contains(name),
        }
    }

    /// Walks the journaled pairs of one effect. An intent that was closed by a
    /// compensation is passed over; a committed one gives its result; one that
    /// was not closed is that of an effect that failed; at the end of the
    /// journal the effect must be performed fresh.
    pub open spec fn effect_walk(self, name: Seq<char>, arg: Seq<u8>) -> (
        CtxView,
        Result<Option<Seq<u8>>, FaultView>,
    )
        decreases self.journal.entries.len() - self.pos,
    {
        match self.next_event() {
            Some(EventView::EffectIntent { name: n, arg: a }) if n == name && a == arg => {
                let c = self.advanced();
                match c.next_event() {
                    Some(EventView::EffectCommit { name: m, result }) if m == name => (
                        c.advanced().traced(LabelView::Effect { cursor: c.pos, name, result }),
                        Ok(Some(result)),
                    ),
                    Some(EventView::EffectCompensated { name: m }) if m == name => {
                        c.advanced().effect_walk(name, arg)
                    },
                    Some(other) => (
                        c,
                        Err(desync(c.pos, "EffectCommit("@ + name + ")"@, other.quoted())),
                    ),
                    None => (
                        c,
                        Err(
                            desync(
                                self.pos,
                                "EffectCommit("@ + name + ") or EffectCompensated("@ + name
                                    + ") — resume_with a recovery policy to close the dangling intent"@,
                                "end of journal"@,
                            ),
                        ),
                    ),
                }
            },
            Some(other) => (
                self,
                Err(desync(self.pos, "EffectIntent("@ + name + ")"@, other.quoted())),
            ),
            None => self.at_end(),
        }
    }

    /// The replay half of a durable effect.
    pub open spec fn effect_replay(self, name: Seq<char>, arg: Seq<u8>) -> (
        CtxView,
        Result<Option<Seq<u8>>, FaultView>,
    ) {
        if self.allows(name) {
            self.effect_walk(name, arg)
        } else {
            (self, Err(FaultView::CapabilityDenied(name)))
        }
    }

    /// The write-ahead intent of an effect has been recorded.
    pub open spec fn effect_begin(self, name: Seq<char>, arg: Seq<u8>) -> CtxView {
        self.recorded(EventView::EffectIntent { name, arg })
    }

    /// The result of an effect has been recorded.
    pub open spec fn effect_commit(self, name: Seq<char>, result: Seq<u8>) -> CtxView {
        self.recorded(EventView::EffectCommit { name, result }).traced(
            LabelView::Effect { cursor: self.journal.entries.len(), name, result },
        )
    }

    /// The replay half of a channel receive.
    pub open spec fn recv_replay(self, channel: Seq<char>) -> (
        CtxView,
        Result<Option<Seq<u8>>, FaultView>,
    ) {
        match self.next_event() {
            Some(EventView::ChannelRecv { channel: c, value }) if c == channel => (
                self.advanced().traced(LabelView::Recv { cursor: self.pos, channel, value }),
                Ok(Some(value)),
            ),
            Some(other) => (
                self,
                Err(desync(self.pos, "ChannelRecv("@ + channel + ")"@, other.quoted())),
            ),
            None => self.at_end(),
        }
    }

    /// A received value has been recorded.
    pub open spec fn recv_commit(self, channel: Seq<char>, value: Seq<u8>) -> CtxView {
        self.recorded(EventView::ChannelRecv { channel, value }).traced(
            LabelView::Recv { cursor: self.journal.entries.len(), channel, value },
        )
    }

    /// A channel receive: replayed, or taken from the head of the inbox.
    pub open spec fn recv(self, channel: Seq<char>) -> (CtxView, Result<Seq<u8>, FaultView>) {
        let (c, r) = self.recv_replay(channel);
        match r {
            Ok(Some(value)) => (c, Ok(value)),
            Err(f) => (c, Err(f)),
            Ok(None) => if c.inbox.dom().contains(channel) && c.inbox[channel].len() > 0 {
                let value = c.inbox[channel][0];
                let rest = c.inbox.insert(channel, c.inbox[channel].skip(1));
                (CtxView { inbox: rest, ..c }.recv_commit(channel, value), Ok(value))
            } else {
                (c, Err(FaultView::Timeout))
            },
        }
    }

    /// The replay half of a clock read.
    pub open spec fn now_replay(self) -> (CtxView, Result<Option<u64>, FaultView>) {
        match self.next_event() {
            Some(EventView::Clock { nanos }) => (
                self.advanced().traced(LabelView::Clock { cursor: self.pos, nanos }),
                Ok(Some(nanos)),
            ),
            Some(other) => (
                self,
                Err(desync(self.pos, "Clock"@, other.quoted())),
            ),
            None => self.at_end(),
        }
    }

    /// A clock read has been recorded.
    pub open spec fn now_commit(self, nanos: u64) -> CtxView {
        self.recorded(EventView::Clock { nanos }).traced(
            LabelView::Clock { cursor: self.journal.entries.len(), nanos },
        )
    }

    /// The trace of the finished run: what was observed, and the output if
    /// there is one.
    pub open spec fn finished(self, output: Option<Seq<u8>>) -> Seq<LabelView> {
        match output {
            Some(out) => self.trace.push(LabelView::Done { output: out }),
            None => self.trace,
        }
    }
}

/// What the answer of a replay half says.
pub open spec fn answer(r: Result<Option<Value>, Fault>) -> Result<Option<Seq<u8>>, FaultView> {
    match r {
        Ok(Some(v)) => Ok(Some(v@)),
        Ok(None) => Ok(None),
        Err(f) => Err(f@),
    }
}

/// What the answer of a step says.
pub open spec fn result_view(r: Result<Value, Fault>) -> Result<Seq<u8>, FaultView> {
    match r {
        Ok(v) => Ok(v@),
        Err(f) => Err(f@),
    }
}

/// What a step that answers nothing says.
pub open spec fn unit_view(r: Result<(), Fault>) -> Result<(), FaultView> {
    match r {
        Ok(()) => Ok(()),
        Err(f) => Err(f@),
    }
}

/// A run's channel inboxes.
pub type Inbox = Table<VecDeque<Value>>;

/// The values of a queue.
pub open spec fn queue_view(q: Seq<Value>) -> Seq<Seq<u8>> {
    q.map_values(|v: Value| v@)
}

/// The queues of an inbox.
pub open spec fn inbox_view(inbox: Map<Seq<char>, VecDeque<Value>>) -> Map<
    Seq<char>,
    Seq<Seq<u8>>,
> {
    inbox.map_values(|q: VecDeque<Value>| queue_view(q@))
}

/// The durable execution context of one attempt of one run.
pub struct Ctx<'a, O> {
    journal: &'a mut Journal,
    /// The model. `None` in strict replay, which has no model to call.
    oracle: Option<&'a mut O>,
    strict: bool,
    pos: u64,
    trace: Vec<TraceLabel>,
    budget: Option<u64>,
    caps: Option<Vec<String>>,
    inbox: &'a mut Inbox,
    replayed: u64,
    fresh: u64,
}

impl<'a, O> View for Ctx<'a, O> {
    type V = CtxView;

    closed spec fn view(&self) -> CtxView {
        CtxView {
            journal: (*self.journal)@,
            inbox: inbox_view((*self.inbox)@),
            strict: self.strict,
            pos: self.pos as nat,
            trace: label_views(self.trace@),
            budget: self.budget,
            caps: caps_view(self.caps),
            replayed: self.replayed as nat,
            fresh: self.fresh as nat,
        }
    }
}

/// `std::time::SystemTime::now`, as nanoseconds since the Unix epoch; none if
/// the clock is set before it. The clock gives what it gives: nothing is
/// promised of the result.
#[verifier::external_body]
pub(crate) fn system_clock() -> (r: Option<u128>) {
    std::time::SystemTime::now().duration_since(std::time::UNIX_EPOCH).ok().map(|d| d.as_nanos())
}

/// The clock value that is journaled for a reading: the low 64 bits of the
/// nanoseconds since the Unix epoch, and 0 for a clock set before it.
pub fn clock_nanos(reading: Option<u128>) -> (r: u64)
    ensures
        r == (match reading {
            Some(nanos) => (nanos % 0x1_0000_0000_0000_0000) as u64,
            None => 0,
        }),
{
    match reading {
        Some(nanos) => {
            assert(nanos as u64 == nanos % 0x1_0000_0000_0000_0000) by (bit_vector);
            nanos as u64
        },
        None => 0,
    }
}

impl<'a, O> Ctx<'a, O> {
    /// Are the counters within the journal, and is there a model to record
    /// with unless the replay is strict?
    pub closed spec fn wf(&self) -> bool {
        self@.wf() && (self.oracle is None <==> self.strict)
    }

    /// The counters of a context are within its journal.
    pub proof fn lemma_wf(&self)
        requires
            self.wf(),
        ensures
            self@.wf(),
    {
    }

    /// The model that this context records with.
    pub closed spec fn model(&self) -> Option<&'a mut O> {
        self.oracle
    }

    /// The journal that is lent to this context.
    pub closed spec fn lent_journal(&self) -> &'a mut Journal {
        self.journal
    }

    /// The inbox that is lent to this context.
    pub closed spec fn lent_inbox(&self) -> &'a mut Inbox {
        self.inbox
    }

    /// A context at the start of a recorded or resumed run.
    pub fn recording(
        journal: &'a mut Journal,
        oracle: &'a mut O,
        inbox: &'a mut Inbox,
        opts: &RunOptions,
    ) -> (r: Self)
        ensures
            r.wf(),
            r@ == CtxView::start(
                old(journal)@,
                inbox_view(old(inbox)@),
                false,
                opts.budget,
                caps_view(opts.caps),
            ),
            r.model() matches Some(m) && *m == *old(oracle) && *final(m) == *final(oracle),
            *final(r.lent_journal()) == *final(journal),
            *final(r.lent_inbox()) == *final(inbox),
    {
        // All counters stay below the journal's length, which fits.
        let len: u64 = journal.len();
        let r = Ctx {
            journal,
            oracle: Some(oracle),
            strict: false,
            pos: 0,
            trace: Vec::new(),
            budget: opts.budget,
            caps: clone_caps(&opts.caps),
            inbox,
            replayed: 0,
            fresh: 0,
        };
        assert(label_views(r.trace@) =~= Seq::empty());
        r
    }

    /// A context at the start of a strict replay. There is no model in it.
    pub fn replaying(journal: &'a mut Journal, inbox: &'a mut Inbox, opts: &RunOptions) -> (r: Self)
        ensures
            r.wf(),
            r@ == CtxView::start(
                old(journal)@,
                inbox_view(old(inbox)@),
                true,
                opts.budget,
                caps_view(opts.caps),
            ),
            r.model() is None,
            *final(r.lent_journal()) == *final(journal),
            *final(r.lent_inbox()) == *final(inbox),
    {
        // All counters stay below the journal's length, which fits.
        let len: u64 = journal.len();
        let r = Ctx {
            journal,
            oracle: None,
            strict: true,
            pos: 0,
            trace: Vec::new(),
            budget: opts.budget,
            caps: clone_caps(&opts.caps),
            inbox,
            replayed: 0,
            fresh: 0,
        };
        assert(label_views(r.trace@) =~= Seq::empty());
        r
    }

    /// The journaled entry under the read cursor, if the cursor is inside the
    /// recorded prefix.
    fn peek(&self) -> (r: Option<(Cursor, Event)>)
        requires
            self.wf(),
        ensures
            match r {
                Some((c, e)) => self@.next_event() == Some(e@) && c == self@.pos,
                None => self@.next_event() is None,
            },
    {
        match self.journal.get(self.pos) {
            Some(e) => Some((e.cursor, e.event.clone())),
            None => None,
        }
    }

    /// The entry under the read cursor has been served.
    fn advance(&mut self)
        requires
            old(self).wf(),
            old(self)@.next_event() is Some,
        ensures
            final(self).wf(),
            final(self).model() == old(self).model(),
            *final(final(self).lent_journal()) == *final(old(self).lent_journal()),
            *final(final(self).lent_inbox()) == *final(old(self).lent_inbox()),
            final(self)@ == old(self)@.advanced(),
    {
        self.pos = self.pos + 1;
        self.replayed = self.replayed + 1;
    }

    fn push_label(&mut self, label: TraceLabel)
        requires
            old(self).wf(),
        ensures
            final(self).wf(),
            final(self).model() == old(self).model(),
            *final(final(self).lent_journal()) == *final(old(self).lent_journal()),
            *final(final(self).lent_inbox()) == *final(old(self).lent_inbox()),
            final(self)@ == old(self)@.traced(label@),
    {
        self.trace.push(label);
        assert(label_views(self.trace@) =~= label_views(old(self).trace@).push(label@));
        assert(self@ =~= old(self)@.traced(label@));
    }

    /// Appends `event` and moves the read cursor behind it.
    fn record(&mut self, event: Event) -> (cursor: Cursor)
        requires
            old(self).wf(),
        ensures
            final(self).wf(),
            final(self).model() == old(self).model(),
            *final(final(self).lent_journal()) == *final(old(self).lent_journal()),
            *final(final(self).lent_inbox()) == *final(old(self).lent_inbox()),
            final(self)@ == old(self)@.recorded(event@),
            cursor == old(self)@.journal.entries.len(),
            old(self)@.journal.entries.len() < u64::MAX,
    {
        let cursor = self.journal.append(event);
        self.pos = self.journal.len();
        cursor
    }

    fn charge_budget(&mut self) -> (r: Result<(), Fault>)
        requires
            old(self).wf(),
        ensures
            final(self).wf(),
            final(self).model() == old(self).model(),
            *final(final(self).lent_journal()) == *final(old(self).lent_journal()),
            *final(final(self).lent_inbox()) == *final(old(self).lent_inbox()),
            match r {
                Ok(()) => old(self)@.charged() == Some(final(self)@),
                Err(f) => old(self)@.charged() is None && final(self)@ == old(self)@ && f@
                    == FaultView::BudgetExhausted,
            },
    {
        match self.budget {
            None => Ok(()),
            Some(b) => {
                if b == 0 {
                    return Err(Fault::BudgetExhausted);
                }
                self.budget = Some(b - 1);
                Ok(())
            },
        }
    }

    /// The replay half of an oracle draw: charge the budget, then either serve
    /// the recorded outcome or signal that a fresh sample is required.
    pub fn oracle_replay(&mut self, prompt: &Value) -> (r: Result<Option<Value>, Fault>)
        requires
            old(self).wf(),
        ensures
            final(self).wf(),
            final(self).model() == old(self).model(),
            *final(final(self).lent_journal()) == *final(old(self).lent_journal()),
            *final(final(self).lent_inbox()) == *final(old(self).lent_inbox()),
            (final(self)@, answer(r)) == old(self)@.oracle_replay(prompt@),
    {
        match self.charge_budget() {
            Ok(()) => {},
            Err(f) => {
                return Err(f);
            },
        }
        match self.peek() {
            Some((cursor, event)) => {
                match &event {
                    Event::OracleDraw { prompt: p, outcome, .. } => {
                        if p.same(prompt) {
                            self.advance();
                            let outcome = outcome.clone();
                            self.push_label(
                                TraceLabel::Oracle { cursor, outcome: outcome.clone() },
                            );
                            return Ok(Some(outcome));
                        }
                    },
                    _ => {},
                }
                let p = preview(prompt);
                Err(
                    Fault::JournalDesync {
                        cursor,
                        expected: "OracleDraw(".to_owned().concat(p.as_str()).concat(")"),
                        found: event.quoted(),
                    },
                )
            },
            None => {
                if self.strict {
                    Err(Fault::ReplayExhausted { cursor: self.pos })
                } else {
                    Ok(None)
                }
            },
        }
    }

    /// The record half of an oracle draw: journal the realized outcome. Only
    /// called after [`oracle_replay`](Self::oracle_replay) returned `None`.
    pub fn oracle_commit(&mut self, prompt: Value, outcome: Value, provenance: String) -> (r: Value)
        requires
            old(self).wf(),
        ensures
            final(self).wf(),
            final(self).model() == old(self).model(),
            *final(final(self).lent_journal()) == *final(old(self).lent_journal()),
            *final(final(self).lent_inbox()) == *final(old(self).lent_inbox()),
            final(self)@ == old(self)@.oracle_commit(prompt@, outcome@, provenance@),
            r@ == outcome@,
    {
        let kept = outcome.clone();
        let cursor = self.record(Event::OracleDraw { prompt, outcome, provenance });
        self.fresh = self.fresh + 1;
        self.push_label(TraceLabel::Oracle { cursor, outcome: kept.clone() });
        kept
    }

    /// Journals (or verifies) the identity of the agent program driving this
    /// run.
    ///
    /// On record, appends `Program { name, hash }`. On replay, verifies the
    /// journaled identity: a changed program fails as
    /// [`Fault::JournalDesync`] before any step can misreplay.
    ///
    /// Where the journal is kept on storage, see
    /// [`program_marker_stored`](Self::program_marker_stored).
    pub fn program_marker(&mut self, name: &str, hash: &str) -> (r: Result<(), Fault>)
        requires
            old(self).wf(),
            old(self)@.in_memory(),
        ensures
            final(self).wf(),
            final(self).model() == old(self).model(),
            *final(final(self).lent_journal()) == *final(old(self).lent_journal()),
            *final(final(self).lent_inbox()) == *final(old(self).lent_inbox()),
            (final(self)@, unit_view(r)) == old(self)@.program_marker(name@, hash@),
    {
        self.mark(name, hash)
    }

    /// Journals (or verifies) the identity of the agent program.
    pub(crate) fn mark(&mut self, name: &str, hash: &str) -> (r: Result<(), Fault>)
        requires
            old(self).wf(),
        ensures
            final(self).wf(),
            final(self).model() == old(self).model(),
            *final(final(self).lent_journal()) == *final(old(self).lent_journal()),
            *final(final(self).lent_inbox()) == *final(old(self).lent_inbox()),
            (final(self)@, unit_view(r)) == old(self)@.program_marker(name@, hash@),
    {
        match self.peek() {
            Some((cursor, event)) => {
                match &event {
                    Event::Program { name: n, hash: h } => {
                        if text::same_text(n.as_str(), name) {
                            if text::same_text(h.as_str(), hash) {
                                self.advance();
                                return Ok(());
                            }
                            return Err(
                                Fault::JournalDesync {
                                    cursor,
                                    expected: "Program(".to_owned().concat(name).concat(
                                        ", ",
                                    ).concat(hash).concat(")"),
                                    found: "Program(".to_owned().concat(n.as_str()).concat(
                                        ", ",
                                    ).concat(h.as_str()).concat(") — the source of `").concat(
                                        name,
                                    ).concat("` changed since this journal was recorded"),
                                },
                            );
                        }
                    },
                    _ => {},
                }
                Err(
                    Fault::JournalDesync {
                        cursor,
                        expected: "Program(".to_owned().concat(name).concat(")"),
                        found: event.quoted(),
                    },
                )
            },
            None => {
                if self.strict {
                    return Err(Fault::ReplayExhausted { cursor: self.pos });
                }
                let cursor = self.record(
                    Event::Program { name: name.to_owned(), hash: hash.to_owned() },
                );
                Ok(())
            },
        }
    }

    /// Does the run hold the capability for the effect `name`?
    fn allows(&self, name: &str) -> (r: bool)
        ensures
            r == self@.allows(name@),
    {
        match &self.caps {
            None => true,
            Some(list) => {
                let mut i: usize = 0;
                while i < list.len()
                    invariant
                        i <= list@.len(),
                        self@.caps == Some(names(list@)),
                        forall|j: int| 0 <= j < i ==> (#[trigger] list@[j])@ != name@,
                    decreases list@.len() - i,
                {
                    if text::same_text(list[i].as_str(), name) {
                        assert(names(list@).contains(name@));
                        return true;
                    }
                    i += 1;
                }
                assert(!names(list@).contains(name@));
                false
            },
        }
    }

    /// The replay half of a durable effect: capability check, then walk the
    /// journal. Returns `Some(result)` when a committed effect replays; `None`
    /// when the effect must be performed fresh, because the journal is
    /// exhausted here, or because every recorded intent for this step was
    /// closed by a compensation.
    pub fn effect_replay(&mut self, name: &str, arg: &Value) -> (r: Result<Option<Value>, Fault>)
        requires
            old(self).wf(),
        ensures
            final(self).wf(),
            final(self).model() == old(self).model(),
            *final(final(self).lent_journal()) == *final(old(self).lent_journal()),
            *final(final(self).lent_inbox()) == *final(old(self).lent_inbox()),
            (final(self)@, answer(r)) == old(self)@.effect_replay(name@, arg@),
    {
        if !self.allows(name) {
            return Err(Fault::CapabilityDenied(name.to_owned()));
        }
        // A single logical effect may occupy several journaled pairs: intent
        // and compensation (crashed, undone) repeated, then finally intent and
        // commit.
        loop
            invariant
                self.wf(),
                self.model() == old(self).model(),
                *final(self.lent_journal()) == *final(old(self).lent_journal()),
                *final(self.lent_inbox()) == *final(old(self).lent_inbox()),
                old(self)@.allows(name@),
                old(self)@.effect_walk(name@, arg@) == self@.effect_walk(name@, arg@),
            decreases self@.journal.entries.len() - self@.pos,
        {
            match self.peek() {
                None => {
                    if self.strict {
                        return Err(Fault::ReplayExhausted { cursor: self.pos });
                    }
                    return Ok(None);
                },
                Some((cursor, first)) => {
                    let ours = match &first {
                        Event::EffectIntent { name: n, arg: a } => text::same_text(n.as_str(), name)
                            && a.same(arg),
                        _ => false,
                    };
                    if !ours {
                        return Err(
                            Fault::JournalDesync {
                                cursor,
                                expected: "EffectIntent(".to_owned().concat(name).concat(")"),
                                found: first.quoted(),
                            },
                        );
                    }
                    self.advance();
                    match self.peek() {
                        None => {
                            // Dangling intent at the tail: recovery did not
                            // run. Refuse rather than guess whether the world
                            // saw the effect.
                            return Err(
                                Fault::JournalDesync {
                                    cursor,
                                    expected: "EffectCommit(".to_owned().concat(name).concat(
                                        ") or EffectCompensated(",
                                    ).concat(name).concat(
                                        ") — resume_with a recovery policy to close the dangling intent",
                                    ),
                                    found: "end of journal".to_owned(),
                                },
                            );
                        },
                        Some((c2, second)) => {
                            let mut undone: bool = false;
                            match &second {
                                Event::EffectCommit { name: m, result } => {
                                    if text::same_text(m.as_str(), name) {
                                        self.advance();
                                        let result = result.clone();
                                        self.push_label(
                                            TraceLabel::Effect {
                                                cursor: c2,
                                                name: m.clone(),
                                                result: result.clone(),
                                            },
                                        );
                                        return Ok(Some(result));
                                    }
                                },
                                Event::EffectCompensated { name: m } => {
                                    undone = text::same_text(m.as_str(), name);
                                },
                                _ => {},
                            }
                            if !undone {
                                return Err(
                                    Fault::JournalDesync {
                                        cursor: c2,
                                        expected: "EffectCommit(".to_owned().concat(name).concat(
                                            ")",
                                        ),
                                        found: second.quoted(),
                                    },
                                );
                            }
                            self.advance();
                        },
                    }
                },
            }
        }
    }

    /// Journals the write-ahead intent, before the world can change. Only
    /// called after [`effect_replay`](Self::effect_replay) returned `None`.
    pub fn effect_begin(&mut self, name: &str, arg: Value)
        requires
            old(self).wf(),
        ensures
            final(self).wf(),
            final(self).model() == old(self).model(),
            *final(final(self).lent_journal()) == *final(old(self).lent_journal()),
            *final(final(self).lent_inbox()) == *final(old(self).lent_inbox()),
            final(self)@ == old(self)@.effect_begin(name@, arg@),
    {
        let cursor = self.record(Event::EffectIntent { name: name.to_owned(), arg });
    }

    /// Journals the realized result after the effect succeeds.
    pub fn effect_commit(&mut self, name: &str, result: Value) -> (r: Value)
        requires
            old(self).wf(),
        ensures
            final(self).wf(),
            final(self).model() == old(self).model(),
            *final(final(self).lent_journal()) == *final(old(self).lent_journal()),
            *final(final(self).lent_inbox()) == *final(old(self).lent_inbox()),
            final(self)@ == old(self)@.effect_commit(name@, result@),
            r@ == result@,
    {
        let kept = result.clone();
        let cursor = self.record(Event::EffectCommit { name: name.to_owned(), result });
        self.push_label(
            TraceLabel::Effect { cursor, name: name.to_owned(), result: kept.clone() },
        );
        kept
    }

    /// Receives on a channel. Receives are journaled because the value arrives
    /// from outside this replay scope; replay reads it back.
    ///
    /// Where the journal is kept on storage, see
    /// [`recv_stored`](Self::recv_stored).
    pub fn recv(&mut self, channel: &str) -> (r: Result<Value, Fault>)
        requires
            old(self).wf(),
            old(self)@.in_memory(),
        ensures
            final(self).wf(),
            final(self).model() == old(self).model(),
            *final(final(self).lent_journal()) == *final(old(self).lent_journal()),
            *final(final(self).lent_inbox()) == *final(old(self).lent_inbox()),
            (final(self)@, result_view(r)) == old(self)@.recv(channel@),
    {
        self.receive(channel)
    }

    /// Receives on a channel.
    pub(crate) fn receive(&mut self, channel: &str) -> (r: Result<Value, Fault>)
        requires
            old(self).wf(),
        ensures
            final(self).wf(),
            final(self).model() == old(self).model(),
            *final(final(self).lent_journal()) == *final(old(self).lent_journal()),
            *final(final(self).lent_inbox()) == *final(old(self).lent_inbox()),
            (final(self)@, result_view(r)) == old(self)@.recv(channel@),
    {
        match self.peek() {
            Some((cursor, event)) => {
                match &event {
                    Event::ChannelRecv { channel: c, value } => {
                        if text::same_text(c.as_str(), channel) {
                            self.advance();
                            let value = value.clone();
                            self.push_label(
                                TraceLabel::Recv {
                                    cursor,
                                    channel: c.clone(),
                                    value: value.clone(),
                                },
                            );
                            return Ok(value);
                        }
                    },
                    _ => {},
                }
                Err(
                    Fault::JournalDesync {
                        cursor,
                        expected: "ChannelRecv(".to_owned().concat(channel).concat(")"),
                        found: event.quoted(),
                    },
                )
            },
            None => {
                if self.strict {
                    return Err(Fault::ReplayExhausted { cursor: self.pos });
                }
                match self.pop_inbox(channel) {
                    None => Err(Fault::Timeout),
                    Some(value) => Ok(self.recv_commit(channel, value)),
                }
            },
        }
    }

    /// Journals a received value.
    pub(crate) fn recv_commit(&mut self, channel: &str, value: Value) -> (r: Value)
        requires
            old(self).wf(),
        ensures
            final(self).wf(),
            final(self).model() == old(self).model(),
            *final(final(self).lent_journal()) == *final(old(self).lent_journal()),
            *final(final(self).lent_inbox()) == *final(old(self).lent_inbox()),
            final(self)@ == old(self)@.recv_commit(channel@, value@),
            r@ == value@,
    {
        let cursor = self.record(
            Event::ChannelRecv { channel: channel.to_owned(), value: value.clone() },
        );
        self.push_label(
            TraceLabel::Recv { cursor, channel: channel.to_owned(), value: value.clone() },
        );
        value
    }

    /// Takes the next value of a channel out of the inbox.
    pub(crate) fn pop_inbox(&mut self, channel: &str) -> (r: Option<Value>)
        requires
            old(self).wf(),
        ensures
            final(self).wf(),
            final(self).model() == old(self).model(),
            *final(final(self).lent_journal()) == *final(old(self).lent_journal()),
            *final(final(self).lent_inbox()) == *final(old(self).lent_inbox()),
            ({
                let inbox = old(self)@.inbox;
                match r {
                    Some(v) => {
                        &&& inbox.dom().contains(channel@)
                        &&& inbox[channel@].len() > 0
                        &&& v@ == inbox[channel@][0]
                        &&& final(self)@ == (CtxView {
                            inbox: inbox.insert(channel@, inbox[channel@].skip(1)),
                            ..old(self)@
                        })
                    },
                    None => final(self)@ == old(self)@ && !(inbox.dom().contains(channel@)
                        && inbox[channel@].len() > 0),
                }
            }),
    {
        match self.inbox.remove(channel) {
            None => {
                assert(self@.inbox =~= old(self)@.inbox);
                None
            },
            Some(mut queue) => {
                let ghost before = queue@;
                let first = queue.pop_front();
                self.inbox.insert(channel.to_owned(), queue);
                proof {
                    let inbox = old(self)@.inbox;
                    assert(inbox[channel@] == queue_view(before));
                    if before.len() > 0 {
                        assert(queue_view(queue@) =~= queue_view(before).skip(1));
                        assert(self@.inbox =~= inbox.insert(channel@, inbox[channel@].skip(1)));
                    } else {
                        assert(queue@ =~= before);
                        assert(queue_view(queue@) =~= queue_view(before));
                        assert(self@.inbox =~= inbox);
                    }
                }
                first
            },
        }
    }

    /// The replay half of a clock read.
    pub fn now_replay(&mut self) -> (r: Result<Option<u64>, Fault>)
        requires
            old(self).wf(),
        ensures
            final(self).wf(),
            final(self).model() == old(self).model(),
            *final(final(self).lent_journal()) == *final(old(self).lent_journal()),
            *final(final(self).lent_inbox()) == *final(old(self).lent_inbox()),
            match r {
                Ok(n) => (final(self)@, Ok::<Option<u64>, FaultView>(n)) == old(self)@.now_replay(),
                Err(f) => (final(self)@, Err::<Option<u64>, FaultView>(f@)) == old(self)@.now_replay(),
            },
    {
        match self.peek() {
            Some((cursor, event)) => {
                match &event {
                    Event::Clock { nanos } => {
                        self.advance();
                        let nanos: u64 = *nanos;
                        self.push_label(TraceLabel::Clock { cursor, nanos });
                        return Ok(Some(nanos));
                    },
                    _ => {},
                }
                Err(
                    Fault::JournalDesync {
                        cursor,
                        expected: "Clock".to_owned(),
                        found: event.quoted(),
                    },
                )
            },
            None => {
                if self.strict {
                    Err(Fault::ReplayExhausted { cursor: self.pos })
                } else {
                    Ok(None)
                }
            },
        }
    }

    /// Journals a clock read.
    pub fn now_commit(&mut self, nanos: u64)
        requires
            old(self).wf(),
        ensures
            final(self).wf(),
            final(self).model() == old(self).model(),
            *final(final(self).lent_journal()) == *final(old(self).lent_journal()),
            *final(final(self).lent_inbox()) == *final(old(self).lent_inbox()),
            final(self)@ == old(self)@.now_commit(nanos),
    {
        let cursor = self.record(Event::Clock { nanos });
        self.push_label(TraceLabel::Clock { cursor, nanos });
    }

    /// A journaled clock read: time is externally determined, so it is
    /// recorded like any other draw and replays exactly.
    ///
    /// Where the journal is kept on storage, see
    /// [`now_stored`](Self::now_stored).
    pub fn now(&mut self) -> (r: Result<u64, Fault>)
        requires
            old(self).wf(),
            old(self)@.in_memory(),
        ensures
            final(self).wf(),
            final(self).model() == old(self).model(),
            *final(final(self).lent_journal()) == *final(old(self).lent_journal()),
            *final(final(self).lent_inbox()) == *final(old(self).lent_inbox()),
            ({
                let (c, a) = old(self)@.now_replay();
                match a {
                    Ok(Some(nanos)) => r == Ok::<u64, Fault>(nanos) && final(self)@ == c,
                    Err(f) => r matches Err(g) && g@ == f && final(self)@ == c,
                    Ok(None) => r matches Ok(nanos) && final(self)@ == c.now_commit(nanos),
                }
            }),
    {
        match self.now_replay() {
            Err(f) => Err(f),
            Ok(Some(nanos)) => Ok(nanos),
            Ok(None) => {
                let nanos: u64 = clock_nanos(system_clock());
                self.now_commit(nanos);
                Ok(nanos)
            },
        }
    }

    /// Asserts an agent contract mid-run; a falsified contract is a well-typed
    /// `ContractViol` fault the supervisor can dispatch on.
    pub fn contract(&self, holds: bool, msg: &str) -> (r: Result<(), Fault>)
        ensures
            match r {
                Ok(()) => holds,
                Err(f) => !holds && f@ == FaultView::ContractViol(msg@),
            },
    {
        if holds {
            Ok(())
        } else {
            Err(Fault::ContractViol(msg.to_owned()))
        }
    }

    /// True while steps are being served from the journal (useful for
    /// logging; agent logic should never branch on this). The read cursor
    /// always stands behind what this attempt has journaled itself.
    pub fn is_replaying(&self) -> (r: bool)
        ensures
            r == (self@.next_event() is Some),
    {
        self.pos < self.journal.len()
    }

    /// Is this a strict replay?
    pub fn is_strict(&self) -> (r: bool)
        ensures
            r == self@.strict,
    {
        self.strict
    }

    /// The bytes that must reach stable storage for `event` to be journaled.
    pub(crate) fn unsynced_with(&self, event: &Event) -> (r: Vec<u8>)
        ensures
            r@ == self@.journal.append(event@).unsynced,
    {
        self.journal.unsynced_with(event)
    }

    /// The bytes that must still reach stable storage.
    pub fn unsynced(&self) -> (r: &[u8])
        ensures
            r@ == self@.journal.unsynced,
    {
        self.journal.unsynced()
    }

    /// The bytes that must reach stable storage before the run goes on.
    pub fn sync(&mut self) -> (r: Vec<u8>)
        requires
            old(self).wf(),
        ensures
            final(self).wf(),
            final(self).model() == old(self).model(),
            *final(final(self).lent_journal()) == *final(old(self).lent_journal()),
            *final(final(self).lent_inbox()) == *final(old(self).lent_inbox()),
            r@ == old(self)@.journal.unsynced,
            final(self)@ == (CtxView {
                journal: JournalView { unsynced: Seq::empty(), ..old(self)@.journal },
                ..old(self)@
            }),
    {
        self.journal.sync()
    }

    /// Ends the attempt: the trace and the counters. The journal and the inbox
    /// go back as the attempt leaves them.
    pub fn finish(self, output: Option<&Value>) -> (r: Finished)
        ensures
            label_views(r.trace@) == self@.finished(
                match output {
                    Some(v) => Some(v@),
                    None => None,
                },
            ),
            r.replayed == self@.replayed,
            r.fresh == self@.fresh,
            (*final(self.lent_journal()))@ == self@.journal,
            inbox_view((*final(self.lent_inbox()))@) == self@.inbox,
            self.model() matches Some(m) ==> *final(m) == *m,
    {
        let mut trace = self.trace;
        let ghost before = trace@;
        if let Some(out) = output {
            trace.push(TraceLabel::Done { output: out.clone() });
            assert(label_views(trace@) =~= label_views(before).push(
                LabelView::Done { output: out@ },
            ));
        }
        Finished { trace, replayed: self.replayed, fresh: self.fresh }
    }
}

impl<'a, O: Oracle> Ctx<'a, O> {
    /// One model call, journaled once.
    ///
    /// Record: sample from the oracle, append `OracleDraw`. Replay: read the
    /// recorded outcome back; the model is not called. A resumed run switches
    /// from the latter to the former exactly where the journal ends.
    ///
    /// Where the journal is kept on storage, see
    /// [`oracle_stored`](Self::oracle_stored).
    pub fn oracle<P: Into<Value>>(&mut self, prompt: P) -> (r: Result<Value, Fault>)
        requires
            old(self).wf(),
            old(self)@.in_memory(),
        ensures
            final(self).wf(),
            *final(final(self).lent_journal()) == *final(old(self).lent_journal()),
            *final(final(self).lent_inbox()) == *final(old(self).lent_inbox()),
            exists|p: Value| #[trigger]
                call_ensures(P::into, (prompt,), p) && ({
                    let (c, a) = old(self)@.oracle_replay(p@);
                    match a {
                        Ok(Some(outcome)) => {
                            &&& r matches Ok(v) && v@ == outcome
                            &&& final(self)@ == c
                            &&& final(self).model() == old(self).model()
                        },
                        Err(f) => {
                            &&& r matches Err(g) && g@ == f
                            &&& final(self)@ == c
                            &&& final(self).model() == old(self).model()
                        },
                        Ok(None) => exists|m: &mut O, sampled: Result<Value, Fault>| #[trigger]
                            call_ensures(O::call, (m, &p), sampled) && ({
                                &&& old(self).model() is Some
                                &&& final(self).model() is Some
                                &&& *m == *(old(self).model()->0)
                                &&& *final(m) == *(final(self).model()->0)
                                &&& *final(final(self).model()->0) == *final(old(self).model()->0)
                                &&& match sampled {
                                    Err(f) => r == sampled && final(self)@ == c,
                                    Ok(out) => exists|provenance: String| #[trigger]
                                        call_ensures(O::provenance, (&*final(m),), provenance) && ({
                                            &&& r matches Ok(v) && v@ == out@
                                            &&& final(self)@ == c.oracle_commit(
                                                p@,
                                                out@,
                                                provenance@,
                                            )
                                        }),
                                }
                            }),
                    }
                }),
    {
        let prompt: Value = prompt.into();
        match self.oracle_replay(&prompt) {
            Err(f) => Err(f),
            Ok(Some(outcome)) => Ok(outcome),
            Ok(None) => {
                let sampled = self.sample(&prompt);
                match sampled {
                    Err(f) => Err(f),
                    Ok((outcome, provenance)) => Ok(
                        self.oracle_commit(prompt, outcome, provenance),
                    ),
                }
            },
        }
    }

    /// Calls the model.
    pub(crate) fn sample(&mut self, prompt: &Value) -> (r: Result<(Value, String), Fault>)
        requires
            old(self).wf(),
            !old(self)@.strict,
        ensures
            final(self).wf(),
            *final(final(self).lent_journal()) == *final(old(self).lent_journal()),
            *final(final(self).lent_inbox()) == *final(old(self).lent_inbox()),
            final(self)@ == old(self)@,
            old(self).model() is Some,
            final(self).model() is Some,
            *final(final(self).model()->0) == *final(old(self).model()->0),
            exists|m: &mut O, sampled: Result<Value, Fault>| #[trigger]
                call_ensures(O::call, (m, prompt), sampled) && ({
                    &&& *m == *(old(self).model()->0)
                    &&& *final(m) == *(final(self).model()->0)
                    &&& match sampled {
                        Err(f) => r == Err::<(Value, String), Fault>(f),
                        Ok(out) => r matches Ok((o, provenance)) && o == out && call_ensures(
                            O::provenance,
                            (&*final(m),),
                            provenance,
                        ),
                    }
                }),
    {
        match &mut self.oracle {
            None => Err(Fault::OracleErr("replay mode must never call the oracle".to_owned())),
            Some(model) => match model.call(prompt) {
                Err(f) => Err(f),
                Ok(out) => {
                    let provenance = model.provenance();
                    Ok((out, provenance))
                },
            },
        }
    }

    /// A durable effect under the three-phase write-ahead discipline: journal
    /// the intent before touching the world, run `perform`, journal the
    /// result.
    ///
    /// Replay reuses the committed result and does not perform again. A crash
    /// between the first and the last phase leaves a dangling intent, to be
    /// resolved before the run is re-entered; so does a `perform` that fails,
    /// and an agent that goes on then goes on behind the intent.
    ///
    /// Where the journal is kept on storage, see
    /// [`effect_stored`](Self::effect_stored).
    pub fn effect<A: Into<Value>, F: FnOnce(&Value) -> Result<Value, Fault>>(
        &mut self,
        name: &str,
        arg: A,
        perform: F,
    ) -> (r: Result<Value, Fault>)
        requires
            old(self).wf(),
            old(self)@.in_memory(),
            forall|a: Value|
                call_ensures(A::into, (arg,), a) && old(self)@.effect_replay(name@, a@).1 == Ok::<
                    Option<Seq<u8>>,
                    FaultView,
                >(None) ==> #[trigger] call_requires(perform, (&a,)),
        ensures
            final(self).wf(),
            final(self).model() == old(self).model(),
            *final(final(self).lent_journal()) == *final(old(self).lent_journal()),
            *final(final(self).lent_inbox()) == *final(old(self).lent_inbox()),
            exists|a: Value| #[trigger]
                call_ensures(A::into, (arg,), a) && ({
                    let (c, s) = old(self)@.effect_replay(name@, a@);
                    match s {
                        Ok(Some(result)) => r matches Ok(v) && v@ == result && final(self)@ == c,
                        Err(f) => r matches Err(g) && g@ == f && final(self)@ == c,
                        Ok(None) => exists|performed: Result<Value, Fault>| #[trigger]
                            call_ensures(perform, (&a,), performed) && match performed {
                                Err(f) => r == performed && final(self)@ == c.effect_begin(
                                    name@,
                                    a@,
                                ),
                                Ok(out) => {
                                    &&& r matches Ok(v) && v@ == out@
                                    &&& final(self)@ == c.effect_begin(name@, a@).effect_commit(
                                        name@,
                                        out@,
                                    )
                                },
                            },
                    }
                }),
    {
        let arg: Value = arg.into();
        match self.effect_replay(name, &arg) {
            Err(f) => Err(f),
            Ok(Some(result)) => Ok(result),
            Ok(None) => {
                self.effect_begin(name, arg.clone());
                // A failure here (or a crash) leaves the dangling intent for
                // recovery: the effect is never orphaned.
                match perform(&arg) {
                    Err(f) => Err(f),
                    Ok(result) => Ok(self.effect_commit(name, result)),
                }
            },
        }
    }
}

/// What an attempt leaves behind.
pub struct Finished {
    pub trace: Vec<TraceLabel>,
    pub replayed: u64,
    pub fresh: u64,
}

/// A quoted prompt is its text if that takes at most 48 bytes, and otherwise a
/// start of it that does, as long as possible, and a mark.
pub proof fn law_preview_is_a_start(v: Seq<u8>)
    ensures
        ({
            let s = text::lossy_text(v);
            let p = preview_text(v);
            let n = preview_len(s, 0);
            &&& encode_utf8(s).len() <= 48 ==> p == s
            &&& encode_utf8(s).len() > 48 ==> p == s.take(n as int) + "…"@ && n < s.len()
                && encode_utf8(s.take(n as int)).len() <= 48 && encode_utf8(
                s.take(n as int + 1),
            ).len() > 48
        }),
{
    let s = text::lossy_text(v);
    assert(s.take(0) =~= Seq::empty());
    assert(encode_utf8(Seq::<char>::empty()).len() == 0);
    lemma_preview_len(s, 0);
    assert(s.take(s.len() as int) =~= s);
}

proof fn lemma_preview_len(s: Seq<char>, n: nat)
    requires
        n <= s.len(),
        encode_utf8(s.take(n as int)).len() <= 48,
    ensures
        n <= preview_len(s, n) <= s.len(),
        encode_utf8(s.take(preview_len(s, n) as int)).len() <= 48,
        preview_len(s, n) < s.len() ==> encode_utf8(s.take(preview_len(s, n) as int + 1)).len()
            > 48,
    decreases s.len() - n,
{
    if n < s.len() && encode_utf8(s.take(n as int + 1)).len() <= 48 {
        lemma_preview_len(s, n + 1);
    }
}

/// A clock reading is journaled as it is while it fits 64 bits, and a clock set
/// before the epoch as 0.
pub proof fn law_clock_is_journaled_as_read(reading: Option<u128>, nanos: u64)
    requires
        call_ensures(clock_nanos, (reading,), nanos),
    ensures
        reading matches Some(n) ==> (n <= u64::MAX ==> nanos == n),
        reading is None ==> nanos == 0,
{
}

/// A contract is a fault with its message if and only if it does not hold.
pub proof fn law_contract_fails_with_its_message<O>(
    c: &Ctx<O>,
    holds: bool,
    msg: &str,
    r: Result<(), Fault>,
)
    requires
        call_ensures(Ctx::<O>::contract, (c, holds, msg), r),
    ensures
        r is Ok <==> holds,
        r matches Err(f) ==> (f matches Fault::ContractViol(m) && m@ == msg@),
{
    if let Err(f) = r {
        assert(f@ is ContractViol);
    }
}

/// Options set what they name and keep the rest.
pub proof fn law_options_are_independent(
    o: RunOptions,
    draws: u64,
    caps: Vec<String>,
    a: RunOptions,
    b: RunOptions,
)
    requires
        call_ensures(RunOptions::with_budget, (o, draws), a),
        call_ensures(RunOptions::with_caps, (o, caps), b),
    ensures
        a.budget == Some(draws) && a.caps == o.caps,
        b.caps == Some(caps) && b.budget == o.budget,
{
}

} // verus!
