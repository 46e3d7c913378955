//! The fault taxonomy.
//!
//! Faults are well-typed values, not panics: every failure an agent can hit
//! has a tag that a supervisor can dispatch on.
use vstd::prelude::*;

use crate::journal::Cursor;
use crate::text;

verus! {

/// A fault raised during a run.
#[derive(Debug, PartialEq, Eq)]
pub enum Fault {
    /// The oracle (model) call itself failed.
    OracleErr(String),
    /// A durable effect (tool call, external write) failed while performing.
    ToolErr(String),
    /// A deadline was exceeded.
    Timeout,
    /// A budget capability (step or cost limit) was consumed.
    BudgetExhausted,
    /// A verified agent contract was falsified.
    ContractViol(String),
    /// The agent attempted an effect it holds no capability for.
    CapabilityDenied(String),
    /// A fault propagated up from a child agent.
    Escalated(Box<Fault>),
    /// Replay found the journal disagreeing with the program: the re-executed
    /// code asked for a different step than the one recorded at `cursor`.
    JournalDesync { cursor: Cursor, expected: String, found: String },
    /// Strict replay ran past the end of the journal: the recorded run never
    /// got this far.
    ReplayExhausted { cursor: Cursor },
    /// Underlying storage failure.
    Io(String),
}

/// What a [`Fault`] says, with its texts as character sequences.
pub enum FaultView {
    OracleErr(Seq<char>),
    ToolErr(Seq<char>),
    Timeout,
    BudgetExhausted,
    ContractViol(Seq<char>),
    CapabilityDenied(Seq<char>),
    Escalated(Box<FaultView>),
    JournalDesync { cursor: u64, expected: Seq<char>, found: Seq<char> },
    ReplayExhausted { cursor: u64 },
    Io(Seq<char>),
}

impl Fault {
    pub open spec fn spec_view(&self) -> FaultView
        decreases self,
    {
        match self {
            Fault::OracleErr(m) => FaultView::OracleErr(m@),
            Fault::ToolErr(m) => FaultView::ToolErr(m@),
            Fault::Timeout => FaultView::Timeout,
            Fault::BudgetExhausted => FaultView::BudgetExhausted,
            Fault::ContractViol(m) => FaultView::ContractViol(m@),
            Fault::CapabilityDenied(m) => FaultView::CapabilityDenied(m@),
            Fault::Escalated(inner) => FaultView::Escalated(Box::new(inner.spec_view())),
            Fault::JournalDesync { cursor, expected, found } => FaultView::JournalDesync {
                cursor: *cursor,
                expected: expected@,
                found: found@,
            },
            Fault::ReplayExhausted { cursor } => FaultView::ReplayExhausted { cursor: *cursor },
            Fault::Io(m) => FaultView::Io(m@),
        }
    }
}

impl View for Fault {
    type V = FaultView;

    open spec fn view(&self) -> FaultView {
        self.spec_view()
    }
}

impl FaultView {
    /// The message shown for the fault.
    pub open spec fn message(self) -> Seq<char>
        decreases self,
    {
        match self {
            FaultView::OracleErr(m) => "oracle error: "@ + m,
            FaultView::ToolErr(m) => "tool error: "@ + m,
            FaultView::Timeout => "timeout"@,
            FaultView::BudgetExhausted => "budget exhausted"@,
            FaultView::ContractViol(m) => "contract violated: "@ + m,
            FaultView::CapabilityDenied(m) => "capability denied: "@ + m,
            FaultView::Escalated(inner) => "escalated: "@ + inner.message(),
            FaultView::JournalDesync { cursor, expected, found } => "journal desync at cursor "@
                + text::decimal(cursor as nat) + ": program asked for "@ + expected
                + ", journal holds "@ + found,
            FaultView::ReplayExhausted { cursor } => "replay exhausted at cursor "@ + text::decimal(
                cursor as nat,
            ) + ": recorded run ended here"@,
            FaultView::Io(m) => "io error: "@ + m,
        }
    }
}

impl Fault {
    /// The message shown for the fault.
    pub fn to_string(&self) -> (r: String)
        ensures
            r@ == self@.message(),
        decreases self,
    {
        match self {
            Fault::OracleErr(m) => "oracle error: ".to_owned().concat(m.as_str()),
            Fault::ToolErr(m) => "tool error: ".to_owned().concat(m.as_str()),
            Fault::Timeout => "timeout".to_owned(),
            Fault::BudgetExhausted => "budget exhausted".to_owned(),
            Fault::ContractViol(m) => "contract violated: ".to_owned().concat(m.as_str()),
            Fault::CapabilityDenied(m) => "capability denied: ".to_owned().concat(m.as_str()),
            Fault::Escalated(inner) => {
                let rest = inner.to_string();
                "escalated: ".to_owned().concat(rest.as_str())
            },
            Fault::JournalDesync { cursor, expected, found } => {
                let at = text::decimal_text(*cursor);
                "journal desync at cursor ".to_owned().concat(at.as_str()).concat(
                    ": program asked for ",
                ).concat(expected.as_str()).concat(", journal holds ").concat(found.as_str())
            },
            Fault::ReplayExhausted { cursor } => {
                let at = text::decimal_text(*cursor);
                "replay exhausted at cursor ".to_owned().concat(at.as_str()).concat(
                    ": recorded run ended here",
                )
            },
            Fault::Io(m) => "io error: ".to_owned().concat(m.as_str()),
        }
    }
}

impl Clone for Fault {
    fn clone(&self) -> (r: Self)
        ensures
            r@ == self@,
        decreases self,
    {
        match self {
            Fault::OracleErr(m) => Fault::OracleErr(m.clone()),
            Fault::ToolErr(m) => Fault::ToolErr(m.clone()),
            Fault::Timeout => Fault::Timeout,
            Fault::BudgetExhausted => Fault::BudgetExhausted,
            Fault::ContractViol(m) => Fault::ContractViol(m.clone()),
            Fault::CapabilityDenied(m) => Fault::CapabilityDenied(m.clone()),
            Fault::Escalated(inner) => Fault::Escalated(Box::new((&**inner).clone())),
            Fault::JournalDesync { cursor, expected, found } => Fault::JournalDesync {
                cursor: *cursor,
                expected: expected.clone(),
                found: found.clone(),
            },
            Fault::ReplayExhausted { cursor } => Fault::ReplayExhausted { cursor: *cursor },
            Fault::Io(m) => Fault::Io(m.clone()),
        }
    }
}

} // verus!
