//! Durable execution for agents that do not run deterministically.
//!
//! The library journals every step an agent takes, so that a run survives any
//! crash and replays exactly, nondeterministic model behaviour included. Each
//! model call is an [`Oracle`] draw whose realized outcome lands in an
//! append-only, hash-chained log, the [`Journal`]. Recovery is replay: recorded
//! outcomes are read back instead of sampled again.
//!
//! Three guarantees hold of every run:
//!
//! 1. Every step is journaled as the run proceeds ([`Journal`]).
//! 2. A crashed run resumes exactly where the agent stopped
//!    ([`Runtime::resume`]).
//! 3. A recorded run replays faithfully ([`Runtime::replay`]).
//!
//! An agent may go on after a step that failed. The journal does not record the
//! failure, so an agent that tries the very same request again is replayed as
//! if the first try had succeeded: leave retries to [`RetryOracle`], which
//! makes them before anything is journaled.
//!
//! They are stated as contracts of the functions themselves and, where they
//! relate several steps, as laws: see [`journal_laws`], [`step_laws`],
//! [`replay_laws`], [`recovery_laws`] and [`resume_laws`], and, for what goes in
//! and comes out at the edges, [`adapter_laws`], [`boundary_laws`] and
//! [`console_laws`].
//!
//! Nothing here reads a file, opens a socket or sleeps. A journal hands over
//! the bytes that must reach stable storage, a model client describes the
//! request to send and is handed the reply, and so on.
pub mod abi;
pub mod adapter_laws;
pub mod anthropic;
pub mod bindings;
pub mod boundary_laws;
pub mod cli;
pub mod console_laws;
pub mod ctx;
pub mod durable;
pub mod event;
pub mod export;
pub mod fault;
pub mod http;
pub mod journal;
pub mod journal_laws;
pub mod json;
pub mod memory;
pub mod names;
pub mod openai;
pub mod oracle;
pub mod recovery_laws;
pub mod replay_laws;
pub mod resume_laws;
pub mod runtime;
pub mod serve;
pub mod sha256;
pub mod step_laws;
pub mod storage;
pub mod store;
pub mod supervisor;
pub mod table;
pub mod text;
pub mod value;

pub use ctx::{Ctx, RunOptions, TraceLabel};
pub use event::Event;
pub use fault::Fault;
pub use journal::{Cursor, Entry, Journal};
pub use memory::{Label, Store};
pub use oracle::{CountingOracle, Oracle, RefusingOracle, RetryOracle, SeededOracle};
pub use runtime::{RunReport, Runtime};
pub use store::{JournalStore, Recover};
pub use supervisor::{Decision, Supervisor};
pub use value::Value;
