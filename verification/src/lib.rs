//! Supervision of a long-running external extraction process.
//!
//! The core is a verified lifecycle state machine for one extraction attempt
//! — spawn, cooperative cancellation, resolution — and a verified incremental
//! parser that turns the child's raw output bytes into deduplicated progress
//! events and a diagnostic transcript. Process spawning, stream plumbing and
//! thread scheduling are left to a thin unverified shell around this crate.

pub mod command;
pub mod errors;
pub mod parser;
pub mod supervisor;

pub use errors::UnsquashfsError;
pub use parser::OutputParser;
pub use supervisor::ExitInfo;
pub use supervisor::Outcome;
pub use supervisor::PollDecision;
pub use supervisor::Status;
pub use supervisor::Unsquashfs;
