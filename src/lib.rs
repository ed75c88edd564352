//! Recording and archiving of a sampled utility balance.
//!
//! The library holds the logic of the engine: the text format of the
//! sample log, the log itself with its deduplication rule, the two-phase
//! split of the log into archived and retained samples, the ordering of
//! archive metadata, the validation of names, the cached room lookup and
//! the decisions of the polling loop. Reading and writing files, the
//! network and the clock are left to the caller.

pub mod degree;
pub mod time;
pub mod log;
pub mod span;
pub mod error;
pub mod recorder;
pub mod text;
pub mod config;
pub mod rooms;
pub mod archive;
pub mod poll;
pub mod engine;
