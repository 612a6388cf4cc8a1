//! Verified core of the Riff git client: parsers for git's machine output,
//! argument builders, diff bookkeeping and the small decision procedures that
//! sit between git invocations.

pub mod git;
pub mod paths;
pub mod store;
pub mod text;
pub mod watch;
