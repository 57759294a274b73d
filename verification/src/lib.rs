pub mod assembler;
pub mod logger;
pub mod messages;
pub mod disassembler;
pub mod routing;
pub mod topology;

use vstd::prelude::*;

verus! {

/// How long a caller should wait for an answer before re-asking, in milliseconds.
pub const TIMEOUT_TIMER_MS: u64 = 500;

/// The pause between two successive flood requests, in milliseconds.
pub const TIMEOUT_BETWEEN_FLOODS_MS: u64 = 500;

} // verus!
