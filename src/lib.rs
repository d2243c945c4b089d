//! A functional simulator for RV32IM zero-knowledge guest programs: paged guest memory with
//! watchpoints, a single-hart stepper with the ECALL layer (HALT, INPUT, host calls, SHA-256,
//! 256-bit modular multiplication), the prover's cycle and segment accounting, and the target
//! side of a remote debugger.
use vstd::prelude::*;

pub mod debugger;
pub mod error;
pub mod loader;
pub mod memory;
pub mod precompile;
pub mod serializer;
pub mod session_cycle;
pub mod simulator;
pub mod syscall;

verus! {

} // verus!
