//! Steps of the trace, the step records made from them, and errors.

use crate::word::Word;
use vstd::prelude::*;

verus! {

/// The instruction `BALANCE`.
pub const BALANCE: u8 = 0x31;

/// One instruction of the raw trace, as the tracer saw the machine just
/// before the instruction ran.
pub struct GethExecStep {
    pub pc: u64,
    pub op: u8,
    pub gas: u64,
    pub depth: u16,
    /// The stack, bottom first; read only where values are cross-checked
    /// against the trace.
    pub stack: Vec<Word>,
}

/// What one instruction contributes to the witness: where it ran, and the
/// sequence numbers of the operations it made, in the order it made them.
pub struct ExecStep {
    pub pc: u64,
    pub op: u8,
    pub gas_left: u64,
    pub call_id: usize,
    /// The number of operations recorded before the step.
    pub rwc: usize,
    /// The number of reversible writes of the call's reversion scope made
    /// before the step.
    pub reversible_write_counter: usize,
    pub bus_mapping_instance: Vec<usize>,
}

/// What can end the work on a block. None of these is recovered from.
#[derive(Clone, Copy, Debug, PartialEq, Eq, Structural)]
pub enum Error {
    /// A value about to be recorded differs from the one the trace shows.
    TraceInconsistency,
    /// The log would contradict itself or the state it was built on.
    InvariantViolation,
    /// No call frame holds the context that was asked for.
    MissingContext,
}

} // verus!
