//! The handlers of instructions.

use crate::exec_step::{Error, ExecStep, GethExecStep};
use crate::state_ref::CircuitInputStateRef;
use vstd::prelude::*;

pub mod balance;

verus! {

/// What every handler of an instruction does: given the state and a window
/// of the trace that begins at the instruction, it records the operations of
/// the instruction through the state, in the order that the instruction
/// fixes, and hands back the step records. A handler only ever appends to
/// the log.
pub trait Opcode {
    fn gen_associated_ops(state: &mut CircuitInputStateRef, geth_steps: &[GethExecStep]) -> (r:
        Result<Vec<ExecStep>, Error>)
        requires
            old(state).wf(),
            geth_steps@.len() >= 1,
        ensures
            final(state).wf(),
            old(state).log().len() <= final(state).log().len(),
            final(state).log().subrange(0, old(state).log().len() as int) == old(state).log(),
            r is Ok ==> r->Ok_0@.len() >= 1,
    ;
}

} // verus!
