//! The mapping of an execution trace to the log of state accesses that a
//! proof of the execution is built on: every access to a stack, a memory, a
//! storage slot, an account, a call's context or an access list is recorded
//! as one operation with its sequence number, and the recorded log is proved
//! to agree with the state it was read from.

pub mod call;
pub mod container;
pub mod evm;
pub mod exec_step;
pub mod field;
pub mod identity;
pub mod operation;
pub mod reversion;
pub mod state_db;
pub mod state_ref;
pub mod trace;
pub mod word;
