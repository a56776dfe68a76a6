//! The instructions of the machine.

pub mod opcodes;
