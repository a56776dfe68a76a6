//! Calls and their live frames.

use crate::operation::{CallContextField, Op};
use crate::word::{Address, Word};
use vstd::prelude::*;

verus! {

/// The bookkeeping of one call frame, fixed when the frame is entered.
#[derive(Clone, Copy, Debug, PartialEq, Eq, Structural)]
pub struct Call {
    /// Unique among the call frames of a block.
    pub call_id: usize,
    /// The id of the calling frame; zero for a root call.
    pub caller_id: usize,
    pub is_root: bool,
    /// Whether the call ends without reverting.
    pub is_success: bool,
    /// Whether this call and all its ancestors end without reverting.
    pub is_persistent: bool,
    /// The sequence number of the last operation that undoes this call's
    /// writes, should it or an ancestor revert; zero for a persistent call.
    pub rw_counter_end_of_reversion: usize,
    /// The address of the account whose code runs.
    pub address: Address,
    pub depth: usize,
    pub call_data_offset: u64,
    pub call_data_length: u64,
    pub return_data_offset: u64,
    pub return_data_length: u64,
}

impl Call {
    /// The value of a field of the call's context, in the transaction `tx_id`.
    pub open spec fn spec_field_value(&self, field: CallContextField, tx_id: usize) -> Word {
        match field {
            CallContextField::TxId => Word { hi: 0, lo: tx_id as u128 },
            CallContextField::RwCounterEndOfReversion => Word {
                hi: 0,
                lo: self.rw_counter_end_of_reversion as u128,
            },
            CallContextField::IsPersistent => Word::spec_from_bool(self.is_persistent),
            CallContextField::IsSuccess => Word::spec_from_bool(self.is_success),
            CallContextField::CallerId => Word { hi: 0, lo: self.caller_id as u128 },
            CallContextField::CalleeAddress => self.address.spec_to_word(),
            CallContextField::IsRoot => Word::spec_from_bool(self.is_root),
            CallContextField::Depth => Word { hi: 0, lo: self.depth as u128 },
            CallContextField::CallDataOffset => Word { hi: 0, lo: self.call_data_offset as u128 },
            CallContextField::CallDataLength => Word { hi: 0, lo: self.call_data_length as u128 },
            CallContextField::ReturnDataOffset => Word {
                hi: 0,
                lo: self.return_data_offset as u128,
            },
            CallContextField::ReturnDataLength => Word {
                hi: 0,
                lo: self.return_data_length as u128,
            },
        }
    }

    #[verifier::when_used_as_spec(spec_field_value)]
    pub fn field_value(&self, field: CallContextField, tx_id: usize) -> (w: Word)
        ensures
            w == self.spec_field_value(field, tx_id),
    {
        match field {
            CallContextField::TxId => Word::from_usize(tx_id),
            CallContextField::RwCounterEndOfReversion => Word::from_usize(
                self.rw_counter_end_of_reversion,
            ),
            CallContextField::IsPersistent => Word::from_bool(self.is_persistent),
            CallContextField::IsSuccess => Word::from_bool(self.is_success),
            CallContextField::CallerId => Word::from_usize(self.caller_id),
            CallContextField::CalleeAddress => self.address.to_word(),
            CallContextField::IsRoot => Word::from_bool(self.is_root),
            CallContextField::Depth => Word::from_usize(self.depth),
            CallContextField::CallDataOffset => Word::from_u64(self.call_data_offset),
            CallContextField::CallDataLength => Word::from_u64(self.call_data_length),
            CallContextField::ReturnDataOffset => Word::from_u64(self.return_data_offset),
            CallContextField::ReturnDataLength => Word::from_u64(self.return_data_length),
        }
    }
}

/// A write that waits to be appended should its call revert: the inverse of
/// a reversible write, and the sequence number on which it has to land.
#[derive(Clone, Copy, Debug, PartialEq, Eq, Structural)]
pub struct Reversal {
    pub op: Op,
    pub target: usize,
}

/// The number of slots of a call's stack.
pub const STACK_LIMIT: usize = 1024;

/// The byte at `address` of the memory `memory`: zero beyond its end.
pub open spec fn memory_at(memory: Seq<u8>, address: usize) -> u8 {
    if address < memory.len() {
        memory[address as int]
    } else {
        0
    }
}

/// The memory `memory` after `value` is written at `address`: grown by
/// zeros as far as needed, with `value` in its place.
pub open spec fn memory_written(memory: Seq<u8>, address: usize, value: u8) -> Seq<u8> {
    if address < memory.len() {
        memory.update(address as int, value)
    } else {
        (memory + Seq::new((address - memory.len()) as nat, |i: int| 0u8)).push(value)
    }
}

/// A live call frame: its call, its stack and memory, the number of
/// reversible writes made in its reversion scope, and the reversals that
/// wait for its end.
pub struct CallContext {
    pub call: Call,
    /// The stack, bottom first. The slot at place `i` has address
    /// `STACK_LIMIT - 1 - i`.
    pub stack: Vec<Word>,
    /// The memory that was written so far; every byte beyond it is zero.
    pub memory: Vec<u8>,
    pub reversible_write_counter: usize,
    pub pending: Vec<Reversal>,
}

} // verus!
