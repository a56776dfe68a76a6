//! The kinds of operations and what they address.

use crate::word::{Address, Word};
use vstd::prelude::*;

verus! {

/// Direction of a recorded state access.
#[derive(Clone, Copy, Debug, PartialEq, Eq, Structural)]
pub enum RW {
    Read,
    Write,
}

/// The kind of state an operation touches; one sub-collection of the
/// container per kind.
#[derive(Clone, Copy, Debug, PartialEq, Eq, Structural)]
pub enum Target {
    Stack,
    Memory,
    Storage,
    Account,
    CallContext,
    TxAccessListAccount,
}

/// The fields of a call's context that a handler can read.
#[derive(Clone, Copy, Debug, PartialEq, Eq, Structural)]
pub enum CallContextField {
    TxId,
    RwCounterEndOfReversion,
    IsPersistent,
    IsSuccess,
    CallerId,
    CalleeAddress,
    IsRoot,
    Depth,
    CallDataOffset,
    CallDataLength,
    ReturnDataOffset,
    ReturnDataLength,
}

/// The fields of an account.
#[derive(Clone, Copy, Debug, PartialEq, Eq, Structural)]
pub enum AccountField {
    Nonce,
    Balance,
    CodeHash,
}

/// An access to one slot of a call's stack.
#[derive(Clone, Copy, Debug, PartialEq, Eq, Structural)]
pub struct StackOp {
    pub call_id: usize,
    pub address: usize,
    pub value: Word,
}

/// An access to one byte of a call's memory.
#[derive(Clone, Copy, Debug, PartialEq, Eq, Structural)]
pub struct MemoryOp {
    pub call_id: usize,
    pub address: usize,
    pub value: u8,
}

/// An access to one storage slot of an account.
#[derive(Clone, Copy, Debug, PartialEq, Eq, Structural)]
pub struct StorageOp {
    pub address: Address,
    pub key: Word,
    pub value: Word,
    pub value_prev: Word,
    pub tx_id: usize,
}

/// An access to one field of an account.
#[derive(Clone, Copy, Debug, PartialEq, Eq, Structural)]
pub struct AccountOp {
    pub address: Address,
    pub field: AccountField,
    pub value: Word,
    pub value_prev: Word,
}

/// An access to one field of a call's context.
#[derive(Clone, Copy, Debug, PartialEq, Eq, Structural)]
pub struct CallContextOp {
    pub call_id: usize,
    pub field: CallContextField,
    pub value: Word,
}

/// An access to an address's entry in a transaction's access list.
#[derive(Clone, Copy, Debug, PartialEq, Eq, Structural)]
pub struct TxAccessListAccountOp {
    pub tx_id: usize,
    pub address: Address,
    pub is_warm: bool,
    pub is_warm_prev: bool,
}

/// An access of any kind.
#[derive(Clone, Copy, Debug, PartialEq, Eq, Structural)]
pub enum Op {
    Stack(StackOp),
    Memory(MemoryOp),
    Storage(StorageOp),
    Account(AccountOp),
    CallContext(CallContextOp),
    TxAccessListAccount(TxAccessListAccountOp),
}

/// What an operation addresses: two operations touch the same state exactly
/// when their keys are equal.
#[allow(inconsistent_fields)]
pub enum Key {
    Stack { call_id: usize, address: usize },
    Memory { call_id: usize, address: usize },
    Storage { address: Address, key: Word },
    Account { address: Address, field: AccountField },
    CallContext { call_id: usize, field: CallContextField },
    TxAccessListAccount { tx_id: usize, address: Address },
}

/// A recorded operation: the access, its direction, whether it must be undone
/// when its call reverts, and the sequence number it was given on append.
#[derive(Clone, Copy, Debug, PartialEq, Eq)]
pub struct Operation<T> {
    pub rwc: usize,
    pub rw: RW,
    pub reversible: bool,
    pub op: T,
}

impl<T> Operation<T> {
    pub fn rwc(&self) -> (n: usize)
        ensures
            n == self.rwc,
    {
        self.rwc
    }

    pub fn rw(&self) -> (rw: RW)
        ensures
            rw == self.rw,
    {
        self.rw
    }

    pub fn reversible(&self) -> (b: bool)
        ensures
            b == self.reversible,
    {
        self.reversible
    }

    pub fn op(&self) -> (op: &T)
        ensures
            *op == self.op,
    {
        &self.op
    }
}

impl Op {
    /// The kind of state the operation touches.
    pub open spec fn spec_target(&self) -> Target {
        match *self {
            Op::Stack(_) => Target::Stack,
            Op::Memory(_) => Target::Memory,
            Op::Storage(_) => Target::Storage,
            Op::Account(_) => Target::Account,
            Op::CallContext(_) => Target::CallContext,
            Op::TxAccessListAccount(_) => Target::TxAccessListAccount,
        }
    }

    /// What the operation addresses.
    pub open spec fn key(self) -> Key {
        match self {
            Op::Stack(o) => Key::Stack { call_id: o.call_id, address: o.address },
            Op::Memory(o) => Key::Memory { call_id: o.call_id, address: o.address },
            Op::Storage(o) => Key::Storage { address: o.address, key: o.key },
            Op::Account(o) => Key::Account { address: o.address, field: o.field },
            Op::CallContext(o) => Key::CallContext { call_id: o.call_id, field: o.field },
            Op::TxAccessListAccount(o) => Key::TxAccessListAccount {
                tx_id: o.tx_id,
                address: o.address,
            },
        }
    }

    /// The value at the key after the access, as a word.
    pub open spec fn value(self) -> Word {
        match self {
            Op::Stack(o) => o.value,
            Op::Memory(o) => Word { hi: 0, lo: o.value as u128 },
            Op::Storage(o) => o.value,
            Op::Account(o) => o.value,
            Op::CallContext(o) => o.value,
            Op::TxAccessListAccount(o) => Word::spec_from_bool(o.is_warm),
        }
    }

    /// The value at the key before the access, for the kinds that record it.
    pub open spec fn value_prev(self) -> Option<Word> {
        match self {
            Op::Storage(o) => Some(o.value_prev),
            Op::Account(o) => Some(o.value_prev),
            Op::TxAccessListAccount(o) => Some(Word::spec_from_bool(o.is_warm_prev)),
            _ => None,
        }
    }

    /// The write that undoes this one: same key, value and previous value
    /// swapped. Kinds that record no previous value are their own inverse.
    pub open spec fn spec_inverse(&self) -> Op {
        match *self {
            Op::Storage(o) => Op::Storage(
                StorageOp {
                    address: o.address,
                    key: o.key,
                    value: o.value_prev,
                    value_prev: o.value,
                    tx_id: o.tx_id,
                },
            ),
            Op::Account(o) => Op::Account(
                AccountOp {
                    address: o.address,
                    field: o.field,
                    value: o.value_prev,
                    value_prev: o.value,
                },
            ),
            Op::TxAccessListAccount(o) => Op::TxAccessListAccount(
                TxAccessListAccountOp {
                    tx_id: o.tx_id,
                    address: o.address,
                    is_warm: o.is_warm_prev,
                    is_warm_prev: o.is_warm,
                },
            ),
            _ => *self,
        }
    }

    #[verifier::when_used_as_spec(spec_target)]
    pub fn target(&self) -> (t: Target)
        ensures
            t == self.spec_target(),
    {
        match self {
            Op::Stack(_) => Target::Stack,
            Op::Memory(_) => Target::Memory,
            Op::Storage(_) => Target::Storage,
            Op::Account(_) => Target::Account,
            Op::CallContext(_) => Target::CallContext,
            Op::TxAccessListAccount(_) => Target::TxAccessListAccount,
        }
    }

    #[verifier::when_used_as_spec(spec_inverse)]
    pub fn inverse(&self) -> (inv: Op)
        ensures
            inv == self.spec_inverse(),
    {
        match self {
            Op::Storage(o) => Op::Storage(
                StorageOp {
                    address: o.address,
                    key: o.key,
                    value: o.value_prev,
                    value_prev: o.value,
                    tx_id: o.tx_id,
                },
            ),
            Op::Account(o) => Op::Account(
                AccountOp {
                    address: o.address,
                    field: o.field,
                    value: o.value_prev,
                    value_prev: o.value,
                },
            ),
            Op::TxAccessListAccount(o) => Op::TxAccessListAccount(
                TxAccessListAccountOp {
                    tx_id: o.tx_id,
                    address: o.address,
                    is_warm: o.is_warm_prev,
                    is_warm_prev: o.is_warm,
                },
            ),
            _ => *self,
        }
    }
}

/// Undoing keeps the key, swaps value and previous value, and undoing twice
/// gives the operation back.
pub proof fn lemma_inverse(op: Op)
    ensures
        op.spec_inverse().key() == op.key(),
        op.spec_inverse().spec_target() == op.spec_target(),
        op.spec_inverse().spec_inverse() == op,
        op.value_prev() is Some ==> op.spec_inverse().value() == op.value_prev()->0,
        op.value_prev() is Some ==> op.spec_inverse().value_prev() == Some(op.value()),
{
}

} // verus!
