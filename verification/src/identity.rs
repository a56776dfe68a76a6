//! The witness of the identity precompile.

use crate::call::Call;
use crate::field::{rlc, rlc_value, FieldElement};
use crate::word::Address;
use vstd::prelude::*;

verus! {

/// The number of bytes of a memory word.
pub const N_BYTES_WORD: u64 = 32;

/// The gas that a call of the identity precompile costs before its input is
/// counted.
pub const PRECOMPILE_IDENTITY_BASE: u64 = 15;

/// The gas that each word of input adds to a call of the identity precompile.
pub const PRECOMPILE_IDENTITY_PER_WORD: u64 = 3;

/// The number of fields of the call's context that the gadget looks up.
pub const N_CALL_CONTEXT_LOOKUPS: usize = 7;

/// The address of the identity precompile.
pub open spec fn spec_identity_address() -> Address {
    Address { hi: 0, lo: 4 }
}

#[verifier::when_used_as_spec(spec_identity_address)]
pub fn identity_address() -> (a: Address)
    ensures
        a == spec_identity_address(),
{
    Address { hi: 0, lo: 4 }
}

/// What a precompile leaves with its step for the witness.
pub enum PrecompileAuxData {
    /// The input of the identity precompile, its output, and the part of the
    /// output that the caller takes.
    Identity { input_bytes: Vec<u8>, output_bytes: Vec<u8>, return_bytes: Vec<u8> },
    /// The data of another precompile.
    Other,
}

/// Why a witness cannot be assigned.
#[derive(Clone, Copy, Debug, PartialEq, Eq, Structural)]
pub enum AssignError {
    /// The step does not hold what the gadget needs.
    Synthesis,
}

/// The witness of a division by a constant.
#[derive(Clone, Copy, Debug, PartialEq, Eq, Structural)]
pub struct ConstantDivision {
    pub quotient: u64,
    pub remainder: u64,
}

/// The number of words that `length` bytes take.
pub open spec fn spec_word_size(length: u64) -> nat {
    (length as nat + 31) / 32
}

/// The gas that the step costs: base and words for a call that succeeds, all
/// the gas that is left for one that does not.
pub open spec fn spec_gas_cost(is_success: bool, word_size: nat, gas_left: u64) -> nat {
    if is_success {
        15 + word_size * 3
    } else {
        gas_left as nat
    }
}

/// The witness of one step of the identity precompile: the value of each
/// cell of the gadget. The three combinations of bytes are known only once
/// the challenge is.
pub struct IdentityGadget {
    pub input_bytes_rlc: Option<FieldElement>,
    pub output_bytes_rlc: Option<FieldElement>,
    pub return_bytes_rlc: Option<FieldElement>,
    pub input_word_size: ConstantDivision,
    pub is_success: bool,
    pub callee_address: Address,
    pub is_root: bool,
    pub call_data_offset: u64,
    pub call_data_length: u64,
    pub return_data_offset: u64,
    pub return_data_length: u64,
}

/// What a cell holds, if it is known: the number that its element stands for.
pub open spec fn cell_value(cell: Option<FieldElement>) -> Option<nat> {
    match cell {
        Some(x) => Some(x.value()),
        None => None,
    }
}

/// What the combination of `bytes` holds under the challenge, if the
/// challenge is known.
pub open spec fn cell_rlc(bytes: Seq<u8>, challenge: Option<FieldElement>) -> Option<nat> {
    match challenge {
        Some(r) => Some(rlc(bytes, r.value())),
        None => None,
    }
}

impl IdentityGadget {
    /// The constraint on the word size: quotient and remainder divide the
    /// length of the input, rounded up to words.
    pub open spec fn division_holds(&self) -> bool {
        &&& self.input_word_size.quotient * 32 + self.input_word_size.remainder
            == self.call_data_length + 31
        &&& self.input_word_size.remainder < 32
    }

    /// The constraints that the gadget lays on its cells: the word size
    /// divides the input length, the callee is the identity precompile, and
    /// input and output combine to the same known value.
    pub open spec fn constraints_hold(&self) -> bool {
        &&& self.division_holds()
        &&& self.callee_address == spec_identity_address()
        &&& self.input_bytes_rlc is Some
        &&& cell_value(self.input_bytes_rlc) == cell_value(self.output_bytes_rlc)
    }

    /// The gas that the step costs, which the gadget hands to the restoring
    /// of the caller's context.
    pub fn gas_cost(&self, gas_left: u64) -> (gas: u64)
        requires
            self.division_holds(),
        ensures
            gas == spec_gas_cost(self.is_success, spec_word_size(self.call_data_length), gas_left),
    {
        if self.is_success {
            PRECOMPILE_IDENTITY_BASE + self.input_word_size.quotient * PRECOMPILE_IDENTITY_PER_WORD
        } else {
            gas_left
        }
    }

    /// Whether the cells meet the constraints.
    pub fn check(&self) -> (ok: bool)
        ensures
            ok == self.constraints_hold(),
    {
        let q = self.input_word_size.quotient as u128;
        let r = self.input_word_size.remainder as u128;
        let division = q * 32 + r == self.call_data_length as u128 + 31 && r < 32;
        if !division || !(self.callee_address == identity_address()) {
            return false;
        }
        match (&self.input_bytes_rlc, &self.output_bytes_rlc) {
            (Some(a), Some(b)) => a.same(b),
            _ => false,
        }
    }

    /// Assigns the witness of one step: the combinations of the input, the
    /// output and the returned bytes under the challenge, the word size of
    /// the input, and the fields of the call. Fails where the step holds no
    /// data of the identity precompile.
    pub fn assign_exec_step(
        call: &Call,
        aux_data: &Option<PrecompileAuxData>,
        challenge: &Option<FieldElement>,
    ) -> (r: Result<IdentityGadget, AssignError>)
        requires
            challenge is Some ==> challenge->0.wf(),
        ensures
            r is Ok <==> aux_data matches Some(PrecompileAuxData::Identity { .. }),
            r is Err ==> r->Err_0 == AssignError::Synthesis,
            r is Ok ==> {
                let g = r->Ok_0;
                let data = aux_data->0;
                &&& cell_value(g.input_bytes_rlc) == cell_rlc(data->input_bytes@, *challenge)
                &&& cell_value(g.output_bytes_rlc) == cell_rlc(data->output_bytes@, *challenge)
                &&& cell_value(g.return_bytes_rlc) == cell_rlc(data->return_bytes@, *challenge)
                &&& g.input_word_size.quotient == spec_word_size(call.call_data_length)
                &&& g.input_word_size.remainder == (call.call_data_length + 31) % 32
                &&& g.is_success == call.is_success
                &&& g.callee_address == call.address
                &&& g.is_root == call.is_root
                &&& g.call_data_offset == call.call_data_offset
                &&& g.call_data_length == call.call_data_length
                &&& g.return_data_offset == call.return_data_offset
                &&& g.return_data_length == call.return_data_length
                &&& g.division_holds()
            },
    {
        let (input_bytes_rlc, output_bytes_rlc, return_bytes_rlc) = match aux_data {
            Some(PrecompileAuxData::Identity { input_bytes, output_bytes, return_bytes }) => {
                match challenge {
                    Some(r) => (
                        Some(rlc_value(input_bytes.as_slice(), r)),
                        Some(rlc_value(output_bytes.as_slice(), r)),
                        Some(rlc_value(return_bytes.as_slice(), r)),
                    ),
                    None => (None, None, None),
                }
            },
            _ => {
                return Err(AssignError::Synthesis);
            },
        };
        let numerator: u128 = call.call_data_length as u128 + (N_BYTES_WORD as u128 - 1);
        let input_word_size = ConstantDivision {
            quotient: (numerator / 32) as u64,
            remainder: (numerator % 32) as u64,
        };
        Ok(
            IdentityGadget {
                input_bytes_rlc,
                output_bytes_rlc,
                return_bytes_rlc,
                input_word_size,
                is_success: call.is_success,
                callee_address: call.address,
                is_root: call.is_root,
                call_data_offset: call.call_data_offset,
                call_data_length: call.call_data_length,
                return_data_offset: call.return_data_offset,
                return_data_length: call.return_data_length,
            },
        )
    }
}

/// The witness of a call that does what the identity precompile does meets
/// the constraints: where the output is the input, the callee is the
/// identity precompile and the challenge is known, the cells that
/// [`IdentityGadget::assign_exec_step`] assigns satisfy
/// [`IdentityGadget::constraints_hold`].
pub proof fn lemma_witness_satisfies(
    g: IdentityGadget,
    call: Call,
    input_bytes: Seq<u8>,
    output_bytes: Seq<u8>,
    challenge: Option<FieldElement>,
)
    requires
        challenge is Some,
        input_bytes == output_bytes,
        call.address == spec_identity_address(),
        cell_value(g.input_bytes_rlc) == cell_rlc(input_bytes, challenge),
        cell_value(g.output_bytes_rlc) == cell_rlc(output_bytes, challenge),
        g.callee_address == call.address,
        g.division_holds(),
    ensures
        g.constraints_hold(),
{
}

} // verus!
