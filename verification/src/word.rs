//! Machine words and addresses.

use vstd::prelude::*;

verus! {

/// 2^128, the weight of the high limb of a [`Word`] and of an [`Address`].
pub open spec fn pow2_128() -> nat {
    0x1_0000_0000_0000_0000_0000_0000_0000_0000nat
}

/// 2^160, the number of distinct addresses.
pub open spec fn pow2_160() -> nat {
    0x1_0000_0000_0000_0000_0000_0000_0000_0000_0000_0000nat
}

/// A 256-bit machine word, held as two 128-bit limbs.
#[derive(Clone, Copy, Debug, PartialEq, Eq, Structural)]
pub struct Word {
    pub hi: u128,
    pub lo: u128,
}

/// A 160-bit account address: the high 32 bits and the low 128 bits.
#[derive(Clone, Copy, Debug, PartialEq, Eq, Structural)]
pub struct Address {
    pub hi: u32,
    pub lo: u128,
}

impl Word {
    /// The number this word stands for.
    pub open spec fn value(self) -> nat {
        self.hi as nat * pow2_128() + self.lo as nat
    }

    /// The word that stands for a boolean: one for `true`, zero for `false`.
    pub open spec fn spec_from_bool(b: bool) -> Word {
        Word { hi: 0, lo: if b { 1 } else { 0 } }
    }

    pub fn zero() -> (w: Word)
        ensures
            w == (Word { hi: 0, lo: 0 }),
            w.value() == 0,
    {
        Word { hi: 0, lo: 0 }
    }

    pub fn one() -> (w: Word)
        ensures
            w == (Word { hi: 0, lo: 1 }),
            w.value() == 1,
    {
        Word { hi: 0, lo: 1 }
    }

    pub fn from_u64(x: u64) -> (w: Word)
        ensures
            w == (Word { hi: 0, lo: x as u128 }),
            w.value() == x,
    {
        Word { hi: 0, lo: x as u128 }
    }

    pub fn from_u128(x: u128) -> (w: Word)
        ensures
            w == (Word { hi: 0, lo: x }),
            w.value() == x,
    {
        Word { hi: 0, lo: x }
    }

    pub fn from_usize(x: usize) -> (w: Word)
        ensures
            w == (Word { hi: 0, lo: x as u128 }),
            w.value() == x,
    {
        Word { hi: 0, lo: x as u128 }
    }

    pub fn from_bool(b: bool) -> (w: Word)
        ensures
            w == Word::spec_from_bool(b),
            w.value() == (if b { 1nat } else { 0nat }),
    {
        Word { hi: 0, lo: if b { 1 } else { 0 } }
    }

    pub fn is_zero(&self) -> (b: bool)
        ensures
            b == (self.value() == 0),
            b == (*self == (Word { hi: 0, lo: 0 })),
    {
        assert(self.hi > 0 ==> self.hi as nat * pow2_128() >= pow2_128()) by (nonlinear_arith);
        self.hi == 0 && self.lo == 0
    }

    /// The address in the low 160 bits of the word.
    pub open spec fn spec_to_address(&self) -> Address {
        Address { hi: (self.hi % 0x1_0000_0000) as u32, lo: self.lo }
    }

    /// The address in the low 160 bits of the word; the high 96 bits are dropped.
    #[verifier::when_used_as_spec(spec_to_address)]
    pub fn to_address(&self) -> (a: Address)
        ensures
            a == self.spec_to_address(),
            a.value() == self.value() % pow2_160(),
    {
        let h: u128 = self.hi;
        assert(h & 0xffff_ffff == h % 0x1_0000_0000) by (bit_vector);
        let hi: u32 = (h & 0xffff_ffff) as u32;
        proof {
            lemma_low_160(self.hi as nat, self.lo as nat);
        }
        Address { hi, lo: self.lo }
    }
}

impl Address {
    /// The number this address stands for.
    pub open spec fn value(self) -> nat {
        self.hi as nat * pow2_128() + self.lo as nat
    }

    /// The word with the same value as the address.
    pub open spec fn spec_to_word(&self) -> Word {
        Word { hi: self.hi as u128, lo: self.lo }
    }

    pub fn new(hi: u32, lo: u128) -> (a: Address)
        ensures
            a == (Address { hi, lo }),
    {
        Address { hi, lo }
    }

    #[verifier::when_used_as_spec(spec_to_word)]
    pub fn to_word(&self) -> (w: Word)
        ensures
            w == self.spec_to_word(),
            w.value() == self.value(),
    {
        Word { hi: self.hi as u128, lo: self.lo }
    }
}

/// With `hi` and `lo` the limbs of a word, the word's value modulo 2^160 keeps
/// `lo` and the low 32 bits of `hi`.
proof fn lemma_low_160(hi: nat, lo: nat)
    requires
        lo < pow2_128(),
    ensures
        (hi * pow2_128() + lo) % pow2_160() == (hi % 0x1_0000_0000) * pow2_128() + lo,
{
    let q = hi / 0x1_0000_0000;
    let r = hi % 0x1_0000_0000;
    assert(hi == q * 0x1_0000_0000 + r) by (nonlinear_arith)
        requires
            q == hi / 0x1_0000_0000,
            r == hi % 0x1_0000_0000,
    ;
    let low = r * pow2_128() + lo;
    assert(low < pow2_160()) by (nonlinear_arith)
        requires
            r < 0x1_0000_0000,
            lo < pow2_128(),
            low == r * pow2_128() + lo,
            pow2_160() == 0x1_0000_0000 * pow2_128(),
    ;
    assert(hi * pow2_128() + lo == q * pow2_160() + low) by (nonlinear_arith)
        requires
            hi == q * 0x1_0000_0000 + r,
            low == r * pow2_128() + lo,
            pow2_160() == 0x1_0000_0000 * pow2_128(),
    ;
    vstd::arithmetic::div_mod::lemma_fundamental_div_mod_converse(
        (hi * pow2_128() + lo) as int,
        pow2_160() as int,
        q as int,
        low as int,
    );
}

/// An address survives the round trip through a word.
pub proof fn lemma_address_round_trip(a: Address)
    ensures
        a.spec_to_word().value() == a.value(),
        a.spec_to_word().spec_to_address() == a,
{
    assert((a.hi as u128) % 0x1_0000_0000 == a.hi as u128);
}

} // verus!
