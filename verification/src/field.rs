//! Elements of the field that the combinations of bytes are taken in: the
//! base field of the Pallas curve, with its arithmetic done by
//! `halo2_proofs::pasta::Fp`.

use halo2_proofs::pasta::group::ff::PrimeField;
use halo2_proofs::pasta::Fp;
use vstd::arithmetic::div_mod::{lemma_add_mod_noop, lemma_small_mod};
use vstd::prelude::*;

verus! {

/// The order of the field: the prime
/// `0x40000000000000000000000000000000224698fc094cf91b992d30ed00000001`.
pub open spec fn modulus() -> nat {
    0x40000000000000000000000000000000224698fc094cf91b992d30ed00000001nat
}

/// The number that bytes stand for, least significant byte first.
pub open spec fn le_value(bytes: Seq<u8>) -> nat
    decreases bytes.len(),
{
    if bytes.len() == 0 {
        0
    } else {
        bytes[0] as nat + 256 * le_value(bytes.subrange(1, bytes.len() as int))
    }
}

/// An element of the field, held by its canonical representation: the 32
/// bytes of its value, least significant byte first.
#[derive(Clone, Copy, Debug)]
pub struct FieldElement {
    pub repr: [u8; 32],
}

impl FieldElement {
    /// The number below the modulus that the element stands for.
    pub open spec fn value(&self) -> nat {
        le_value(self.repr@)
    }

    /// The representation is canonical: its value is below the modulus.
    pub open spec fn wf(&self) -> bool {
        self.value() < modulus()
    }
}

/// Calls `Fp::from(u64)` and takes the canonical representation of the
/// element it gives, by `PrimeField::to_repr`. The contract claims that the
/// element stands for the number `x` itself, which is below the modulus.
#[verifier::external_body]
fn fp_from_u64(x: u64) -> (r: FieldElement)
    ensures
        r.wf(),
        r.value() == x,
{
    FieldElement { repr: Fp::from(x).to_repr() }
}

/// Calls the multiplication of `Fp` on the two elements, which it gets from
/// their representations by `PrimeField::from_repr`, and takes the canonical
/// representation of the product. The contract claims that the product
/// stands for the product of the two values, reduced by the modulus.
/// `from_repr` gives no element for a representation that is not canonical,
/// which the precondition leaves out.
#[verifier::external_body]
fn fp_mul(a: &FieldElement, b: &FieldElement) -> (r: FieldElement)
    requires
        a.wf(),
        b.wf(),
    ensures
        r.wf(),
        r.value() == (a.value() * b.value()) % modulus(),
{
    let x = Fp::from_repr(a.repr).unwrap();
    let y = Fp::from_repr(b.repr).unwrap();
    FieldElement { repr: (x * y).to_repr() }
}

/// Calls the addition of `Fp` on the two elements, which it gets from their
/// representations by `PrimeField::from_repr`, and takes the canonical
/// representation of the sum. The contract claims that the sum stands for
/// the sum of the two values, reduced by the modulus. `from_repr` gives no
/// element for a representation that is not canonical, which the
/// precondition leaves out.
#[verifier::external_body]
fn fp_add(a: &FieldElement, b: &FieldElement) -> (r: FieldElement)
    requires
        a.wf(),
        b.wf(),
    ensures
        r.wf(),
        r.value() == (a.value() + b.value()) % modulus(),
{
    let x = Fp::from_repr(a.repr).unwrap();
    let y = Fp::from_repr(b.repr).unwrap();
    FieldElement { repr: (x + y).to_repr() }
}

/// The random linear combination of `bytes` with the challenge `r`: the
/// bytes are the coefficients of a polynomial, the first byte that of the
/// highest power, and the combination is its value at `r` in the field.
pub open spec fn rlc(bytes: Seq<u8>, r: nat) -> nat
    decreases bytes.len(),
{
    if bytes.len() == 0 {
        0
    } else {
        (rlc(bytes.drop_last(), r) * r + bytes.last() as nat) % modulus()
    }
}

/// Representations of the same length that stand for the same number are
/// the same.
pub proof fn lemma_le_value_injective(a: Seq<u8>, b: Seq<u8>)
    requires
        a.len() == b.len(),
        le_value(a) == le_value(b),
    ensures
        a =~= b,
    decreases a.len(),
{
    if a.len() > 0 {
        let ra = a.subrange(1, a.len() as int);
        let rb = b.subrange(1, b.len() as int);
        assert(a[0] as nat + 256 * le_value(ra) == b[0] as nat + 256 * le_value(rb));
        assert(a[0] == b[0] && le_value(ra) == le_value(rb)) by (nonlinear_arith)
            requires
                a[0] as nat + 256 * le_value(ra) == b[0] as nat + 256 * le_value(rb),
                a[0] < 256,
                b[0] < 256,
        ;
        lemma_le_value_injective(ra, rb);
        assert forall|i: int| 0 <= i < a.len() implies a[i] == b[i] by {
            if i > 0 {
                assert(a[i] == ra[i - 1]);
                assert(b[i] == rb[i - 1]);
            }
        }
    }
}

impl FieldElement {
    /// The element that stands for `x`.
    pub fn from_u64(x: u64) -> (r: FieldElement)
        ensures
            r.wf(),
            r.value() == x,
    {
        fp_from_u64(x)
    }

    /// The product of two elements.
    pub fn mul(&self, other: &FieldElement) -> (r: FieldElement)
        requires
            self.wf(),
            other.wf(),
        ensures
            r.wf(),
            r.value() == (self.value() * other.value()) % modulus(),
    {
        fp_mul(self, other)
    }

    /// The sum of two elements.
    pub fn add(&self, other: &FieldElement) -> (r: FieldElement)
        requires
            self.wf(),
            other.wf(),
        ensures
            r.wf(),
            r.value() == (self.value() + other.value()) % modulus(),
    {
        fp_add(self, other)
    }

    /// Whether two elements are the same, which canonical elements are
    /// exactly when they stand for the same number.
    pub fn same(&self, other: &FieldElement) -> (b: bool)
        ensures
            b == (self.repr@ == other.repr@),
            b == (self.value() == other.value()),
    {
        let mut i: usize = 0;
        while i < 32
            invariant
                i <= 32,
                forall|j: int| 0 <= j < i ==> self.repr@[j] == other.repr@[j],
            decreases 32 - i,
        {
            if self.repr[i] != other.repr[i] {
                proof {
                    if self.value() == other.value() {
                        lemma_le_value_injective(self.repr@, other.repr@);
                    }
                }
                return false;
            }
            i = i + 1;
        }
        assert(self.repr@ =~= other.repr@);
        true
    }
}

/// The random linear combination of `bytes` with the challenge `r`.
pub fn rlc_value(bytes: &[u8], r: &FieldElement) -> (acc: FieldElement)
    requires
        r.wf(),
    ensures
        acc.wf(),
        acc.value() == rlc(bytes@, r.value()),
{
    let mut acc = FieldElement::from_u64(0);
    let mut i: usize = 0;
    proof {
        assert(bytes@.take(0) =~= Seq::<u8>::empty());
        lemma_small_mod(0, modulus());
    }
    while i < bytes.len()
        invariant
            i <= bytes@.len(),
            r.wf(),
            acc.wf(),
            acc.value() == rlc(bytes@.take(i as int), r.value()),
        decreases bytes@.len() - i,
    {
        let byte = FieldElement::from_u64(bytes[i] as u64);
        let scaled = acc.mul(r);
        let next = scaled.add(&byte);
        proof {
            let prefix = bytes@.take(i as int + 1);
            assert(prefix.drop_last() =~= bytes@.take(i as int));
            assert(prefix.last() == bytes@[i as int]);
            let m = modulus() as int;
            let x = (acc.value() * r.value()) as int;
            let b = byte.value() as int;
            lemma_small_mod(b as nat, modulus());
            lemma_add_mod_noop(x, b, m);
        }
        acc = next;
        i = i + 1;
    }
    proof {
        assert(bytes@.take(i as int) =~= bytes@);
    }
    acc
}

} // verus!
