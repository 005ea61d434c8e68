//! The constant-time boolean: the leaf the whole layer is built from.
//!
//! `CtBool` pairs subtle's `Choice` — the black-box constant-time carrier —
//! with the mathematical bit it holds, so that contracts can speak about
//! the bit while the executable code never branches on it.

use vstd::prelude::*;

use crate::{bit_seq_of, bools_of, BitCodec, BitIterable, BitLength, BitOrder, FromBitIterator, GetBit};

verus! {

#[verifier::external_type_specification]
#[verifier::external_body]
pub struct ExChoice(subtle::Choice);

/// A single secret bit, held behind subtle's constant-time `Choice`.
///
/// The view of a `CtBool` is the boolean it carries.  The carrier is opaque:
/// nothing here reads it except through subtle's own operations.
pub struct CtBool {
    bit: subtle::Choice,
    value: Ghost<bool>,
}

impl View for CtBool {
    type V = bool;

    closed spec fn view(&self) -> bool {
        self.value@
    }
}

impl CtBool {
    /// Wrap a bit.  Relies on subtle's `From<u8> for Choice`, which wraps
    /// 0 or 1 behind an optimization barrier without branching on it.
    #[verifier::external_body]
    pub fn new(b: bool) -> (r: CtBool)
        ensures
            r@ == b,
    {
        CtBool { bit: subtle::Choice::from(b as u8), value: Ghost(b) }
    }

    /// A second handle on the same bit.  Relies on subtle's `Choice` being
    /// `Copy`: the copy carries the same wrapped value.
    #[verifier::external_body]
    pub fn duplicate(&self) -> (r: CtBool)
        ensures
            r@ == self@,
    {
        CtBool { bit: self.bit, value: self.value }
    }

    /// Reveal the bit as 0 or 1.  Relies on subtle's `Choice::unwrap_u8`,
    /// which returns the wrapped byte; every constructor here wraps exactly
    /// 0 or 1.
    #[verifier::external_body]
    pub fn unwrap_u8(&self) -> (r: u8)
        ensures
            r == if self@ {
                1u8
            } else {
                0u8
            },
    {
        self.bit.unwrap_u8()
    }
}

/// Constant-time inequality of two public-typed words.  Relies on subtle's
/// `ConstantTimeEq::ct_ne` for `u32`: `Choice(1)` exactly when the two
/// differ, computed without a branch.
#[verifier::external_body]
pub(crate) fn ct_ne_u32(a: u32, b: u32) -> (r: CtBool)
    ensures
        r@ == (a != b),
{
    CtBool { bit: subtle::ConstantTimeEq::ct_ne(&a, &b), value: Ghost(a != b) }
}

/// Constant-time selection between two bytes.  Relies on subtle's
/// `ConditionallySelectable::conditional_select` for `u8`: the second byte
/// when the bit is set, the first otherwise, picked by masking.
#[verifier::external_body]
pub(crate) fn ct_select_u8(a: u8, b: u8, c: &CtBool) -> (r: u8)
    ensures
        r == if c@ {
            b
        } else {
            a
        },
{
    <u8 as subtle::ConditionallySelectable>::conditional_select(&a, &b, c.bit)
}

impl BitLength for CtBool {
    /// A constant-time boolean is exactly one bit.
    open spec fn spec_bits() -> nat {
        1
    }

    fn bits() -> (r: usize) {
        1
    }
}

impl GetBit for CtBool {
    open spec fn wf(&self) -> bool {
        true
    }

    /// A single bit has no direction: both orders address the value itself.
    open spec fn spec_bit(&self, i: int, order: BitOrder) -> bool {
        self@
    }

    fn get_bit(&self, index: usize, order: BitOrder) -> (r: CtBool) {
        self.duplicate()
    }
}

impl BitIterable for CtBool {

}

impl FromBitIterator for CtBool {
    open spec fn spec_consumes(avail: nat) -> nat {
        1
    }

    open spec fn spec_from_msb0(r: &Self, taken: Seq<bool>) -> bool {
        taken.len() == 1 && r@ == taken[0]
    }

    open spec fn spec_from_lsb0(r: &Self, taken: Seq<bool>) -> bool {
        taken.len() == 1 && r@ == taken[0]
    }

    fn from_msb0_iter(bits: &Vec<CtBool>, pos: &mut usize) -> (r: Self) {
        let i: usize = *pos;
        let n: usize = bits.len();
        assert(i < n);
        let r = bits[i].duplicate();
        *pos = i + 1;
        proof {
            assert(bools_of(bits@).subrange(i as int, i + 1) =~= seq![bits@[i as int]@]);
        }
        r
    }

    fn from_lsb0_iter(bits: &Vec<CtBool>, pos: &mut usize) -> (r: Self) {
        let i: usize = *pos;
        let n: usize = bits.len();
        assert(i < n);
        let r = bits[i].duplicate();
        *pos = i + 1;
        proof {
            assert(bools_of(bits@).subrange(i as int, i + 1) =~= seq![bits@[i as int]@]);
        }
        r
    }
}

impl BitCodec for CtBool {
    proof fn lemma_consumes_bits(avail: nat) {
    }

    proof fn lemma_from_msb0_model(r: &Self, taken: Seq<bool>) {
        assert(bit_seq_of(r, BitOrder::Msb0) =~= taken);
    }

    proof fn lemma_from_lsb0_model(r: &Self, taken: Seq<bool>) {
        assert(bit_seq_of(r, BitOrder::Lsb0) =~= taken);
    }
}

} // verus!
