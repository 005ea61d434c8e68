//! Bit-level access for constant-time code.
//!
//! A value whose type declares a fixed bit length can be addressed bit by
//! bit, in either MSB0 or LSB0 order, as constant-time booleans; a sequence
//! of constant-time booleans can be turned back into a value.  No operation
//! branches on the secret content: only the index arithmetic, which is
//! public, steers the computation.

use vstd::prelude::*;

pub mod array;
pub mod ctbool;
pub mod text;

verus! {

use crate::ctbool::CtBool;

/// Which end of a value bit index 0 addresses: the most significant bit
/// (`Msb0`) or the least significant bit (`Lsb0`).
///
/// The tag is public data and is only dispatched on; it never depends on
/// secret content.
#[derive(Clone, Copy, PartialEq, Eq, Structural, Debug)]
pub enum BitOrder {
    Msb0,
    Lsb0,
}

/// The boolean values carried by a sequence of constant-time booleans.
pub open spec fn bools_of(s: Seq<CtBool>) -> Seq<bool> {
    s.map_values(|c: CtBool| c@)
}

/// A type with a fixed, statically known number of addressable bits.
pub trait BitLength {
    /// The declared bit length of the type.
    spec fn spec_bits() -> nat;

    /// The declared bit length, as a machine word.
    fn bits() -> (r: usize)
        requires
            Self::spec_bits() <= usize::MAX,
        ensures
            r as nat == Self::spec_bits(),
    ;
}

/// Single-bit extraction in a chosen order, as a constant-time boolean.
pub trait GetBit: BitLength {
    /// Structural well-formedness of the value.
    spec fn wf(&self) -> bool;

    /// The bit addressed by index `i` under `order`.
    spec fn spec_bit(&self, i: int, order: BitOrder) -> bool;

    /// Extract one bit.  The index must lie below the declared bit length;
    /// an index at or above it is caller misuse and is ruled out here.
    fn get_bit(&self, index: usize, order: BitOrder) -> (r: CtBool)
        requires
            self.wf(),
            Self::spec_bits() <= usize::MAX,
            (index as nat) < Self::spec_bits(),
        ensures
            r@ == self.spec_bit(index as int, order),
    ;
}

/// The full bit sequence of a value under `order`, bit `i` being the one
/// that `get_bit(i, order)` addresses.
pub open spec fn bit_seq_of<T: GetBit>(v: &T, order: BitOrder) -> Seq<bool> {
    Seq::new(T::spec_bits(), |i: int| v.spec_bit(i, order))
}

/// A type whose bits can be produced as an ordered sequence by driving
/// `get_bit` across the whole index range.
pub trait BitIterable: GetBit {

}

/// Produce the bits of `v` under `order`, index 0 first.
pub fn to_bit_vec<T: BitIterable>(v: &T, order: BitOrder) -> (r: Vec<CtBool>)
    requires
        v.wf(),
        T::spec_bits() <= usize::MAX,
    ensures
        bools_of(r@) == bit_seq_of(v, order),
{
    let n = T::bits();
    let mut out: Vec<CtBool> = Vec::new();
    let mut i: usize = 0;
    while i < n
        invariant
            i <= n,
            n as nat == T::spec_bits(),
            v.wf(),
            T::spec_bits() <= usize::MAX,
            out@.len() == i,
            forall|j: int| 0 <= j < i ==> #[trigger] bools_of(out@)[j] == v.spec_bit(j, order),
        decreases n - i,
    {
        let b = v.get_bit(i, order);
        let ghost out0 = out@;
        out.push(b);
        i += 1;
        proof {
            assert forall|j: int| 0 <= j < i implies #[trigger] bools_of(out@)[j] == v.spec_bit(
                j,
                order,
            ) by {
                assert(bools_of(out@)[j] == out@[j]@);
                if j < i - 1 {
                    assert(out@[j] == out0[j]);
                    assert(bools_of(out0)[j] == out0[j]@);
                }
            }
        }
    }
    proof {
        assert(bools_of(out@) =~= bit_seq_of(v, order));
    }
    out
}

/// Produce the bits of `v` with index 0 at the most significant end.
pub fn to_msb0_vec<T: BitIterable>(v: &T) -> (r: Vec<CtBool>)
    requires
        v.wf(),
        T::spec_bits() <= usize::MAX,
    ensures
        bools_of(r@) == bit_seq_of(v, BitOrder::Msb0),
{
    to_bit_vec(v, BitOrder::Msb0)
}

/// Produce the bits of `v` with index 0 at the least significant end.
pub fn to_lsb0_vec<T: BitIterable>(v: &T) -> (r: Vec<CtBool>)
    requires
        v.wf(),
        T::spec_bits() <= usize::MAX,
    ensures
        bools_of(r@) == bit_seq_of(v, BitOrder::Lsb0),
{
    to_bit_vec(v, BitOrder::Lsb0)
}

/// Bit extraction with the bound reported instead of assumed: `None`
/// exactly when the index is at or above the declared bit length.
pub fn checked_get_bit<T: GetBit>(v: &T, index: usize, order: BitOrder) -> (r: Option<CtBool>)
    requires
        v.wf(),
        T::spec_bits() <= usize::MAX,
    ensures
        (index as nat) < T::spec_bits() ==> (r matches Some(c) && c@ == v.spec_bit(
            index as int,
            order,
        )),
        (index as nat) >= T::spec_bits() ==> r is None,
{
    let n = T::bits();
    if index < n {
        Some(v.get_bit(index, order))
    } else {
        None
    }
}

/// Reconstruction of a value from a sequence of constant-time booleans,
/// read as MSB0 or LSB0.
///
/// `bits` is the supply and `pos` the read cursor: a call consumes
/// `spec_consumes` of the bits still available and advances the cursor past
/// them, so that several reconstructions can share one supply, each taking
/// its own run.  A supply too short for the type is caller misuse and is
/// ruled out by contract rather than padded or truncated.
pub trait FromBitIterator: Sized {
    /// How many bits one reconstruction consumes out of `avail` available.
    spec fn spec_consumes(avail: nat) -> nat;

    /// What the reconstructed value is when `taken` was consumed as MSB0.
    spec fn spec_from_msb0(r: &Self, taken: Seq<bool>) -> bool;

    /// What the reconstructed value is when `taken` was consumed as LSB0.
    spec fn spec_from_lsb0(r: &Self, taken: Seq<bool>) -> bool;

    /// Consume bits from the cursor onward, reading them as MSB0.
    fn from_msb0_iter(bits: &Vec<CtBool>, pos: &mut usize) -> (r: Self)
        requires
            *old(pos) <= bits@.len(),
            Self::spec_consumes((bits@.len() - *old(pos)) as nat) <= bits@.len() - *old(pos),
        ensures
            *final(pos) == *old(pos) + Self::spec_consumes((bits@.len() - *old(pos)) as nat),
            Self::spec_from_msb0(
                &r,
                bools_of(bits@).subrange(*old(pos) as int, *final(pos) as int),
            ),
    ;

    /// Consume bits from the cursor onward, reading them as LSB0.
    fn from_lsb0_iter(bits: &Vec<CtBool>, pos: &mut usize) -> (r: Self)
        requires
            *old(pos) <= bits@.len(),
            Self::spec_consumes((bits@.len() - *old(pos)) as nat) <= bits@.len() - *old(pos),
        ensures
            *final(pos) == *old(pos) + Self::spec_consumes((bits@.len() - *old(pos)) as nat),
            Self::spec_from_lsb0(
                &r,
                bools_of(bits@).subrange(*old(pos) as int, *final(pos) as int),
            ),
    ;
}

/// A type that both produces and reconstructs its bit sequences, with the
/// two sides proved to agree.
pub trait BitCodec: BitIterable + FromBitIterator {
    /// Reconstruction consumes exactly the declared bit length, whatever is
    /// available.
    proof fn lemma_consumes_bits(avail: nat)
        ensures
            Self::spec_consumes(avail) == Self::spec_bits(),
    ;

    /// A value reconstructed from an MSB0 run carries exactly those bits.
    proof fn lemma_from_msb0_model(r: &Self, taken: Seq<bool>)
        requires
            Self::spec_from_msb0(r, taken),
            taken.len() == Self::spec_bits(),
        ensures
            r.wf(),
            bit_seq_of(r, BitOrder::Msb0) == taken,
    ;

    /// A value reconstructed from an LSB0 run carries exactly those bits.
    proof fn lemma_from_lsb0_model(r: &Self, taken: Seq<bool>)
        requires
            Self::spec_from_lsb0(r, taken),
            taken.len() == Self::spec_bits(),
        ensures
            r.wf(),
            bit_seq_of(r, BitOrder::Lsb0) == taken,
    ;
}

/// Law: a bit sequence produced in MSB0 order and consumed again in MSB0
/// order reconstructs a value with exactly the bits of the source value.
pub proof fn lemma_round_trip_msb0<T: BitCodec>(v: &T, r: &T)
    requires
        v.wf(),
        T::spec_from_msb0(r, bit_seq_of(v, BitOrder::Msb0)),
    ensures
        r.wf(),
        bit_seq_of(r, BitOrder::Msb0) == bit_seq_of(v, BitOrder::Msb0),
{
    T::lemma_from_msb0_model(r, bit_seq_of(v, BitOrder::Msb0));
}

/// Law: a bit sequence produced in LSB0 order and consumed again in LSB0
/// order reconstructs a value with exactly the bits of the source value.
pub proof fn lemma_round_trip_lsb0<T: BitCodec>(v: &T, r: &T)
    requires
        v.wf(),
        T::spec_from_lsb0(r, bit_seq_of(v, BitOrder::Lsb0)),
    ensures
        r.wf(),
        bit_seq_of(r, BitOrder::Lsb0) == bit_seq_of(v, BitOrder::Lsb0),
{
    T::lemma_from_lsb0_model(r, bit_seq_of(v, BitOrder::Lsb0));
}

} // verus!
