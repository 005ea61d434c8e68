//! Fixed-size sequences of bit-iterable elements.
//!
//! A `FixedSeq<T, N>` holds exactly `N` elements of `T` and fans bit access
//! out over them: a flat bit index is split by integer division and
//! remainder on the element's bit length, and the requested order is handed
//! down to the element unchanged — there is no cross-element reordering.

use vstd::prelude::*;

use vstd::arithmetic::div_mod::{
    lemma_div_pos_is_pos, lemma_fundamental_div_mod, lemma_fundamental_div_mod_converse,
    lemma_mod_division_less_than_divisor, lemma_multiply_divide_lt,
};

use crate::ctbool::CtBool;
use crate::{
    bit_seq_of, bools_of, BitCodec, BitIterable, BitLength, BitOrder, FromBitIterator, GetBit,
};

verus! {

/// The element position a flat bit index falls into, for element bit
/// length `b`.
pub open spec fn elem_of(i: int, b: nat) -> int {
    i / (b as int)
}

/// The bit position within that element.
pub open spec fn offset_of(i: int, b: nat) -> int {
    i % (b as int)
}

/// The flat bit index of bit `j` of element `k`, for element bit length
/// `b`.
pub open spec fn flat_index(k: int, j: int, b: nat) -> int {
    k * (b as int) + j
}

/// The run of `taken` that element `k` consumes, for element bit length
/// `b`.
pub open spec fn chunk(taken: Seq<bool>, k: int, b: nat) -> Seq<bool> {
    taken.subrange(k * (b as int), k * (b as int) + (b as int))
}

/// Exactly `N` elements of `T`, addressed bit by bit as one value.
pub struct FixedSeq<T, const N: usize> {
    elems: Vec<T>,
}

impl<T, const N: usize> FixedSeq<T, N> {
    /// The elements, in sequence order.
    pub closed spec fn spec_elems(&self) -> Seq<T> {
        self.elems@
    }
}

impl<T: GetBit, const N: usize> FixedSeq<T, N> {
    /// Bundle exactly `N` well-formed elements.
    pub fn new(elems: Vec<T>) -> (r: Self)
        requires
            elems@.len() == N,
            forall|q: int| 0 <= q < N as int ==> (#[trigger] elems@[q]).wf(),
        ensures
            r.wf(),
            r.spec_elems() == elems@,
    {
        FixedSeq { elems }
    }
}

impl<T: BitLength, const N: usize> BitLength for FixedSeq<T, N> {
    /// The declared length is the arity times the element length.
    open spec fn spec_bits() -> nat {
        (N as nat) * T::spec_bits()
    }

    fn bits() -> (r: usize) {
        if N == 0 {
            proof {
                assert((N as int) * (T::spec_bits() as int) == 0) by (nonlinear_arith)
                    requires
                        N as int == 0,
                ;
            }
            0
        } else {
            proof {
                assert((T::spec_bits() as int) <= (N as int) * (T::spec_bits() as int))
                    by (nonlinear_arith)
                    requires
                        1 <= N as int,
                        0 <= T::spec_bits() as int,
                ;
            }
            let eb = T::bits();
            N * eb
        }
    }
}

impl<T: GetBit, const N: usize> GetBit for FixedSeq<T, N> {
    /// Exactly `N` elements, each well-formed.
    open spec fn wf(&self) -> bool {
        &&& self.spec_elems().len() == N
        &&& forall|q: int| 0 <= q < N as int ==> (#[trigger] self.spec_elems()[q]).wf()
    }

    /// Fan-out: the flat index is decomposed by division and remainder on
    /// the element bit length, and the order is handed down unchanged.
    open spec fn spec_bit(&self, i: int, order: BitOrder) -> bool {
        self.spec_elems()[elem_of(i, T::spec_bits())].spec_bit(
            offset_of(i, T::spec_bits()),
            order,
        )
    }

    fn get_bit(&self, index: usize, order: BitOrder) -> (r: CtBool) {
        proof {
            assert(1 <= N as int && 1 <= T::spec_bits() as int) by (nonlinear_arith)
                requires
                    (index as int) < (N as int) * (T::spec_bits() as int),
                    0 <= index as int,
                    0 <= N as int,
                    0 <= T::spec_bits() as int,
            ;
            assert((T::spec_bits() as int) <= (N as int) * (T::spec_bits() as int))
                by (nonlinear_arith)
                requires
                    1 <= N as int,
                    0 <= T::spec_bits() as int,
            ;
        }
        let eb = T::bits();
        let q = index / eb;
        let j = index % eb;
        proof {
            assert((index as int) < (eb as int) * (N as int)) by (nonlinear_arith)
                requires
                    (index as int) < (N as int) * (eb as int),
            ;
            lemma_multiply_divide_lt(index as int, eb as int, N as int);
            lemma_mod_division_less_than_divisor(index as int, eb as int);
        }
        self.elems[q].get_bit(j, order)
    }
}

impl<T: BitIterable, const N: usize> BitIterable for FixedSeq<T, N> {

}

impl<T: BitCodec, const N: usize> FromBitIterator for FixedSeq<T, N> {
    open spec fn spec_consumes(avail: nat) -> nat {
        (N as nat) * T::spec_bits()
    }

    /// Element `k` is reconstructed, in the same order, from the `k`-th run
    /// of `T::BITS` consumed bits.
    open spec fn spec_from_msb0(r: &Self, taken: Seq<bool>) -> bool {
        &&& taken.len() == (N as nat) * T::spec_bits()
        &&& r.spec_elems().len() == N
        &&& forall|k: int|
            #![trigger r.spec_elems()[k]]
            0 <= k < N as int ==> T::spec_from_msb0(
                &r.spec_elems()[k],
                chunk(taken, k, T::spec_bits()),
            )
    }

    open spec fn spec_from_lsb0(r: &Self, taken: Seq<bool>) -> bool {
        &&& taken.len() == (N as nat) * T::spec_bits()
        &&& r.spec_elems().len() == N
        &&& forall|k: int|
            #![trigger r.spec_elems()[k]]
            0 <= k < N as int ==> T::spec_from_lsb0(
                &r.spec_elems()[k],
                chunk(taken, k, T::spec_bits()),
            )
    }

    fn from_msb0_iter(bits: &Vec<CtBool>, pos: &mut usize) -> (r: Self) {
        let ghost start = *old(pos) as int;
        let ghost b = T::spec_bits() as int;
        let ghost taken = bools_of(bits@).subrange(start, start + (N as int) * b);
        let mut elems: Vec<T> = Vec::new();
        let mut k: usize = 0;
        while k < N
            invariant
                k <= N,
                elems@.len() == k,
                b == T::spec_bits() as int,
                start == *old(pos) as int,
                0 <= start,
                *pos as int == start + (k as int) * b,
                start + (N as int) * b <= bits@.len(),
                taken == bools_of(bits@).subrange(start, start + (N as int) * b),
                forall|m: int|
                    #![trigger elems@[m]]
                    0 <= m < k as int ==> T::spec_from_msb0(
                        &elems@[m],
                        chunk(taken, m, T::spec_bits()),
                    ),
            decreases N - k,
        {
            proof {
                assert(0 <= (k as int) * b && (k as int) * b + b <= (N as int) * b)
                    by (nonlinear_arith)
                    requires
                        0 <= k as int,
                        (k as int) + 1 <= N as int,
                        0 <= b,
                ;
                T::lemma_consumes_bits((bits@.len() - *pos) as nat);
            }
            let ghost here = *pos as int;
            let e = T::from_msb0_iter(bits, pos);
            elems.push(e);
            k += 1;
            proof {
                assert((k as int - 1) * b + b == (k as int) * b) by (nonlinear_arith);
                assert(chunk(taken, k as int - 1, T::spec_bits()) =~= bools_of(bits@).subrange(
                    here,
                    here + b,
                ));
            }
        }
        proof {
            T::lemma_consumes_bits((bits@.len() - start) as nat);
            assert(bools_of(bits@).subrange(*old(pos) as int, start + (N as int) * b) == taken);
        }
        FixedSeq { elems }
    }

    fn from_lsb0_iter(bits: &Vec<CtBool>, pos: &mut usize) -> (r: Self) {
        let ghost start = *old(pos) as int;
        let ghost b = T::spec_bits() as int;
        let ghost taken = bools_of(bits@).subrange(start, start + (N as int) * b);
        let mut elems: Vec<T> = Vec::new();
        let mut k: usize = 0;
        while k < N
            invariant
                k <= N,
                elems@.len() == k,
                b == T::spec_bits() as int,
                start == *old(pos) as int,
                0 <= start,
                *pos as int == start + (k as int) * b,
                start + (N as int) * b <= bits@.len(),
                taken == bools_of(bits@).subrange(start, start + (N as int) * b),
                forall|m: int|
                    #![trigger elems@[m]]
                    0 <= m < k as int ==> T::spec_from_lsb0(
                        &elems@[m],
                        chunk(taken, m, T::spec_bits()),
                    ),
            decreases N - k,
        {
            proof {
                assert(0 <= (k as int) * b && (k as int) * b + b <= (N as int) * b)
                    by (nonlinear_arith)
                    requires
                        0 <= k as int,
                        (k as int) + 1 <= N as int,
                        0 <= b,
                ;
                T::lemma_consumes_bits((bits@.len() - *pos) as nat);
            }
            let ghost here = *pos as int;
            let e = T::from_lsb0_iter(bits, pos);
            elems.push(e);
            k += 1;
            proof {
                assert((k as int - 1) * b + b == (k as int) * b) by (nonlinear_arith);
                assert(chunk(taken, k as int - 1, T::spec_bits()) =~= bools_of(bits@).subrange(
                    here,
                    here + b,
                ));
            }
        }
        proof {
            T::lemma_consumes_bits((bits@.len() - start) as nat);
            assert(bools_of(bits@).subrange(*old(pos) as int, start + (N as int) * b) == taken);
        }
        FixedSeq { elems }
    }
}

impl<T: BitCodec, const N: usize> BitCodec for FixedSeq<T, N> {
    proof fn lemma_consumes_bits(avail: nat) {
    }

    proof fn lemma_from_msb0_model(r: &Self, taken: Seq<bool>) {
        let b = T::spec_bits() as int;
        let n = N as int;
        assert forall|k: int| 0 <= k < n implies (#[trigger] r.spec_elems()[k]).wf() && bit_seq_of(
            &r.spec_elems()[k],
            BitOrder::Msb0,
        ) == chunk(taken, k, T::spec_bits()) by {
            assert(0 <= k * b && k * b + b <= n * b) by (nonlinear_arith)
                requires
                    0 <= k,
                    k + 1 <= n,
                    0 <= b,
            ;
            T::lemma_from_msb0_model(&r.spec_elems()[k], chunk(taken, k, T::spec_bits()));
        }
        assert forall|i: int| 0 <= i < n * b implies #[trigger] r.spec_bit(i, BitOrder::Msb0)
            == taken[i] by {
            lemma_elem_decomposition(i, n, b);
            let k = elem_of(i, T::spec_bits());
            let j = offset_of(i, T::spec_bits());
            assert(bit_seq_of(&r.spec_elems()[k], BitOrder::Msb0)[j] == chunk(
                taken,
                k,
                T::spec_bits(),
            )[j]);
        }
        assert(bit_seq_of(r, BitOrder::Msb0) =~= taken);
    }

    proof fn lemma_from_lsb0_model(r: &Self, taken: Seq<bool>) {
        let b = T::spec_bits() as int;
        let n = N as int;
        assert forall|k: int| 0 <= k < n implies (#[trigger] r.spec_elems()[k]).wf() && bit_seq_of(
            &r.spec_elems()[k],
            BitOrder::Lsb0,
        ) == chunk(taken, k, T::spec_bits()) by {
            assert(0 <= k * b && k * b + b <= n * b) by (nonlinear_arith)
                requires
                    0 <= k,
                    k + 1 <= n,
                    0 <= b,
            ;
            T::lemma_from_lsb0_model(&r.spec_elems()[k], chunk(taken, k, T::spec_bits()));
        }
        assert forall|i: int| 0 <= i < n * b implies #[trigger] r.spec_bit(i, BitOrder::Lsb0)
            == taken[i] by {
            lemma_elem_decomposition(i, n, b);
            let k = elem_of(i, T::spec_bits());
            let j = offset_of(i, T::spec_bits());
            assert(bit_seq_of(&r.spec_elems()[k], BitOrder::Lsb0)[j] == chunk(
                taken,
                k,
                T::spec_bits(),
            )[j]);
        }
        assert(bit_seq_of(r, BitOrder::Lsb0) =~= taken);
    }
}

/// The coordinates of flat index `i` are in range and recompose to `i`,
/// for `n` elements of `b` bits each.
proof fn lemma_elem_decomposition(i: int, n: int, b: int)
    requires
        0 <= i < n * b,
        0 <= n,
        0 <= b,
    ensures
        0 <= i / b < n,
        0 <= i % b < b,
        (i / b) * b + (i % b) == i,
        0 <= (i / b) * b && (i / b) * b + b <= n * b,
{
    assert(1 <= b && 1 <= n) by (nonlinear_arith)
        requires
            0 <= i < n * b,
            0 <= n,
            0 <= b,
    ;
    assert(i < b * n) by (nonlinear_arith)
        requires
            i < n * b,
    ;
    lemma_multiply_divide_lt(i, b, n);
    lemma_mod_division_less_than_divisor(i, b);
    lemma_fundamental_div_mod(i, b);
    lemma_div_pos_is_pos(i, b);
    assert((i / b) * b == b * (i / b)) by (nonlinear_arith);
    assert(0 <= (i / b) * b && (i / b) * b + b <= n * b) by (nonlinear_arith)
        requires
            0 <= i / b,
            i / b + 1 <= n,
            0 <= b,
    ;
}

/// Law: a fixed-size sequence of `N` elements declares exactly `N` times
/// the element's declared bit length.
pub proof fn lemma_fixed_seq_bits<T: BitLength, const N: usize>()
    ensures
        FixedSeq::<T, N>::spec_bits() == (N as nat) * T::spec_bits(),
{
}

/// Law: for a fixed-size sequence of `n` elements of `b` bits each, the
/// (element position, bit-within-element) decomposition by division and
/// remainder is a bijection between the flat index range `[0, n*b)` and
/// the coordinate space `[0, n) x [0, b)`: every flat index lands on
/// exactly one coordinate pair, and every coordinate pair is hit by
/// exactly one flat index.
pub proof fn lemma_index_decomposition(n: nat, b: nat)
    requires
        b >= 1,
    ensures
        forall|i: int|
            #![trigger elem_of(i, b)]
            #![trigger offset_of(i, b)]
            0 <= i < n * b ==> 0 <= elem_of(i, b) < n && 0 <= offset_of(i, b) < b && flat_index(
                elem_of(i, b),
                offset_of(i, b),
                b,
            ) == i,
        forall|k: int, j: int|
            #![trigger flat_index(k, j, b)]
            0 <= k < n && 0 <= j < b ==> 0 <= flat_index(k, j, b) < n * b && elem_of(
                flat_index(k, j, b),
                b,
            ) == k && offset_of(flat_index(k, j, b), b) == j,
        forall|i1: int, i2: int|
            0 <= i1 < n * b && 0 <= i2 < n * b && #[trigger] elem_of(i1, b) == #[trigger] elem_of(
                i2,
                b,
            ) && offset_of(i1, b) == offset_of(i2, b) ==> i1 == i2,
{
    assert forall|i: int| 0 <= i < n * b implies 0 <= #[trigger] elem_of(i, b) < n && 0
        <= offset_of(i, b) < b && flat_index(elem_of(i, b), offset_of(i, b), b) == i by {
        lemma_elem_decomposition(i, n as int, b as int);
    }
    assert forall|k: int, j: int| 0 <= k < n && 0 <= j < b implies 0 <= #[trigger] flat_index(
        k,
        j,
        b,
    ) < n * b && elem_of(flat_index(k, j, b), b) == k && offset_of(flat_index(k, j, b), b)
        == j by {
        assert(0 <= k * (b as int) + j && k * (b as int) + j < n * b) by (nonlinear_arith)
            requires
                0 <= k,
                k + 1 <= n as int,
                0 <= j,
                j < b as int,
        ;
        lemma_fundamental_div_mod_converse(flat_index(k, j, b), b as int, k, j);
    }
}

} // verus!
