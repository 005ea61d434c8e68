//! Textual bit scanning and rendering.
//!
//! A text whose characters are decimal digits scans to one bit per
//! character: clear for `'0'`, set for any other digit.  A character that
//! is not a digit is malformed input and is ruled out by contract.  In the
//! other direction a bit sequence renders to `'0'`/`'1'` text; the
//! character is picked by constant-time selection, never by a branch on
//! the bit.

use vstd::prelude::*;
use vstd::string::StrSliceExecFns;

use crate::ctbool::{ct_ne_u32, ct_select_u8, CtBool};
use crate::{bools_of, FromBitIterator};

verus! {

/// A character that stands for one bit: exactly the decimal digits.
pub open spec fn is_bit_digit(c: char) -> bool {
    48 <= c as u32 && c as u32 <= 57
}

/// The bit a digit character stands for: set for every digit but `'0'`.
pub open spec fn char_bit(c: char) -> bool {
    c as u32 != 48
}

/// The bits a text scans to, character by character, front first.
pub open spec fn scan_bits(text: Seq<char>) -> Seq<bool> {
    text.map_values(|c: char| char_bit(c))
}

/// The character a bit renders to.
pub open spec fn bit_char(b: bool) -> char {
    if b {
        '1'
    } else {
        '0'
    }
}

/// The text an MSB0 bit sequence renders to: one character per bit, in
/// arrival order.
pub open spec fn render_msb0(bits: Seq<bool>) -> Seq<char> {
    bits.map_values(|b: bool| bit_char(b))
}

/// The text an LSB0 bit sequence renders to.  Rendered text always reads
/// most-significant-first, so bits arriving least-significant-first come
/// out reversed.
pub open spec fn render_lsb0(bits: Seq<bool>) -> Seq<char> {
    render_msb0(bits.reverse())
}

/// Iterator over a bit string.
///
/// Steps over the characters of a text, yielding a set bit for any digit
/// other than `'0'` and a clear bit for `'0'`.  It can be driven from
/// either end; every character it is asked to step over must be a decimal
/// digit.
#[derive(Debug, Clone)]
pub struct StrBitIter<'a> {
    text: &'a str,
    pos: usize,
    end: usize,
}

impl<'a> StrBitIter<'a> {
    /// The scanned text.
    pub closed spec fn text_view(&self) -> Seq<char> {
        self.text@
    }

    /// The front cursor.
    pub closed spec fn spec_pos(&self) -> int {
        self.pos as int
    }

    /// The back cursor.
    pub closed spec fn spec_end(&self) -> int {
        self.end as int
    }

    /// Both cursors lie in the text, front one first.
    pub open spec fn wf(&self) -> bool {
        0 <= self.spec_pos() <= self.spec_end() <= self.text_view().len()
    }

    /// The characters not yet stepped over.
    pub open spec fn remaining(&self) -> Seq<char> {
        self.text_view().subrange(self.spec_pos(), self.spec_end())
    }

    /// Start a scan over the whole text.
    pub fn new(text: &'a str) -> (r: Self)
        ensures
            r.wf(),
            r.text_view() == text@,
            r.remaining() == text@,
    {
        let n = text.unicode_len();
        let r = StrBitIter { text, pos: 0, end: n };
        proof {
            assert(r.remaining() =~= text@);
        }
        r
    }

    /// One bit off the front; `None` once the scan is exhausted.  The
    /// front character, if any, must be a digit.
    pub fn next(&mut self) -> (r: Option<CtBool>)
        requires
            old(self).wf(),
            old(self).remaining().len() > 0 ==> is_bit_digit(old(self).remaining()[0]),
        ensures
            final(self).wf(),
            final(self).text_view() == old(self).text_view(),
            old(self).remaining().len() == 0 ==> r is None && final(self).remaining() == old(
                self,
            ).remaining(),
            old(self).remaining().len() > 0 ==> (r matches Some(b) && b@ == char_bit(
                old(self).remaining()[0],
            ) && final(self).remaining() == old(self).remaining().drop_first()),
    {
        if self.pos < self.end {
            let c = self.text.get_char(self.pos);
            proof {
                assert(c == old(self).remaining()[0]);
            }
            let d = c as u32;
            let bit = ct_ne_u32(d - 48, 0);
            self.pos = self.pos + 1;
            proof {
                assert(self.remaining() =~= old(self).remaining().drop_first());
            }
            Some(bit)
        } else {
            None
        }
    }

    /// One bit off the back; `None` once the scan is exhausted.  The back
    /// character, if any, must be a digit.
    pub fn next_back(&mut self) -> (r: Option<CtBool>)
        requires
            old(self).wf(),
            old(self).remaining().len() > 0 ==> is_bit_digit(old(self).remaining().last()),
        ensures
            final(self).wf(),
            final(self).text_view() == old(self).text_view(),
            old(self).remaining().len() == 0 ==> r is None && final(self).remaining() == old(
                self,
            ).remaining(),
            old(self).remaining().len() > 0 ==> (r matches Some(b) && b@ == char_bit(
                old(self).remaining().last(),
            ) && final(self).remaining() == old(self).remaining().drop_last()),
    {
        if self.pos < self.end {
            let c = self.text.get_char(self.end - 1);
            proof {
                assert(c == old(self).remaining().last());
            }
            let d = c as u32;
            let bit = ct_ne_u32(d - 48, 0);
            self.end = self.end - 1;
            proof {
                assert(self.remaining() =~= old(self).remaining().drop_last());
            }
            Some(bit)
        } else {
            None
        }
    }

    /// How many bits are left: the count is exact.
    pub fn size_hint(&self) -> (r: (usize, Option<usize>))
        requires
            self.wf(),
        ensures
            r.0 as nat == self.remaining().len(),
            r.1 == Some(r.0),
    {
        (self.end - self.pos, Some(self.end - self.pos))
    }
}

/// Scan a text as bits, front first.
pub fn iter_bits<'a>(text: &'a str) -> (r: StrBitIter<'a>)
    ensures
        r.wf(),
        r.text_view() == text@,
        r.remaining() == text@,
{
    StrBitIter::new(text)
}

/// Scan a whole text forward into its bit sequence.  Every character must
/// be a decimal digit.
pub fn scan_str(text: &str) -> (r: Vec<CtBool>)
    requires
        forall|i: int| 0 <= i < text@.len() ==> is_bit_digit(#[trigger] text@[i]),
    ensures
        bools_of(r@) == scan_bits(text@),
{
    let mut it = iter_bits(text);
    let n = text.unicode_len();
    let mut out: Vec<CtBool> = Vec::new();
    let mut i: usize = 0;
    proof {
        assert(text@.subrange(0, text@.len() as int) =~= text@);
    }
    while i < n
        invariant
            i <= n,
            n as nat == text@.len(),
            it.wf(),
            it.text_view() == text@,
            it.remaining() == text@.subrange(i as int, text@.len() as int),
            out@.len() == i,
            forall|j: int| 0 <= j < i ==> #[trigger] bools_of(out@)[j] == char_bit(text@[j]),
            forall|m: int| 0 <= m < text@.len() ==> is_bit_digit(#[trigger] text@[m]),
        decreases n - i,
    {
        let ghost out0 = out@;
        let b = it.next();
        let bit = b.unwrap();
        out.push(bit);
        i += 1;
        proof {
            assert(it.remaining() =~= text@.subrange(i as int, text@.len() as int));
            assert forall|j: int| 0 <= j < i implies #[trigger] bools_of(out@)[j] == char_bit(
                text@[j],
            ) by {
                assert(bools_of(out@)[j] == out@[j]@);
                if j < i - 1 {
                    assert(out@[j] == out0[j]);
                    assert(bools_of(out0)[j] == out0[j]@);
                }
            }
        }
    }
    proof {
        assert(bools_of(out@) =~= scan_bits(text@));
    }
    out
}

/// Scan a whole text backward into its bit sequence: the same bits as the
/// forward scan, in reverse.  Every character must be a decimal digit.
pub fn scan_str_rev(text: &str) -> (r: Vec<CtBool>)
    requires
        forall|i: int| 0 <= i < text@.len() ==> is_bit_digit(#[trigger] text@[i]),
    ensures
        bools_of(r@) == scan_bits(text@).reverse(),
{
    let mut it = iter_bits(text);
    let n = text.unicode_len();
    let mut out: Vec<CtBool> = Vec::new();
    let mut i: usize = 0;
    proof {
        assert(text@.subrange(0, text@.len() as int) =~= text@);
    }
    while i < n
        invariant
            i <= n,
            n as nat == text@.len(),
            it.wf(),
            it.text_view() == text@,
            it.remaining() == text@.subrange(0, (n - i) as int),
            out@.len() == i,
            forall|j: int| 0 <= j < i ==> #[trigger] bools_of(out@)[j] == char_bit(
                text@[n - 1 - j],
            ),
            forall|m: int| 0 <= m < text@.len() ==> is_bit_digit(#[trigger] text@[m]),
        decreases n - i,
    {
        let ghost out0 = out@;
        let b = it.next_back();
        let bit = b.unwrap();
        out.push(bit);
        i += 1;
        proof {
            assert(it.remaining() =~= text@.subrange(0, (n - i) as int));
            assert forall|j: int| 0 <= j < i implies #[trigger] bools_of(out@)[j] == char_bit(
                text@[n - 1 - j],
            ) by {
                assert(bools_of(out@)[j] == out@[j]@);
                if j < i - 1 {
                    assert(out@[j] == out0[j]);
                    assert(bools_of(out0)[j] == out0[j]@);
                }
            }
        }
    }
    proof {
        assert(bools_of(out@) =~= scan_bits(text@).reverse());
    }
    out
}

/// Append one character.  Relies on std's `String::push`, which appends
/// exactly the given character.
#[verifier::external_body]
fn push_char(s: &mut String, c: char)
    ensures
        final(s)@ == old(s)@.push(c),
{
    s.push(c);
}

impl FromBitIterator for String {
    /// Rendering consumes every bit still available.
    open spec fn spec_consumes(avail: nat) -> nat {
        avail
    }

    open spec fn spec_from_msb0(r: &Self, taken: Seq<bool>) -> bool {
        r@ == render_msb0(taken)
    }

    open spec fn spec_from_lsb0(r: &Self, taken: Seq<bool>) -> bool {
        r@ == render_lsb0(taken)
    }

    fn from_msb0_iter(bits: &Vec<CtBool>, pos: &mut usize) -> (r: Self) {
        let ghost start = *old(pos) as int;
        let n = bits.len();
        let mut s = String::new();
        let mut i: usize = *pos;
        while i < n
            invariant
                start <= i <= n,
                n == bits@.len(),
                s@.len() == i - start,
                forall|j: int| 0 <= j < i - start ==> #[trigger] s@[j] == bit_char(
                    bits@[start + j]@,
                ),
            decreases n - i,
        {
            let sel = ct_select_u8(48, 49, &bits[i]);
            push_char(&mut s, sel as char);
            i += 1;
            proof {
                assert((48u8 as char) == '0' && (49u8 as char) == '1');
            }
        }
        *pos = n;
        proof {
            assert(s@ =~= render_msb0(bools_of(bits@).subrange(start, n as int)));
        }
        s
    }

    fn from_lsb0_iter(bits: &Vec<CtBool>, pos: &mut usize) -> (r: Self) {
        let ghost start = *old(pos) as int;
        let n = bits.len();
        let mut s = String::new();
        let mut i: usize = n;
        while i > *pos
            invariant
                start <= i <= n,
                n == bits@.len(),
                *pos as int == start,
                s@.len() == n - i,
                forall|j: int| 0 <= j < n - i ==> #[trigger] s@[j] == bit_char(bits@[n - 1 - j]@),
            decreases i,
        {
            i -= 1;
            let sel = ct_select_u8(48, 49, &bits[i]);
            push_char(&mut s, sel as char);
            proof {
                assert((48u8 as char) == '0' && (49u8 as char) == '1');
            }
        }
        *pos = n;
        proof {
            let taken = bools_of(bits@).subrange(start, n as int);
            assert(s@ =~= render_msb0(taken.reverse()));
        }
        s
    }
}

/// Law: rendering an MSB0 bit sequence to text and re-scanning that text
/// yields the bit sequence back; the rendered text is all digits.
pub proof fn lemma_render_scan_msb0(bits: Seq<bool>)
    ensures
        scan_bits(render_msb0(bits)) == bits,
        forall|i: int| 0 <= i < render_msb0(bits).len() ==> is_bit_digit(
            #[trigger] render_msb0(bits)[i],
        ),
{
    assert forall|i: int| 0 <= i < render_msb0(bits).len() implies is_bit_digit(
        #[trigger] render_msb0(bits)[i],
    ) by {
        assert(render_msb0(bits)[i] == bit_char(bits[i]));
    }
    assert(scan_bits(render_msb0(bits)) =~= bits);
}

/// Law: rendering an LSB0 bit sequence to text and re-scanning that text
/// yields the bit sequence back, reversed — the rendered text reads
/// most-significant-first; the rendered text is all digits.
pub proof fn lemma_render_scan_lsb0(bits: Seq<bool>)
    ensures
        scan_bits(render_lsb0(bits)) == bits.reverse(),
        scan_bits(render_lsb0(bits)).reverse() == bits,
        forall|i: int| 0 <= i < render_lsb0(bits).len() ==> is_bit_digit(
            #[trigger] render_lsb0(bits)[i],
        ),
{
    lemma_render_scan_msb0(bits.reverse());
    assert(bits.reverse().reverse() =~= bits);
}

/// Law: scanning a text forward and reversing the resulting bit sequence
/// is the same as scanning the reversed text directly, which is what
/// driving the scan from the back yields.
pub proof fn lemma_scan_reverse(text: Seq<char>)
    ensures
        scan_bits(text).reverse() == scan_bits(text.reverse()),
{
    assert(scan_bits(text).reverse() =~= scan_bits(text.reverse()));
}

} // verus!
