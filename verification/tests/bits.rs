//! Scanning, rendering and bit access on concrete values.

use ctbits::array::FixedSeq;
use ctbits::ctbool::CtBool;
use ctbits::text::{iter_bits, scan_str, scan_str_rev};
use ctbits::{checked_get_bit, to_lsb0_vec, to_msb0_vec, BitLength, BitOrder, FromBitIterator};

fn ct(b: bool) -> CtBool {
    CtBool::new(b)
}

fn raw(bits: &[CtBool]) -> Vec<u8> {
    bits.iter().map(|b| b.unwrap_u8()).collect()
}

fn ct_vec(raw: &[u8]) -> Vec<CtBool> {
    raw.iter().map(|&b| ct(b != 0)).collect()
}

fn msb0_bits_of_u8(v: u8) -> Vec<CtBool> {
    (0..8).map(|k| ct((v >> (7 - k)) & 1 == 1)).collect()
}

#[test]
fn scan_empty_string() {
    assert_eq!(raw(&scan_str("")), Vec::<u8>::new());
}

#[test]
fn scan_one_bit_1() {
    assert_eq!(raw(&scan_str("1")), vec![1]);
}

#[test]
fn scan_one_bit_0() {
    assert_eq!(raw(&scan_str("0")), vec![0]);
}

#[test]
fn scan_nibble() {
    assert_eq!(raw(&scan_str("0101")), vec![0, 1, 0, 1]);
}

#[test]
fn scan_nonzero_digits_are_set() {
    for d in ["1", "2", "3", "4", "5", "6", "7", "8", "9"] {
        assert_eq!(raw(&scan_str(d)), vec![1]);
    }
}

#[test]
fn string_from_iters_renders_binary() {
    for v in 0..=255u32 {
        let v = v as u8;
        let bits = msb0_bits_of_u8(v);
        let expected_msb0 = format!("{:08b}", v);
        let expected_lsb0: String = expected_msb0.chars().rev().collect();

        let mut pos = 0;
        assert_eq!(String::from_msb0_iter(&bits, &mut pos), expected_msb0);
        assert_eq!(pos, 8);

        let mut pos = 0;
        assert_eq!(String::from_lsb0_iter(&bits, &mut pos), expected_lsb0);
        assert_eq!(pos, 8);
    }
}

#[test]
fn render_then_scan_round_trip() {
    let bits = ct_vec(&[1, 0, 1, 1, 0, 0, 1]);
    let mut pos = 0;
    let text = String::from_msb0_iter(&bits, &mut pos);
    assert_eq!(text, "1011001");
    assert_eq!(raw(&scan_str(&text)), raw(&bits));
}

#[test]
fn render_lsb0_then_scan_gives_reversed() {
    let bits = ct_vec(&[1, 1, 0, 1]);
    let mut pos = 0;
    let text = String::from_lsb0_iter(&bits, &mut pos);
    assert_eq!(text, "1011");
    let rescanned = raw(&scan_str(&text));
    let reversed: Vec<u8> = raw(&bits).into_iter().rev().collect();
    assert_eq!(rescanned, reversed);
}

#[test]
fn backward_scan_is_reversed_forward_scan() {
    let text = "0100110";
    let forward = raw(&scan_str(text));
    let backward = raw(&scan_str_rev(text));
    let mut reversed = forward.clone();
    reversed.reverse();
    assert_eq!(backward, reversed);
}

#[test]
fn str_bit_iter_steps_both_ends() {
    let mut it = iter_bits("10");
    let (lo, hi) = it.size_hint();
    assert_eq!(lo, 2);
    assert_eq!(hi, Some(2));

    let front = it.next().unwrap();
    assert_eq!(front.unwrap_u8(), 1);

    let back = it.next_back().unwrap();
    assert_eq!(back.unwrap_u8(), 0);

    let (lo, hi) = it.size_hint();
    assert_eq!(lo, 0);
    assert_eq!(hi, Some(0));
    assert!(it.next().is_none());
    assert!(it.next_back().is_none());
}

#[test]
fn ctbool_is_one_bit() {
    assert_eq!(CtBool::bits(), 1);
    let b = ct(true);
    let m = checked_get_bit(&b, 0, BitOrder::Msb0).unwrap();
    let l = checked_get_bit(&b, 0, BitOrder::Lsb0).unwrap();
    assert_eq!(m.unwrap_u8(), 1);
    assert_eq!(l.unwrap_u8(), 1);
    let z = ct(false);
    assert_eq!(checked_get_bit(&z, 0, BitOrder::Msb0).unwrap().unwrap_u8(), 0);
}

#[test]
fn fixed_seq_declares_product_length() {
    assert_eq!(<FixedSeq<CtBool, 8>>::bits(), 8);
    assert_eq!(<FixedSeq<FixedSeq<CtBool, 2>, 3>>::bits(), 6);
    assert_eq!(<FixedSeq<CtBool, 0>>::bits(), 0);
}

#[test]
fn fixed_seq_get_bit_fans_out_without_cross_element_reordering() {
    // two elements of two bits each: [a, b] and [c, d]
    let inner1 = FixedSeq::<CtBool, 2>::new(ct_vec(&[1, 0]));
    let inner2 = FixedSeq::<CtBool, 2>::new(ct_vec(&[0, 1]));
    let outer = FixedSeq::<FixedSeq<CtBool, 2>, 2>::new(vec![inner1, inner2]);

    let msb0: Vec<u8> = raw(&to_msb0_vec(&outer));
    assert_eq!(msb0, vec![1, 0, 0, 1]);

    // The order tag is handed down to the elements and never reorders
    // across them; a one-bit leaf has no direction, so both orders agree
    // at every index here.
    let lsb0: Vec<u8> = raw(&to_lsb0_vec(&outer));
    assert_eq!(lsb0, vec![1, 0, 0, 1]);
}

#[test]
fn checked_get_bit_reports_the_bound() {
    let v = FixedSeq::<CtBool, 4>::new(ct_vec(&[0, 1, 1, 0]));
    assert_eq!(checked_get_bit(&v, 0, BitOrder::Msb0).unwrap().unwrap_u8(), 0);
    assert_eq!(checked_get_bit(&v, 1, BitOrder::Msb0).unwrap().unwrap_u8(), 1);
    assert_eq!(checked_get_bit(&v, 3, BitOrder::Msb0).unwrap().unwrap_u8(), 0);
    assert!(checked_get_bit(&v, 4, BitOrder::Msb0).is_none());
    assert!(checked_get_bit(&v, 4, BitOrder::Lsb0).is_none());
    assert!(checked_get_bit(&v, usize::MAX, BitOrder::Msb0).is_none());

    let b = ct(true);
    assert!(checked_get_bit(&b, 0, BitOrder::Msb0).is_some());
    assert!(checked_get_bit(&b, 1, BitOrder::Msb0).is_none());
}

#[test]
fn fixed_seq_round_trips_through_its_bits() {
    let v = FixedSeq::<CtBool, 4>::new(ct_vec(&[0, 1, 1, 0]));

    let msb0 = to_msb0_vec(&v);
    let mut pos = 0;
    let back = FixedSeq::<CtBool, 4>::from_msb0_iter(&msb0, &mut pos);
    assert_eq!(pos, 4);
    assert_eq!(raw(&to_msb0_vec(&back)), raw(&msb0));

    let lsb0 = to_lsb0_vec(&v);
    let mut pos = 0;
    let back = FixedSeq::<CtBool, 4>::from_lsb0_iter(&lsb0, &mut pos);
    assert_eq!(pos, 4);
    assert_eq!(raw(&to_lsb0_vec(&back)), raw(&lsb0));
}

#[test]
fn shared_cursor_hands_out_chunks_in_order() {
    let bits = ct_vec(&[1, 0, 1, 1, 0, 0]);
    let mut pos = 0;
    let first = FixedSeq::<CtBool, 2>::from_msb0_iter(&bits, &mut pos);
    assert_eq!(pos, 2);
    let second = FixedSeq::<CtBool, 2>::from_msb0_iter(&bits, &mut pos);
    assert_eq!(pos, 4);
    let rest = String::from_msb0_iter(&bits, &mut pos);
    assert_eq!(pos, 6);
    assert_eq!(raw(&to_msb0_vec(&first)), vec![1, 0]);
    assert_eq!(raw(&to_msb0_vec(&second)), vec![1, 1]);
    assert_eq!(rest, "00");
}

#[test]
fn fixed_seq_bit_addressing_matches_shifts() {
    for v in 0..=255u32 {
        let v = v as u8;
        let fs = FixedSeq::<CtBool, 8>::new(msb0_bits_of_u8(v));
        for i in 0..8usize {
            let expected = (v >> (7 - i)) & 1;
            let m = checked_get_bit(&fs, i, BitOrder::Msb0).unwrap().unwrap_u8();
            assert_eq!(m, expected);
            // one-bit elements have no direction, so both orders agree
            let l = checked_get_bit(&fs, i, BitOrder::Lsb0).unwrap().unwrap_u8();
            assert_eq!(l, expected);
        }
        assert!(checked_get_bit(&fs, 8, BitOrder::Msb0).is_none());
    }
}

#[test]
fn scan_all_digits() {
    assert_eq!(raw(&scan_str("0123456789")), vec![0, 1, 1, 1, 1, 1, 1, 1, 1, 1]);
}

#[test]
fn eight_bit_value_renders_through_fixed_seq() {
    let v = 0b1010_0101u8;
    let elems = FixedSeq::<CtBool, 8>::new(msb0_bits_of_u8(v));
    let bits = to_msb0_vec(&elems);
    let mut pos = 0;
    let text = String::from_msb0_iter(&bits, &mut pos);
    assert_eq!(text, "10100101");
}
