use cgt_misere::bit_vec::fixed::FixedBitVec;
use cgt_misere::bit_vec::reference::BitVecRef;

#[test]
fn get_set() {
    let mut bit_vec = FixedBitVec::<{ 32 / 8 }>::new();
    bit_vec.set(10, true);
    bit_vec.set(16, true);
    assert_eq!(bit_vec.get(4), false);
    assert_eq!(bit_vec.get(10), true);
    assert_eq!(bit_vec.get(14), false);
    assert_eq!(bit_vec.get(16), true);
    assert_eq!(bit_vec.get(30), false);
}

#[test]
fn filled_bits_are_true_and_can_be_cleared() {
    let mut bit_vec = FixedBitVec::<2>::filled();
    for i in 0..16 {
        assert!(bit_vec.get(i));
    }
    bit_vec.set(7, false);
    assert!(!bit_vec.get(7));
    assert!(bit_vec.get(6));
    assert!(bit_vec.get(8));
}

#[test]
fn set_overwrites_only_its_bit() {
    let mut bit_vec = FixedBitVec::<1>::new();
    bit_vec.set(3, true);
    bit_vec.set(3, true);
    bit_vec.set(5, true);
    bit_vec.set(3, false);
    let expected = [false, false, false, false, false, true, false, false];
    for (i, e) in expected.iter().enumerate() {
        assert_eq!(bit_vec.get(i), *e);
    }
}

#[test]
fn bit_vec_ref_reads_bytes_lowest_bit_first() {
    let mut bits = BitVecRef::from_inner(vec![0b0000_0101, 0b1000_0000]);
    assert!(bits.get(0));
    assert!(!bits.get(1));
    assert!(bits.get(2));
    assert!(bits.get(15));
    assert!(!bits.get(14));
    bits.set(1, true);
    bits.set(15, false);
    assert_eq!(bits.to_inner(), &[0b0000_0111, 0b0000_0000]);
}

#[test]
fn debug_text_lists_bytes_highest_bit_first() {
    let mut bit_vec = FixedBitVec::<2>::new();
    bit_vec.set(0, true);
    bit_vec.set(9, true);
    bit_vec.set(15, true);
    assert_eq!(bit_vec.debug_text(), "[\"0b00000001\", \"0b10000010\"]");
    assert_eq!(FixedBitVec::<0>::new().debug_text(), "[]");
    let r = BitVecRef::from_inner(vec![0b1010_0000]);
    assert_eq!(r.debug_text(), "[\"0b10100000\"]");
}
