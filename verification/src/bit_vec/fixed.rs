//! Fixed-size bit vector

use vstd::prelude::*;
use crate::bit_vec::text::{bits_text, bytes_text};

verus! {

/// Bit `k` of `byte`
pub open spec fn bit_of(byte: u8, k: u8) -> bool {
    byte & (1u8 << k) != 0
}

/// The bits of a sequence of bytes, lowest bit of the first byte first
pub open spec fn bits_of(bytes: Seq<u8>) -> Seq<bool> {
    Seq::new(bytes.len() * 8, |i: int| bit_of(bytes[i / 8], (i % 8) as u8))
}

/// Reading the bit at `index & 7` of a byte, as `get` computes it
pub proof fn lemma_read_bit(byte: u8, index: usize)
    ensures
        (byte & (1u8 << ((index & 7) as u8)) != 0) == bit_of(byte, (index % 8) as u8),
{
    assert(index & 7 == index % 8) by (bit_vector);
}

/// Writing bit `k` of a byte changes that bit to `value` and no other bit.
pub proof fn lemma_write_bit(byte: u8, k: u8, value: bool)
    requires
        k < 8,
    ensures
        bit_of((byte & !(1u8 << k)) | ((if value { 1u8 } else { 0u8 }) << k), k) == value,
        forall|j: u8| j < 8 && j != k ==> bit_of((byte & !(1u8 << k)) | ((if value { 1u8 } else { 0u8 }) << k), j)
            == bit_of(byte, j),
{
    if value {
        assert(((byte & !(1u8 << k)) | (1u8 << k)) & (1u8 << k) != 0) by (bit_vector)
            requires
                k < 8,
        ;
        assert forall|j: u8| j < 8 && j != k implies (((byte & !(1u8 << k)) | (1u8 << k)) & (1u8 << j) != 0)
            == (byte & (1u8 << j) != 0) by {
            assert((((byte & !(1u8 << k)) | (1u8 << k)) & (1u8 << j) != 0) == (byte & (1u8 << j) != 0)) by (bit_vector)
                requires
                    k < 8,
                    j < 8,
                    j != k,
            ;
        }
    } else {
        assert(((byte & !(1u8 << k)) | (0u8 << k)) & (1u8 << k) == 0) by (bit_vector)
            requires
                k < 8,
        ;
        assert forall|j: u8| j < 8 && j != k implies (((byte & !(1u8 << k)) | (0u8 << k)) & (1u8 << j) != 0)
            == (byte & (1u8 << j) != 0) by {
            assert((((byte & !(1u8 << k)) | (0u8 << k)) & (1u8 << j) != 0) == (byte & (1u8 << j) != 0)) by (bit_vector)
                requires
                    k < 8,
                    j < 8,
                    j != k,
            ;
        }
    }
}

/// Fixed-size bit vector
///
/// Note that the size is in *bytes* rather than bits.
#[derive(Debug, Clone, Copy, PartialEq, Eq, PartialOrd, Ord, Hash)]
pub struct FixedBitVec<const BYTE_LEN: usize> {
    data: [u8; BYTE_LEN],
}

impl<const BYTE_LEN: usize> View for FixedBitVec<BYTE_LEN> {
    type V = Seq<bool>;

    closed spec fn view(&self) -> Seq<bool> {
        bits_of(self.data@)
    }
}

impl<const BYTE_LEN: usize> FixedBitVec<BYTE_LEN> {
    /// Debugging text: the bytes as a list of quoted binary literals, highest
    /// bit first
    pub fn debug_text(&self) -> (r: String)
        ensures
            r@ == bits_text(self@),
    {
        proof {
            broadcast use vstd::array::axiom_spec_array_as_slice;
        }
        bytes_text(self.data.as_slice())
    }

    /// Construct new empty (all false) bitvec
    pub fn new() -> (r: FixedBitVec<BYTE_LEN>)
        ensures
            r@ == Seq::new(BYTE_LEN as nat * 8, |i: int| false),
    {
        let r = FixedBitVec { data: vstd::array::array_fill_for_copy_types::<u8, BYTE_LEN>(0u8) };
        proof {
            broadcast use vstd::array::axiom_spec_array_fill_for_copy_type;
            broadcast use vstd::array::array_len_matches_n;

            assert forall|i: int| 0 <= i < BYTE_LEN * 8 implies !#[trigger] r@[i] by {
                let b = r.data@[i / 8];
                assert(b == 0);
                let k = (i % 8) as u8;
                assert(0u8 & (1u8 << k) == 0) by (bit_vector);
            }
            assert(r@ =~= Seq::new(BYTE_LEN as nat * 8, |i: int| false));
        }
        r
    }

    /// Construct new filled (all true) bitvec
    pub fn filled() -> (r: FixedBitVec<BYTE_LEN>)
        ensures
            r@ == Seq::new(BYTE_LEN as nat * 8, |i: int| true),
    {
        let r = FixedBitVec { data: vstd::array::array_fill_for_copy_types::<u8, BYTE_LEN>(u8::MAX) };
        proof {
            broadcast use vstd::array::axiom_spec_array_fill_for_copy_type;
            broadcast use vstd::array::array_len_matches_n;

            assert forall|i: int| 0 <= i < BYTE_LEN * 8 implies #[trigger] r@[i] by {
                let b = r.data@[i / 8];
                assert(b == 255);
                let k = (i % 8) as u8;
                assert(k < 8);
                assert(255u8 & (1u8 << k) != 0) by (bit_vector)
                    requires
                        k < 8,
                ;
            }
            assert(r@ =~= Seq::new(BYTE_LEN as nat * 8, |i: int| true));
        }
        r
    }

    /// A bit vector of `BYTE_LEN` bytes holds `8 * BYTE_LEN` bits.
    pub proof fn lemma_view_len(&self)
        ensures
            self@.len() == 8 * BYTE_LEN,
    {
        broadcast use vstd::array::array_len_matches_n;

    }

    /// Get value at given *bit* index
    pub fn get(&self, index: usize) -> (r: bool)
        requires
            index < 8 * BYTE_LEN,
        ensures
            r == self@[index as int],
            self@.len() == 8 * BYTE_LEN,
    {
        proof {
            broadcast use vstd::array::array_len_matches_n;

            assert(index >> 3 == index / 8) by (bit_vector);
            assert(index & 7 < 8) by (bit_vector);
        }
        let byte_index = index >> 3;
        let bit_mask: u8 = 1u8 << ((index & 7) as u8);
        let byte = self.data[byte_index];
        proof {
            lemma_read_bit(byte, index);
        }
        (byte & bit_mask) != 0
    }

    /// Set value at given *bit* index
    pub fn set(&mut self, index: usize, value: bool)
        requires
            index < 8 * BYTE_LEN,
        ensures
            final(self)@ == old(self)@.update(index as int, value),
            final(self)@.len() == 8 * BYTE_LEN,
    {
        proof {
            broadcast use vstd::array::array_len_matches_n;

            assert(index >> 3 == index / 8) by (bit_vector);
            assert(index & 7 == index % 8) by (bit_vector);
            assert(index & 7 < 8) by (bit_vector);
        }
        let byte_index = index >> 3;
        let bit_index = (index & 7) as u8;
        let old_byte = self.data[byte_index];
        let new_byte = (old_byte & !(1u8 << bit_index)) | ((value as u8) << bit_index);
        self.data[byte_index] = new_byte;
        proof {
            assert((value as u8) == (if value { 1u8 } else { 0u8 }));
            lemma_write_bit(old_byte, bit_index, value);
            let before = old(self)@;
            let after = self@;
            assert forall|i: int| 0 <= i < after.len() implies after[i] == before.update(index as int, value)[i] by {
                if i / 8 == byte_index {
                    let j = (i % 8) as u8;
                    if i != index {
                        assert(j != bit_index);
                    }
                }
            }
            assert(after =~= before.update(index as int, value));
        }
    }
}

} // verus!
