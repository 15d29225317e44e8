//! Bit vector over a byte buffer of any length

use vstd::prelude::*;
use crate::bit_vec::fixed::{bits_of, bit_of, lemma_read_bit, lemma_write_bit};
use crate::bit_vec::text::{bits_text, bytes_text};

verus! {

/// Bit vector over a byte buffer
#[derive(Debug, Clone, PartialEq, Eq, PartialOrd, Ord, Hash)]
pub struct BitVecRef {
    data: Vec<u8>,
}

impl View for BitVecRef {
    type V = Seq<bool>;

    closed spec fn view(&self) -> Seq<bool> {
        bits_of(self.data@)
    }
}

impl BitVecRef {
    /// Bit vector over the bytes `inner`
    pub fn from_inner(inner: Vec<u8>) -> (r: BitVecRef)
        ensures
            r@ == bits_of(inner@),
            r.inner_spec() == inner@,
    {
        BitVecRef { data: inner }
    }

    /// The bytes of the bit vector
    pub closed spec fn inner_spec(&self) -> Seq<u8> {
        self.data@
    }

    /// Debugging text: the bytes as a list of quoted binary literals, highest
    /// bit first
    pub fn debug_text(&self) -> (r: String)
        ensures
            r@ == bits_text(self@),
    {
        bytes_text(self.data.as_slice())
    }

    /// The bytes of the bit vector
    pub fn to_inner(&self) -> (r: &[u8])
        ensures
            r@ == self.inner_spec(),
            bits_of(r@) == self@,
    {
        self.data.as_slice()
    }

    /// Get value at given *bit* index
    pub fn get(&self, index: usize) -> (r: bool)
        requires
            index < self@.len(),
        ensures
            r == self@[index as int],
    {
        proof {
            assert(index >> 3 == index / 8) by (bit_vector);
            assert(index & 7 < 8) by (bit_vector);
        }
        let byte_index = index >> 3;
        let bit_mask: u8 = 1u8 << ((index & 7) as u8);
        let byte = self.data[byte_index];
        proof {
            lemma_read_bit(byte, index);
        }
        (byte & bit_mask) != 0
    }

    /// Set value at given *bit* index
    pub fn set(&mut self, index: usize, value: bool)
        requires
            index < old(self)@.len(),
        ensures
            final(self)@ == old(self)@.update(index as int, value),
            final(self).inner_spec().len() == old(self).inner_spec().len(),
    {
        proof {
            assert(index >> 3 == index / 8) by (bit_vector);
            assert(index & 7 == index % 8) by (bit_vector);
            assert(index & 7 < 8) by (bit_vector);
        }
        let byte_index = index >> 3;
        let bit_index = (index & 7) as u8;
        let old_byte = self.data[byte_index];
        let new_byte = (old_byte & !(1u8 << bit_index)) | ((value as u8) << bit_index);
        self.data.set(byte_index, new_byte);
        proof {
            assert((value as u8) == (if value { 1u8 } else { 0u8 }));
            lemma_write_bit(old_byte, bit_index, value);
            let before = old(self)@;
            let after = self@;
            assert forall|i: int| 0 <= i < after.len() implies after[i] == before.update(index as int, value)[i] by {
                if i / 8 == byte_index {
                    let j = (i % 8) as u8;
                    if i != index {
                        assert(j != bit_index);
                    }
                }
            }
            assert(after =~= before.update(index as int, value));
        }
    }
}

} // verus!
