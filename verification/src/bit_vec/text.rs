//! Debugging text of bit vectors: a list with one entry per byte, each the
//! quoted binary literal of the byte, highest bit first.

use vstd::prelude::*;
use crate::bit_vec::fixed::{bit_of, bits_of};

verus! {

/// `"0b` followed by the eight bits of a byte, highest first, and `"`;
/// `bits` holds the bits of the byte, lowest first.
pub open spec fn byte_text(bits: Seq<bool>) -> Seq<char> {
    seq!['"', '0', 'b'] + Seq::new(8, |k: int| if bits[7 - k] { '1' } else { '0' }) + seq!['"']
}

/// The texts of the first `n` bytes of `bits`, separated by `, `
pub open spec fn byte_entries(bits: Seq<bool>, n: nat) -> Seq<char>
    decreases n,
{
    if n == 0 {
        seq![]
    } else if n == 1 {
        byte_text(bits.subrange(0, 8))
    } else {
        byte_entries(bits, (n - 1) as nat) + seq![',', ' '] + byte_text(
            bits.subrange(8 * (n - 1), (8 * n) as int),
        )
    }
}

/// The debugging text of a bit vector: `[`, the texts of its bytes
/// separated by `, `, and `]`
pub open spec fn bits_text(bits: Seq<bool>) -> Seq<char> {
    seq!['['] + byte_entries(bits, bits.len() / 8) + seq![']']
}

proof fn lemma_shift_bit(b: u8, k: u8)
    requires
        k < 8,
    ensures
        ((b >> k) & 1u8 == 1u8) == bit_of(b, k),
{
    assert(((b >> k) & 1u8 == 1u8) == (b & (1u8 << k) != 0)) by (bit_vector)
        requires
            k < 8,
    ;
}

fn append_byte(b: u8, out: &mut String)
    ensures
        final(out)@ == old(out)@ + byte_text(bits_of(seq![b])),
{
    proof {
        reveal_strlit("\"0b");
        reveal_strlit("\"");
        reveal_strlit("0");
        reveal_strlit("1");
    }
    let ghost start = out@;
    let ghost bits = bits_of(seq![b]);
    let ghost f = |j: int| if bits[7 - j] { '1' } else { '0' };
    out.append("\"0b");
    let mut k: u8 = 8;
    while k > 0
        invariant
            k <= 8,
            bits == bits_of(seq![b]),
            f == (|j: int| if bits[7 - j] { '1' } else { '0' }),
            out@ == start + seq!['"', '0', 'b'] + Seq::new((8 - k) as nat, f),
        decreases k,
    {
        k -= 1;
        proof {
            lemma_shift_bit(b, k);
            assert(bits[k as int] == bit_of(b, k));
            assert(Seq::new((8 - k) as nat, f) =~= Seq::new((7 - k) as nat, f).push(f(7 - k)));
        }
        let ghost prev = out@;
        proof {
            reveal_strlit("0");
            reveal_strlit("1");
        }
        if (b >> k) & 1u8 == 1u8 {
            out.append("1");
            assert(out@ =~= prev.push('1'));
        } else {
            out.append("0");
            assert(out@ =~= prev.push('0'));
        }
        assert(out@ =~= start + seq!['"', '0', 'b'] + Seq::new((8 - k) as nat, f));
    }
    out.append("\"");
    assert(out@ =~= start + byte_text(bits));
}

/// The debugging text of the bits of `data`
pub fn bytes_text(data: &[u8]) -> (r: String)
    ensures
        r@ == bits_text(bits_of(data@)),
{
    proof {
        reveal_strlit("[");
        reveal_strlit("]");
        reveal_strlit(", ");
    }
    let ghost bits = bits_of(data@);
    let mut out = String::new();
    out.append("[");
    let mut i: usize = 0;
    while i < data.len()
        invariant
            i <= data@.len(),
            bits == bits_of(data@),
            out@ == seq!['['] + byte_entries(bits, i as nat),
        decreases data.len() - i,
    {
        let ghost before = out@;
        proof {
            reveal_strlit(", ");
        }
        if i > 0 {
            out.append(", ");
        }
        let ghost middle = out@;
        append_byte(data[i], &mut out);
        proof {
            if i > 0 {
                assert(middle =~= before + seq![',', ' ']);
            } else {
                assert(middle == before);
                assert(byte_entries(bits, 0) == Seq::<char>::empty());
            }
            assert(bits_of(seq![data@[i as int]]) =~= bits.subrange(8 * i, 8 * (i + 1)));
            assert(out@ =~= seq!['['] + byte_entries(bits, (i + 1) as nat));
        }
        i += 1;
    }
    out.append("]");
    proof {
        assert(bits.len() / 8 == data@.len());
    }
    assert(out@ =~= bits_text(bits));
    out
}

} // verus!
