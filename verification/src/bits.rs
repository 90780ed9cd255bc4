//! Conversion from bytes to the bit sequences the engine ingests.

use crate::model::byte_bits;
use crate::model::bytes_bits;
use vstd::prelude::*;

verus! {

/// The eight bits of one byte, most significant first.
fn u8_to_bits(num: u8) -> (r: Vec<bool>)
    ensures
        r@ == byte_bits(num),
{
    let mut r: Vec<bool> = Vec::new();
    for i in 0..8usize
        invariant
            r@.len() == i,
            forall|j: int| 0 <= j < i ==> r@[j] == byte_bits(num)[j],
    {
        r.push((num >> ((7 - i) as u8)) & 1u8 == 1u8);
    }
    assert(r@ =~= byte_bits(num));
    r
}

/// Expand a byte slice to its bits, most significant bit of each byte first,
/// bytes in input order.
pub fn u8_slice_to_bool(u8slice: &[u8]) -> (r: Vec<bool>)
    ensures
        r@ == bytes_bits(u8slice@),
{
    let mut r: Vec<bool> = Vec::new();
    let n: usize = u8slice.len();
    for i in 0..n
        invariant
            n == u8slice@.len(),
            r@ == bytes_bits(u8slice@.take(i as int)),
    {
        let mut bits = u8_to_bits(u8slice[i]);
        let mut k: usize = 0;
        while k < bits.len()
            invariant
                k <= bits@.len(),
                bits@ == byte_bits(u8slice@[i as int]),
                i < u8slice@.len(),
                r@ == bytes_bits(u8slice@.take(i as int)) + byte_bits(u8slice@[i as int]).take(
                    k as int,
                ),
            decreases bits@.len() - k,
        {
            r.push(bits[k]);
            assert(byte_bits(u8slice@[i as int]).take(k + 1 as int).drop_last() =~= byte_bits(
                u8slice@[i as int],
            ).take(k as int));
            k = k + 1;
        }
        proof {
            let s = u8slice@;
            assert(bits@.take(bits@.len() as int) =~= bits@);
            assert(s.take(i + 1 as int).drop_last() =~= s.take(i as int));
            assert(s.take(i + 1 as int).last() == s[i as int]);
            assert(r@ == bytes_bits(s.take(i + 1 as int)));
        }
    }
    assert(u8slice@.take(n as int) =~= u8slice@);
    r
}

} // verus!
