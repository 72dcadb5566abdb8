//! The output checker a driver runs after a sort: a sweep that confirms
//! the top bits of consecutive keys never decrease.

use vstd::prelude::*;

verus! {

/// The top `num_bits` bits of a key, shifted down.
pub open spec fn top_bits(k: u64, num_bits: u64) -> u64 {
    k >> ((64 - num_bits) as u64)
}

/// Whether the sequence of top `num_bits` bits of `s` is non-decreasing.
pub open spec fn top_bits_sorted(s: Seq<u64>, num_bits: u64) -> bool {
    forall|i: int, j: int|
        0 <= i <= j < s.len() ==> top_bits(#[trigger] s[i], num_bits) <= top_bits(
            #[trigger] s[j],
            num_bits,
        )
}

/// Sweep `buf` keeping the largest top-bits value seen; report whether no
/// key ever fell below it.
pub fn check_split(buf: &Vec<u64>, num_bits: u64) -> (ok: bool)
    requires
        1 <= num_bits <= 64,
    ensures
        ok == top_bits_sorted(buf@, num_bits),
{
    let shift = 64 - num_bits;
    let n = buf.len();
    let mut current: u64 = 0;
    let mut incorrect: usize = 0;
    for ix in 0..n
        invariant
            n == buf@.len(),
            shift == 64 - num_bits,
            num_bits >= 1,
            incorrect <= ix,
            forall|i: int| 0 <= i < ix ==> top_bits(#[trigger] buf@[i], num_bits) <= current,
            current == 0 || exists|i: int|
                0 <= i < ix && top_bits(#[trigger] buf@[i], num_bits) == current,
            incorrect == 0 ==> forall|i: int, j: int|
                0 <= i <= j < ix ==> top_bits(#[trigger] buf@[i], num_bits) <= top_bits(
                    #[trigger] buf@[j],
                    num_bits,
                ),
            incorrect > 0 ==> exists|i: int, j: int|
                0 <= i <= j < ix && top_bits(#[trigger] buf@[i], num_bits) > top_bits(
                    #[trigger] buf@[j],
                    num_bits,
                ),
    {
        let bucket = buf[ix] >> shift;
        proof {
            assert(bucket == top_bits(buf@[ix as int], num_bits));
        }
        if bucket > current {
            current = bucket;
        } else if bucket < current {
            proof {
                let w = choose|i: int|
                    0 <= i < ix && top_bits(#[trigger] buf@[i], num_bits) == current;
                assert(top_bits(buf@[w], num_bits) > top_bits(buf@[ix as int], num_bits));
            }
            incorrect = incorrect + 1;
        }
    }
    incorrect == 0
}

} // verus!
