//! Laws that hold across the library's functions: what ascending order
//! gives at every digit level, that order and multiset pin a sort's output
//! down uniquely, and what the address-encoded cursor form stores.

use crate::checker::{top_bits, top_bits_sorted};
use crate::digits::{shift_for_level, sorted};
use crate::scheduler::{ActiveSlices, SLICE_SIZE, SLICE_SIZE_BYTES};
use vstd::prelude::*;
use vstd::relations::{sorted_by, total_ordering};

verus! {

/// Digit monotonicity: in ascending output the sequence of the top
/// `8 * level` bits is non-decreasing, at every level of the split.
pub proof fn lemma_digit_monotonicity(s: Seq<u64>, level: int)
    requires
        1 <= level <= 8,
        sorted(s),
    ensures
        forall|i: int, j: int|
            0 <= i <= j < s.len() ==> (#[trigger] s[i]) >> shift_for_level(level) <= (
            #[trigger] s[j]) >> shift_for_level(level),
{
    assert forall|i: int, j: int|
        0 <= i <= j < s.len() implies (#[trigger] s[i]) >> shift_for_level(level) <= (
    #[trigger] s[j]) >> shift_for_level(level) by {
        crate::digits::lemma_shr_monotone(s[i], s[j], shift_for_level(level));
    }
}

/// Ascending output passes the checker's sweep at any width.
pub proof fn lemma_sorted_passes_check(s: Seq<u64>, num_bits: u64)
    requires
        1 <= num_bits <= 64,
        sorted(s),
    ensures
        top_bits_sorted(s, num_bits),
{
    assert forall|i: int, j: int|
        0 <= i <= j < s.len() implies top_bits(#[trigger] s[i], num_bits) <= top_bits(
        #[trigger] s[j],
        num_bits,
    ) by {
        crate::digits::lemma_shr_monotone(s[i], s[j], (64 - num_bits) as u64);
    }
}

/// Idempotence of sorting: ascending order and the key multiset determine
/// a buffer uniquely, so sorting an already-sorted buffer returns an
/// identical buffer.
pub proof fn lemma_sort_idempotent(inp: Seq<u64>, out: Seq<u64>)
    requires
        sorted(inp),
        sorted(out),
        out.to_multiset() == inp.to_multiset(),
    ensures
        out == inp,
{
    let leq = |a: u64, b: u64| a <= b;
    assert(total_ordering(leq)) by {
        assert(vstd::relations::reflexive(leq)) by {
            assert(forall|a: u64| #[trigger] leq(a, a));
        }
        assert(vstd::relations::antisymmetric(leq)) by {
            assert(forall|a: u64, b: u64| #[trigger] leq(a, b) && #[trigger] leq(b, a) ==> a == b);
        }
        assert(vstd::relations::transitive(leq)) by {
            assert(forall|a: u64, b: u64, c: u64|
                #[trigger] leq(a, b) && #[trigger] leq(b, c) ==> leq(a, c));
        }
        assert(vstd::relations::strongly_connected(leq)) by {
            assert(forall|a: u64, b: u64| #[trigger] leq(a, b) || #[trigger] leq(b, a));
        }
    }
    assert(sorted_by(inp, leq));
    assert(sorted_by(out, leq));
    vstd::seq_lib::lemma_sorted_unique(inp, out, leq);
    assert(inp =~= out);
}

/// Active-set encoding: a cursor that sits `fill` keys past an aligned
/// slice base decodes back to `fill` — as the cursor's offset within the
/// slice while the slice is partial, and through the boundary case when it
/// is full.
pub proof fn lemma_active_set_encoding(base: usize, fill: usize)
    requires
        base % SLICE_SIZE_BYTES == 0,
        1 <= fill <= SLICE_SIZE,
        base + 8 * fill <= usize::MAX,
    ensures
        ActiveSlices::decode_fill((base + 8 * fill) as usize) == fill,
{
    let m = SLICE_SIZE_BYTES as int;
    let f = 8 * (fill as int);
    let p = (base + 8 * fill) as usize;
    assert(p == base + f);
    assert(p % SLICE_SIZE_BYTES == f % m) by {
        vstd::arithmetic::div_mod::lemma_add_mod_noop(base as int, f, m);
        vstd::arithmetic::div_mod::lemma_mod_twice(f, m);
        vstd::arithmetic::div_mod::lemma_small_mod(0nat, m as nat);
    }
    if fill == SLICE_SIZE {
        assert(f % m == 0) by {
            vstd::arithmetic::div_mod::lemma_mod_self_0(m);
        }
        assert(p % SLICE_SIZE_BYTES == 0);
        assert(p > 0);
    } else {
        assert(f % m == f) by {
            vstd::arithmetic::div_mod::lemma_small_mod(f as nat, m as nat);
        }
        assert(p % SLICE_SIZE_BYTES == f);
        assert(f / 8 == fill) by {
            vstd::arithmetic::div_mod::lemma_div_multiples_vanish(fill as int, 8);
        }
        assert(p > 0);
        assert((p % SLICE_SIZE_BYTES) / 8 == fill);
    }
}

} // verus!
