//! The naive radix-sort variant: one growable array per bucket, recursing
//! over the eight digits from the most significant byte down.

use crate::digits::{
    agree_at, all_agree_at, bucket_of, lemma_agree_at_top, lemma_child_agreement,
    lemma_digit_bound, lemma_digit_orders_keys, lemma_msets_below_len_monotone,
    lemma_routed_members, lemma_routed_partition, lemma_routed_push, routed, routed_msets_below,
    shift_for_level, sorted,
};
use crate::sort_small::sort_vec;
use vstd::prelude::*;

verus! {

broadcast use {vstd::seq_lib::group_to_multiset_ensures, vstd::multiset::group_multiset_axioms};

/// Scatter `input` into 256 fresh buckets by the digit at `shift`.
fn scatter(input: &Vec<u64>, shift: u64) -> (buckets: Vec<Vec<u64>>)
    requires
        shift <= 56,
    ensures
        buckets@.len() == 256,
        forall|j: u64| j < 256 ==> (#[trigger] buckets@[j as int])@ == routed(
            input@,
            shift,
            0xff,
            j,
        ),
{
    let mut buckets: Vec<Vec<u64>> = Vec::new();
    for b in 0..256usize
        invariant
            buckets@.len() == b,
            forall|j: int| 0 <= j < b ==> (#[trigger] buckets@[j])@ == Seq::<u64>::empty(),
    {
        buckets.push(Vec::new());
    }
    let n = input.len();
    for i in 0..n
        invariant
            n == input@.len(),
            shift <= 56,
            buckets@.len() == 256,
            forall|j: u64| j < 256 ==> (#[trigger] buckets@[j as int])@ == routed(
                input@.subrange(0, i as int),
                shift,
                0xff,
                j,
            ),
    {
        let key = input[i];
        let ix = ((key >> shift) & 0xff) as usize;
        proof {
            lemma_digit_bound(key, shift);
        }
        buckets[ix].push(key);
        proof {
            let prefix = input@.subrange(0, i as int);
            assert(input@.subrange(0, i + 1) =~= prefix.push(key));
            assert forall|j: u64| j < 256 implies (#[trigger] buckets@[j as int])@ == routed(
                input@.subrange(0, i + 1),
                shift,
                0xff,
                j,
            ) by {
                lemma_routed_push(prefix, shift, 0xff, key, j);
            }
        }
    }
    proof {
        assert(input@.subrange(0, n as int) =~= input@);
    }
    buckets
}

/// Append `input`, sorted ascending, to `output`. Level `L` (2 through 9)
/// has already discriminated the digits above `9 - L`; small inputs fall
/// back to a comparison sort, level 9 appends keys that are all equal, and
/// any other input is scattered on the level's digit and recursed upon in
/// ascending digit order.
pub fn radix_sort_helper(input: &Vec<u64>, output: &mut Vec<u64>, level: u8)
    requires
        2 <= level <= 9,
        all_agree_at(input@, level as int),
        sorted(old(output)@),
        forall|i: int, j: int|
            0 <= i < old(output)@.len() && 0 <= j < input@.len() ==> old(output)@[i] <= input@[j],
        old(output)@.len() + input@.len() <= usize::MAX,
    ensures
        final(output)@.len() == old(output)@.len() + input@.len(),
        final(output)@.subrange(0, old(output)@.len() as int) == old(output)@,
        final(output)@.subrange(
            old(output)@.len() as int,
            final(output)@.len() as int,
        ).to_multiset() == input@.to_multiset(),
        sorted(final(output)@),
    decreases 10 - level,
{
    let ghost out0 = output@;
    let start = output.len();
    if input.len() <= 32 || level == 9 {
        let mut tmp = vstd::slice::slice_to_vec(input.as_slice());
        if level < 9 {
            sort_vec(&mut tmp);
        } else {
            proof {
                assert forall|p: int, q: int| 0 <= p <= q < tmp@.len() implies tmp@[p] <= tmp@[q] by {
                    assert(agree_at(input@[p], input@[q], 9));
                }
            }
        }
        let ghost tseq = tmp@;
        output.append(&mut tmp);
        proof {
            assert(output@.subrange(0, start as int) =~= out0);
            let seg = output@.subrange(start as int, output@.len() as int);
            assert(seg =~= tseq);
            assert forall|i: int, j: int|
                0 <= i <= j < output@.len() implies output@[i] <= output@[j] by {
                if i < start && j >= start {
                    assert(tseq.contains(tseq[j - start]));
                    assert(input@.to_multiset().contains(tseq[j - start]));
                    assert(input@.contains(tseq[j - start]));
                    let q = choose|q: int| 0 <= q < input@.len() && input@[q] == tseq[j - start];
                    assert(out0[i] <= input@[q]);
                } else if i >= start {
                    assert(tseq[i - start] <= tseq[j - start]);
                }
            }
        }
        return ;
    }
    let shift: u64 = ((8 - level) * 8) as u64;
    proof {
        assert(shift == shift_for_level(level as int));
    }
    let buckets = scatter(input, shift);
    let ghost s = input@;
    let ghost lvl = level as int;
    for b in 0..256usize
        invariant
            2 <= lvl <= 8,
            lvl == level,
            shift == shift_for_level(lvl),
            s == input@,
            all_agree_at(s, lvl),
            buckets@.len() == 256,
            forall|j: u64| j < 256 ==> (#[trigger] buckets@[j as int])@ == routed(s, shift, 0xff, j),
            out0.len() == start,
            start + s.len() <= usize::MAX,
            output@.len() == start + routed_msets_below(s, shift, 0xff, b as int).len(),
            output@.subrange(0, start as int) == out0,
            output@.subrange(start as int, output@.len() as int).to_multiset()
                == routed_msets_below(s, shift, 0xff, b as int),
            sorted(output@),
            forall|i: int, q: int|
                0 <= i < output@.len() && 0 <= q < s.len() && bucket_of(s[q], shift, 0xff) >= b
                    ==> output@[i] <= s[q],
    {
        let ghost cur = output@;
        let ghost child = routed(s, shift, 0xff, b as u64);
        proof {
            lemma_child_agreement(s, lvl, b as u64);
            lemma_routed_members(s, shift, 0xff, b as u64);
            assert forall|i: int, j: int|
                0 <= i < cur.len() && 0 <= j < child.len() implies cur[i] <= child[j] by {
                assert(s.contains(child[j]));
                let q = choose|q: int| 0 <= q < s.len() && s[q] == child[j];
                assert(bucket_of(s[q], shift, 0xff) == b);
            }
            // room: what this child adds still fits beside what was emitted
            lemma_routed_partition(s, shift);
            lemma_msets_below_len_monotone(s, shift, 0xff, b + 1, 256);
            assert(routed_msets_below(s, shift, 0xff, b + 1) == routed_msets_below(
                s,
                shift,
                0xff,
                b as int,
            ).add(child.to_multiset()));
            assert(routed_msets_below(s, shift, 0xff, 256).len() == s.len());
        }
        radix_sort_helper(&buckets[b], output, level + 1);
        proof {
            let seg_all = output@.subrange(start as int, output@.len() as int);
            let seg_old = output@.subrange(start as int, cur.len() as int);
            let seg_new = output@.subrange(cur.len() as int, output@.len() as int);
            assert(seg_all =~= seg_old + seg_new);
            assert(seg_old =~= cur.subrange(start as int, cur.len() as int)) by {
                assert(output@.subrange(0, cur.len() as int) == cur);
                assert forall|k: int| 0 <= k < seg_old.len() implies seg_old[k] == cur.subrange(
                    start as int,
                    cur.len() as int,
                )[k] by {
                    assert(output@.subrange(0, cur.len() as int)[start + k] == cur[start + k]);
                }
            }
            vstd::seq_lib::lemma_multiset_commutative(seg_old, seg_new);
            assert(output@.subrange(0, start as int) =~= out0) by {
                assert forall|k: int| 0 <= k < start implies output@.subrange(0, start as int)[k]
                    == out0[k] by {
                    assert(output@.subrange(0, cur.len() as int)[k] == cur[k]);
                    assert(cur.subrange(0, start as int)[k] == cur[k]);
                }
            }
            // every key now emitted sits below every key of a later bucket
            assert forall|i: int, q: int|
                0 <= i < output@.len() && 0 <= q < s.len() && bucket_of(s[q], shift, 0xff) >= b + 1
                    implies output@[i] <= s[q] by {
                if i < cur.len() {
                    assert(cur[i] <= s[q]);
                } else {
                    assert(seg_new[i - cur.len()] == output@[i]);
                    assert(seg_new.contains(output@[i]));
                    assert(child.to_multiset().contains(output@[i]));
                    assert(child.contains(output@[i]));
                    lemma_digit_orders_keys(s, lvl, output@[i], s[q]);
                }
            }
        }
    }
    proof {
        lemma_routed_partition(s, shift);
        assert(output@.subrange(start as int, output@.len() as int).to_multiset()
            == input@.to_multiset());
    }
}

/// Sort `input` in place, ascending by unsigned value: scatter on the top
/// byte, then sort each bucket in digit order into a fresh output taken
/// over as the new contents.
pub fn radix_sort(input: &mut Vec<u64>)
    ensures
        final(input)@.len() == old(input)@.len(),
        sorted(final(input)@),
        final(input)@.to_multiset() == old(input)@.to_multiset(),
{
    let n = input.len();
    let buckets = scatter(input, 56);
    let ghost s = input@;
    let mut output: Vec<u64> = Vec::new();
    proof {
        assert(all_agree_at(s, 1)) by {
            assert forall|p: int, q: int|
                0 <= p < s.len() && 0 <= q < s.len() implies agree_at(
                #[trigger] s[p],
                #[trigger] s[q],
                1,
            ) by {
                lemma_agree_at_top(s[p], s[q]);
            }
        }
        assert(shift_for_level(1) == 56);
    }
    for b in 0..256usize
        invariant
            s == input@,
            n == s.len(),
            all_agree_at(s, 1),
            buckets@.len() == 256,
            forall|j: u64| j < 256 ==> (#[trigger] buckets@[j as int])@ == routed(s, 56, 0xff, j),
            output@.len() == routed_msets_below(s, 56, 0xff, b as int).len(),
            output@.to_multiset() == routed_msets_below(s, 56, 0xff, b as int),
            sorted(output@),
            forall|i: int, q: int|
                0 <= i < output@.len() && 0 <= q < s.len() && bucket_of(s[q], 56, 0xff) >= b
                    ==> output@[i] <= s[q],
    {
        let ghost cur = output@;
        let ghost child = routed(s, 56, 0xff, b as u64);
        proof {
            lemma_child_agreement(s, 1, b as u64);
            lemma_routed_members(s, 56, 0xff, b as u64);
            assert forall|i: int, j: int|
                0 <= i < cur.len() && 0 <= j < child.len() implies cur[i] <= child[j] by {
                assert(s.contains(child[j]));
                let q = choose|q: int| 0 <= q < s.len() && s[q] == child[j];
                assert(bucket_of(s[q], 56, 0xff) == b);
            }
            lemma_routed_partition(s, 56);
            lemma_msets_below_len_monotone(s, 56, 0xff, b + 1, 256);
            assert(routed_msets_below(s, 56, 0xff, b + 1) == routed_msets_below(
                s,
                56,
                0xff,
                b as int,
            ).add(child.to_multiset()));
            assert(routed_msets_below(s, 56, 0xff, 256).len() == s.len());
            assert(child.to_multiset().len() == child.len());
            assert(output@.len() + child.len() <= n);
        }
        radix_sort_helper(&buckets[b], &mut output, 2);
        proof {
            let seg_new = output@.subrange(cur.len() as int, output@.len() as int);
            assert(output@ =~= cur + seg_new) by {
                assert(output@.subrange(0, cur.len() as int) == cur);
                assert forall|k: int| 0 <= k < output@.len() implies output@[k] == (cur
                    + seg_new)[k] by {
                    if k < cur.len() {
                        assert(output@.subrange(0, cur.len() as int)[k] == cur[k]);
                    }
                }
            }
            vstd::seq_lib::lemma_multiset_commutative(cur, seg_new);
            assert forall|i: int, q: int|
                0 <= i < output@.len() && 0 <= q < s.len() && bucket_of(s[q], 56, 0xff) >= b + 1
                    implies output@[i] <= s[q] by {
                if i < cur.len() {
                    assert(cur[i] <= s[q]);
                } else {
                    assert(seg_new[i - cur.len()] == output@[i]);
                    assert(seg_new.contains(output@[i]));
                    assert(child.to_multiset().contains(output@[i]));
                    assert(child.contains(output@[i]));
                    lemma_digit_orders_keys(s, 1, output@[i], s[q]);
                }
            }
        }
    }
    proof {
        lemma_routed_partition(s, 56);
    }
    *input = output;
}

} // verus!
