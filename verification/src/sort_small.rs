//! The base-case comparison sort: buckets that fit in one slice, or small
//! key ranges of the naive variant, are sorted here and written out.

use crate::digits::sorted;
use vstd::prelude::*;

verus! {

/// Swapping two positions of a sequence leaves its multiset unchanged.
pub proof fn lemma_swap_multiset(s: Seq<u64>, a: int, b: int)
    requires
        0 <= a < s.len(),
        0 <= b < s.len(),
        a != b,
    ensures
        s.update(a, s[b]).update(b, s[a]).to_multiset() == s.to_multiset(),
{
    broadcast use vstd::seq_lib::group_to_multiset_ensures;
    broadcast use vstd::seq_lib::to_multiset_update;
    broadcast use vstd::multiset::group_multiset_axioms;
    broadcast use vstd::multiset::group_multiset_properties;

    let s1 = s.update(a, s[b]);
    assert(s.contains(s[a]));
    assert(s1[b] == s[b]);
    assert(s1.contains(s1[b]));
    assert(s1.update(b, s[a]).to_multiset() =~= s.to_multiset());
}

/// Sort a vector in place, ascending, by insertion sort.
pub fn sort_vec(v: &mut Vec<u64>)
    ensures
        final(v)@.len() == old(v)@.len(),
        sorted(final(v)@),
        final(v)@.to_multiset() == old(v)@.to_multiset(),
{
    broadcast use vstd::seq_lib::group_to_multiset_ensures;

    let n = v.len();
    if n == 0 {
        return ;
    }
    for i in 1..n
        invariant
            v@.len() == n,
            sorted(v@.subrange(0, i as int)),
            v@.to_multiset() == old(v)@.to_multiset(),
    {
        assert forall|p: int, q: int| 0 <= p <= q < i implies v@[p] <= v@[q] by {
            assert(v@.subrange(0, i as int)[p] == v@[p]);
            assert(v@.subrange(0, i as int)[q] == v@[q]);
        }
        let mut j = i;
        while j > 0 && v[j - 1] > v[j]
            invariant
                0 <= j <= i < n,
                v@.len() == n,
                v@.to_multiset() == old(v)@.to_multiset(),
                forall|p: int, q: int| 0 <= p <= q <= i && q != j ==> v@[p] <= v@[q],
            decreases j,
        {
            let a = v[j - 1];
            let b = v[j];
            proof {
                lemma_swap_multiset(v@, j - 1 as int, j as int);
            }
            v[j - 1] = b;
            v[j] = a;
            j = j - 1;
        }
        assert(sorted(v@.subrange(0, i + 1))) by {
            assert(forall|p: int, q: int| 0 <= p <= q <= i && q != j ==> v@[p] <= v@[q]);
            assert forall|p: int, q: int| 0 <= p <= q <= i implies v@[p] <= v@[q] by {
                if q == j {
                    if p < j {
                        assert(v@[p] <= v@[j - 1]);
                    }
                }
            }
        }
    }
    assert(v@.subrange(0, n as int) =~= v@);
}

/// Copy `input` into `output` at `start`, sorted ascending; the rest of
/// `output` is untouched.
pub fn sort_into(input: &[u64], output: &mut Vec<u64>, start: usize)
    requires
        start + input@.len() <= old(output)@.len(),
    ensures
        final(output)@.len() == old(output)@.len(),
        forall|i: int| 0 <= i < start ==> final(output)@[i] == old(output)@[i],
        forall|i: int|
            start + input@.len() <= i < final(output)@.len() ==> final(output)@[i] == old(
                output,
            )@[i],
        sorted(final(output)@.subrange(start as int, start + input@.len())),
        final(output)@.subrange(start as int, start + input@.len()).to_multiset()
            == input@.to_multiset(),
{
    let n = input.len();
    let mut tmp = vstd::slice::slice_to_vec(input);
    sort_vec(&mut tmp);
    let cap = output.len();
    for i in 0..n
        invariant
            tmp@.len() == n,
            sorted(tmp@),
            tmp@.to_multiset() == input@.to_multiset(),
            output@.len() == old(output)@.len(),
            cap == output@.len(),
            start + n <= cap,
            forall|k: int| 0 <= k < start ==> output@[k] == old(output)@[k],
            forall|k: int| start + n <= k < output@.len() ==> output@[k] == old(output)@[k],
            forall|k: int| 0 <= k < i ==> output@[start + k] == tmp@[k],
    {
        output[start + i] = tmp[i];
    }
    assert(output@.subrange(start as int, start + n) =~= tmp@);
}

} // verus!
