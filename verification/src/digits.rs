//! The mathematical model of MSB radix bucketing: digit extraction, the
//! agreement relation that a bucket's keys satisfy at each tree level, and
//! the `routed` function that says where a scatter pass sends each key.

use vstd::multiset::Multiset;
use vstd::prelude::*;

verus! {

/// Index of the radix bucket a key falls into when split at `shift`:
/// the digit of `key` at bit offset `shift`, under `mask`.
pub open spec fn bucket_of(key: u64, shift: u64, mask: u64) -> u64 {
    (key >> shift) & mask
}

/// The part of `key` strictly above the 8-bit digit at `shift`.
pub open spec fn high_of(key: u64, shift: u64) -> u64 {
    (key >> shift) >> 8
}

/// The shift a visit at `level` splits on: level 1 re-examines the top
/// byte, level 8 reaches the lowest.
pub open spec fn shift_for_level(level: int) -> u64 {
    (((8 - level) * 8) as u64)
}

/// What the keys of a bucket reaching `level` have in common: at level 9
/// all eight digits have been discriminated, so the keys are equal; below
/// that, everything above the level's own digit agrees.
pub open spec fn agree_at(k1: u64, k2: u64, level: int) -> bool {
    if level >= 9 {
        k1 == k2
    } else {
        high_of(k1, shift_for_level(level)) == high_of(k2, shift_for_level(level))
    }
}

/// Every pair of keys of `s` agrees as a bucket at `level` does.
pub open spec fn all_agree_at(s: Seq<u64>, level: int) -> bool {
    forall|p: int, q: int|
        0 <= p < s.len() && 0 <= q < s.len() ==> agree_at(#[trigger] s[p], #[trigger] s[q], level)
}

/// Ascending order, the sort's target.
pub open spec fn sorted(s: Seq<u64>) -> bool {
    forall|i: int, j: int| 0 <= i <= j < s.len() ==> s[i] <= s[j]
}

/// The subsequence of `s` that a scatter pass at `shift` under `mask`
/// routes to bucket `j`, in input order.
pub open spec fn routed(s: Seq<u64>, shift: u64, mask: u64, j: u64) -> Seq<u64>
    decreases s.len(),
{
    if s.len() == 0 {
        Seq::empty()
    } else if bucket_of(s.last(), shift, mask) == j {
        routed(s.drop_last(), shift, mask, j).push(s.last())
    } else {
        routed(s.drop_last(), shift, mask, j)
    }
}

/// The keys routed to buckets `0 .. n`, as one multiset.
pub open spec fn routed_msets_below(s: Seq<u64>, shift: u64, mask: u64, n: int) -> Multiset<u64>
    decreases n,
{
    if n <= 0 {
        Multiset::empty()
    } else {
        routed_msets_below(s, shift, mask, n - 1).add(
            routed(s, shift, mask, (n - 1) as u64).to_multiset(),
        )
    }
}

/// An 8-bit digit is below 256.
pub proof fn lemma_digit_bound(k: u64, shift: u64)
    ensures
        bucket_of(k, shift, 0xff) < 256,
{
    assert((k >> shift) & 0xff < 256) by (bit_vector);
}

proof fn lemma_high_and_digit_fix_shifted(k1: u64, k2: u64, shift: u64)
    by (bit_vector)
    requires
        shift <= 56,
        (k1 >> shift) >> 8 == (k2 >> shift) >> 8,
        (k1 >> shift) & 0xff == (k2 >> shift) & 0xff,
    ensures
        k1 >> shift == k2 >> shift,
{
}

proof fn lemma_shift_chain(k: u64, shift: u64)
    by (bit_vector)
    requires
        8 <= shift <= 56,
    ensures
        (k >> (shift - 8) as u64) >> 8 == k >> shift,
{
}

proof fn lemma_shr_zero(k: u64)
    by (bit_vector)
    ensures
        k >> 0u64 == k,
{
}

/// Keys that agree as a bucket at `level` does and fall into the same
/// bucket of that level's split agree as a bucket at `level + 1` does.
pub proof fn lemma_agree_step(k1: u64, k2: u64, level: int)
    requires
        1 <= level <= 8,
        agree_at(k1, k2, level),
        bucket_of(k1, shift_for_level(level), 0xff) == bucket_of(k2, shift_for_level(level), 0xff),
    ensures
        agree_at(k1, k2, level + 1),
{
    let s = shift_for_level(level);
    assert(s == (8 - level) * 8);
    lemma_high_and_digit_fix_shifted(k1, k2, s);
    if level == 8 {
        lemma_shr_zero(k1);
        lemma_shr_zero(k2);
    } else {
        let t = shift_for_level(level + 1);
        assert(t == s - 8);
        lemma_shift_chain(k1, s);
        lemma_shift_chain(k2, s);
    }
}

/// Among keys that agree above a level's digit, a smaller digit at that
/// level means a smaller key: the source of cross-bucket order.
pub proof fn lemma_bucket_order(k1: u64, k2: u64, level: int)
    requires
        1 <= level <= 8,
        agree_at(k1, k2, level),
        bucket_of(k1, shift_for_level(level), 0xff) < bucket_of(k2, shift_for_level(level), 0xff),
    ensures
        k1 < k2,
{
    let s = shift_for_level(level);
    assert(s == (8 - level) * 8);
    assert(k1 < k2) by (bit_vector)
        requires
            s <= 56,
            (k1 >> s) >> 8 == (k2 >> s) >> 8,
            (k1 >> s) & 0xff < (k2 >> s) & 0xff,
    ;
}

/// Shifting right preserves order.
pub proof fn lemma_shr_monotone(k1: u64, k2: u64, shift: u64)
    requires
        k1 <= k2,
    ensures
        k1 >> shift <= k2 >> shift,
{
    assert(k1 >> shift <= k2 >> shift) by (bit_vector)
        requires
            k1 <= k2,
    ;
}

/// `routed` applied to a sequence extended by one key.
pub proof fn lemma_routed_push(s: Seq<u64>, shift: u64, mask: u64, x: u64, j: u64)
    ensures
        routed(s.push(x), shift, mask, j) == if bucket_of(x, shift, mask) == j {
            routed(s, shift, mask, j).push(x)
        } else {
            routed(s, shift, mask, j)
        },
{
    assert(s.push(x).drop_last() =~= s);
    assert(s.push(x).last() == x);
}

/// Every key routed to `j` carries digit `j` and occurs in the source.
pub proof fn lemma_routed_members(s: Seq<u64>, shift: u64, mask: u64, j: u64)
    ensures
        forall|i: int|
            0 <= i < routed(s, shift, mask, j).len() ==> bucket_of(
                #[trigger] routed(s, shift, mask, j)[i],
                shift,
                mask,
            ) == j && s.contains(routed(s, shift, mask, j)[i]),
    decreases s.len(),
{
    if s.len() > 0 {
        let s0 = s.drop_last();
        lemma_routed_members(s0, shift, mask, j);
        assert forall|x: u64| s0.contains(x) implies s.contains(x) by {
            let i = choose|i: int| 0 <= i < s0.len() && s0[i] == x;
            assert(s[i] == x);
        }
        assert(s.contains(s.last())) by {
            assert(s[s.len() - 1] == s.last());
        }
        let r0 = routed(s0, shift, mask, j);
        let r = routed(s, shift, mask, j);
        if bucket_of(s.last(), shift, mask) == j {
            assert forall|i: int|
                0 <= i < r.len() implies bucket_of(#[trigger] r[i], shift, mask) == j
                && s.contains(r[i]) by {
                if i < r0.len() {
                    assert(r[i] == r0[i]);
                } else {
                    assert(r[i] == s.last());
                }
            }
        }
    }
}

/// `routed` distributes over concatenation.
pub proof fn lemma_routed_concat(s1: Seq<u64>, s2: Seq<u64>, shift: u64, mask: u64, j: u64)
    ensures
        routed(s1 + s2, shift, mask, j) == routed(s1, shift, mask, j) + routed(s2, shift, mask, j),
    decreases s2.len(),
{
    if s2.len() == 0 {
        assert(s1 + s2 =~= s1);
        assert(routed(s1, shift, mask, j) + routed(s2, shift, mask, j) =~= routed(
            s1,
            shift,
            mask,
            j,
        ));
    } else {
        lemma_routed_concat(s1, s2.drop_last(), shift, mask, j);
        assert((s1 + s2).drop_last() =~= s1 + s2.drop_last());
        assert((s1 + s2).last() == s2.last());
        if bucket_of(s2.last(), shift, mask) == j {
            assert(routed(s1, shift, mask, j) + routed(s2.drop_last(), shift, mask, j).push(
                s2.last(),
            ) =~= (routed(s1, shift, mask, j) + routed(s2.drop_last(), shift, mask, j)).push(
                s2.last(),
            ));
        }
    }
}

proof fn lemma_msets_below_push(s: Seq<u64>, shift: u64, mask: u64, x: u64, n: int)
    requires
        0 <= n <= 256,
    ensures
        routed_msets_below(s.push(x), shift, mask, n) == if bucket_of(x, shift, mask) < n {
            routed_msets_below(s, shift, mask, n).insert(x)
        } else {
            routed_msets_below(s, shift, mask, n)
        },
    decreases n,
{
    broadcast use vstd::seq_lib::group_to_multiset_ensures;
    broadcast use vstd::multiset::group_multiset_axioms;
    broadcast use vstd::multiset::group_multiset_properties;

    if n <= 0 {
    } else {
        lemma_msets_below_push(s, shift, mask, x, n - 1);
        lemma_routed_push(s, shift, mask, x, (n - 1) as u64);
        if bucket_of(x, shift, mask) == (n - 1) as u64 {
            assert(routed(s.push(x), shift, mask, (n - 1) as u64).to_multiset() =~= routed(
                s,
                shift,
                mask,
                (n - 1) as u64,
            ).to_multiset().insert(x));
            assert(routed_msets_below(s.push(x), shift, mask, n) =~= routed_msets_below(
                s,
                shift,
                mask,
                n,
            ).insert(x));
        } else {
            if bucket_of(x, shift, mask) < n - 1 {
                assert(routed_msets_below(s.push(x), shift, mask, n) =~= routed_msets_below(
                    s,
                    shift,
                    mask,
                    n,
                ).insert(x));
            } else {
                assert(routed_msets_below(s.push(x), shift, mask, n) =~= routed_msets_below(
                    s,
                    shift,
                    mask,
                    n,
                ));
            }
        }
    }
}

/// A scatter pass under the full byte mask partitions its input: the 256
/// buckets together hold exactly the input's multiset of keys.
pub proof fn lemma_routed_partition(s: Seq<u64>, shift: u64)
    ensures
        routed_msets_below(s, shift, 0xff, 256) == s.to_multiset(),
    decreases s.len(),
{
    broadcast use vstd::seq_lib::group_to_multiset_ensures;
    broadcast use vstd::multiset::group_multiset_axioms;

    if s.len() == 0 {
        assert(routed_msets_below(s, shift, 0xff, 256) =~= s.to_multiset()) by {
            lemma_msets_below_empty(s, shift, 256);
            assert(s.to_multiset() =~= Multiset::empty()) by {
                s.to_multiset_ensures();
            }
        }
    } else {
        let s0 = s.drop_last();
        let x = s.last();
        lemma_routed_partition(s0, shift);
        lemma_digit_bound(x, shift);
        lemma_msets_below_push(s0, shift, 0xff, x, 256);
        assert(s0.push(x) =~= s);
        assert(s.to_multiset() =~= s0.to_multiset().insert(x));
    }
}

proof fn lemma_msets_below_empty(s: Seq<u64>, shift: u64, n: int)
    requires
        s.len() == 0,
    ensures
        routed_msets_below(s, shift, 0xff, n) == Multiset::<u64>::empty(),
    decreases n,
{
    broadcast use vstd::multiset::group_multiset_axioms;

    if n <= 0 {
    } else {
        lemma_msets_below_empty(s, shift, n - 1);
        assert(routed(s, shift, 0xff, (n - 1) as u64).to_multiset() =~= Multiset::empty()) by {
            routed(s, shift, 0xff, (n - 1) as u64).to_multiset_ensures();
        }
        assert(routed_msets_below(s, shift, 0xff, n) =~= Multiset::empty());
    }
}

/// The bucket multisets are monotone in how many buckets are gathered.
pub proof fn lemma_msets_below_len_monotone(s: Seq<u64>, shift: u64, mask: u64, a: int, b: int)
    requires
        a <= b,
    ensures
        routed_msets_below(s, shift, mask, a).len() <= routed_msets_below(s, shift, mask, b).len(),
    decreases b - a,
{
    broadcast use vstd::multiset::group_multiset_axioms;

    if a < b {
        lemma_msets_below_len_monotone(s, shift, mask, a, b - 1);
    }
}

/// Every pair of keys agrees as a bucket at the top level does.
pub proof fn lemma_agree_at_top(k1: u64, k2: u64)
    ensures
        agree_at(k1, k2, 1),
{
    assert((k1 >> 56u64) >> 8 == (k2 >> 56u64) >> 8) by (bit_vector);
}

/// Keys routed to one bucket of a level's split agree one level deeper.
pub proof fn lemma_child_agreement(s: Seq<u64>, level: int, b: u64)
    requires
        1 <= level <= 8,
        all_agree_at(s, level),
        b < 256,
    ensures
        all_agree_at(routed(s, shift_for_level(level), 0xff, b), level + 1),
{
    let shift = shift_for_level(level);
    let r = routed(s, shift, 0xff, b);
    lemma_routed_members(s, shift, 0xff, b);
    assert forall|p: int, q: int|
        0 <= p < r.len() && 0 <= q < r.len() implies agree_at(#[trigger] r[p], #[trigger] r[q], level + 1) by {
        let ip = choose|ip: int| 0 <= ip < s.len() && s[ip] == r[p];
        let iq = choose|iq: int| 0 <= iq < s.len() && s[iq] == r[q];
        assert(agree_at(s[ip], s[iq], level));
        lemma_agree_step(r[p], r[q], level);
    }
}

/// Two keys of one bucket whose digits at the level differ are ordered by
/// those digits.
pub proof fn lemma_digit_orders_keys(s: Seq<u64>, level: int, x: u64, y: u64)
    requires
        1 <= level <= 8,
        all_agree_at(s, level),
        s.contains(x),
        s.contains(y),
        bucket_of(x, shift_for_level(level), 0xff) < bucket_of(y, shift_for_level(level), 0xff),
    ensures
        x < y,
{
    let ix = choose|ix: int| 0 <= ix < s.len() && s[ix] == x;
    let iy = choose|iy: int| 0 <= iy < s.len() && s[iy] == y;
    assert(agree_at(s[ix], s[iy], level));
    lemma_bucket_order(x, y, level);
}

} // verus!
