//! The scheduled radix-sort variant: a pool of fixed-size slices, an
//! active-slice set of 256 write cursors, a bucket tree, and the scheduler
//! that drives MSB passes depth-first and emits sorted output.
//!
//! A slice is held as a buffer of at most [`SLICE_SIZE`] keys together with
//! its length, the equivalent form of the address-encoded cursor; the
//! arithmetic of that encoding itself is kept in
//! [`ActiveSlices::len_of_ptr`].

use vstd::multiset::Multiset;

use crate::digits::{
    agree_at, all_agree_at, bucket_of, lemma_agree_at_top, lemma_child_agreement,
    lemma_digit_orders_keys,
    lemma_msets_below_len_monotone, lemma_routed_concat, lemma_routed_members,
    lemma_routed_partition, routed, routed_msets_below, shift_for_level, sorted,
};
use vstd::prelude::*;

verus! {

broadcast use {vstd::seq_lib::group_to_multiset_ensures, vstd::multiset::group_multiset_axioms};

/// Size of one slice in bytes; slice bases are naturally aligned to it.
pub const SLICE_SIZE_BYTES: usize = 0x10000;

/// Number of keys in one full slice.
pub const SLICE_SIZE: usize = 0x10000 / 8;

/// Fan-out of every split: one bucket per value of an 8-bit digit.
pub const NUM_BUCKETS: usize = 256;

/// Depth cap of the bucket tree.
pub const MAX_LEVEL_SPLIT: u8 = 8;

/// The views of a list of slices.
pub open spec fn seqs_of(slices: Seq<Vec<u64>>) -> Seq<Seq<u64>> {
    slices.map_values(|v: Vec<u64>| v@)
}

/// Concatenation of a list of key sequences.
pub open spec fn concat_of(ss: Seq<Seq<u64>>) -> Seq<u64>
    decreases ss.len(),
{
    if ss.len() == 0 {
        Seq::empty()
    } else {
        concat_of(ss.drop_last()) + ss.last()
    }
}

/// `concat_of` applied to a list extended by one sequence.
pub proof fn lemma_concat_push(ss: Seq<Seq<u64>>, t: Seq<u64>)
    ensures
        concat_of(ss.push(t)) == concat_of(ss) + t,
{
    assert(ss.push(t).drop_last() =~= ss);
    assert(ss.push(t).last() == t);
}

/// `concat_of` distributes over appending lists.
pub proof fn lemma_concat_of_append(a: Seq<Seq<u64>>, b: Seq<Seq<u64>>)
    ensures
        concat_of(a + b) == concat_of(a) + concat_of(b),
    decreases b.len(),
{
    if b.len() == 0 {
        assert(a + b =~= a);
        assert(concat_of(a) + concat_of(b) =~= concat_of(a));
    } else {
        lemma_concat_of_append(a, b.drop_last());
        assert((a + b).drop_last() =~= a + b.drop_last());
        assert((a + b).last() == b.last());
        assert(concat_of(a) + (concat_of(b.drop_last()) + b.last()) =~= (concat_of(a) + concat_of(
            b.drop_last(),
        )) + b.last());
    }
}

/// A bucket not yet split: the slices that hold its keys, in order. All
/// slices but the last are full; the last may be partially filled.
pub struct UnsplitBucket {
    pub slices: Vec<Vec<u64>>,
}

impl UnsplitBucket {
    /// The bucket's keys: its slices, concatenated.
    pub open spec fn keys(self) -> Seq<u64> {
        concat_of(seqs_of(self.slices@))
    }

    /// Slice shape: nonempty, at most a slice's worth, full except perhaps
    /// the last.
    pub open spec fn wf(self) -> bool {
        forall|i: int|
            0 <= i < self.slices@.len() ==> 1 <= (#[trigger] self.slices@[i])@.len() <= SLICE_SIZE
                && (i + 1 < self.slices@.len() ==> self.slices@[i]@.len() == SLICE_SIZE)
    }
}

impl Default for UnsplitBucket {
    /// An empty bucket.
    fn default() -> (r: Self)
        ensures
            r.slices@.len() == 0,
            r.wf(),
            r.keys() == Seq::<u64>::empty(),
    {
        UnsplitBucket { slices: Vec::new() }
    }
}

/// Every slice of the bucket is full: the shape of a child while its
/// parent is still being split (the in-progress last slice lives in the
/// active-slice set until `complete`).
pub open spec fn full_slices_only(u: UnsplitBucket) -> bool {
    forall|i: int|
        0 <= i < u.slices@.len() ==> (#[trigger] u.slices@[i])@.len() == SLICE_SIZE
}

/// A bucket currently receiving writes: 256 children holding the completed
/// full slices, paired during the pass with an [`ActiveSlices`] set that
/// carries each child's in-progress last slice.
pub struct SplittingBucket {
    pub children: Vec<UnsplitBucket>,
}

impl SplittingBucket {
    /// Shape while the pass runs: 256 children of full slices.
    pub open spec fn wf_open(self) -> bool {
        self.children@.len() == 256 && forall|ix: int|
            0 <= ix < 256 ==> full_slices_only(#[trigger] self.children@[ix])
    }

    /// Shape after `complete`: 256 well-formed children.
    pub open spec fn wf_done(self) -> bool {
        self.children@.len() == 256 && forall|ix: int|
            0 <= ix < 256 ==> (#[trigger] self.children@[ix]).wf()
    }
}

impl Default for SplittingBucket {
    /// 256 empty children.
    fn default() -> (r: Self)
        ensures
            r.wf_open(),
            forall|ix: int|
                0 <= ix < 256 ==> (#[trigger] r.children@[ix]).slices@.len() == 0
                    && r.children@[ix].keys() == Seq::<u64>::empty(),
    {
        let mut children: Vec<UnsplitBucket> = Vec::new();
        for _i in 0..NUM_BUCKETS
            invariant
                children@.len() == _i,
            forall|ix: int|
                0 <= ix < _i ==> (#[trigger] children@[ix]).slices@.len() == 0,
        {
            children.push(UnsplitBucket { slices: Vec::new() });
        }
        SplittingBucket { children }
    }
}

/// The active-slice set: one write cursor per bucket. A `None` cursor is
/// the null cursor; an occupied one holds the child's in-progress slice,
/// which stays here even when it becomes exactly full, until the next
/// insert (or `complete`) flushes it.
pub struct ActiveSlices {
    cursors: Vec<Option<Vec<u64>>>,
}

impl ActiveSlices {
    /// The keys buffered in cursor `ix`.
    pub closed spec fn cursor_keys(self, ix: int) -> Seq<u64> {
        match self.cursors@[ix] {
            Option::Some(v) => v@,
            Option::None => Seq::empty(),
        }
    }

    /// Whether cursor `ix` owns a slice.
    pub closed spec fn occupied(self, ix: int) -> bool {
        self.cursors@[ix] is Some
    }

    /// 256 cursors; an occupied cursor holds between one key and a full
    /// slice.
    pub closed spec fn wf(self) -> bool {
        self.cursors@.len() == 256 && forall|ix: int|
            0 <= ix < 256 && self.occupied(ix) ==> 1 <= (#[trigger] self.cursor_keys(ix)).len()
                <= SLICE_SIZE
    }
}

impl Default for ActiveSlices {
    /// 256 null cursors.
    fn default() -> (r: Self)
        ensures
            r.wf(),
            forall|ix: int| 0 <= ix < 256 ==> !r.occupied(ix),
            forall|ix: int| 0 <= ix < 256 ==> r.cursor_keys(ix) == Seq::<u64>::empty(),
    {
        let mut cursors: Vec<Option<Vec<u64>>> = Vec::new();
        for _i in 0..NUM_BUCKETS
            invariant
                cursors@.len() == _i,
                forall|ix: int| 0 <= ix < _i ==> (#[trigger] cursors@[ix]) is None,
        {
            cursors.push(None);
        }
        let r = ActiveSlices { cursors };
        r
    }
}

/// What bucket `ix` of a pass holds so far: the completed slices in the
/// splitting bucket's child, then the cursor's buffered keys.
pub open spec fn load(sb: SplittingBucket, act: ActiveSlices, ix: int) -> Seq<u64> {
    sb.children@[ix].keys() + act.cursor_keys(ix)
}

/// How many pool slices bucket `ix` of a pass holds.
pub open spec fn slot_count(sb: SplittingBucket, act: ActiveSlices, ix: int) -> int {
    sb.children@[ix].slices@.len() + if act.occupied(ix) {
        1int
    } else {
        0int
    }
}

/// Pool slices held by buckets `0 .. n` of a pass.
pub open spec fn slots_below(sb: SplittingBucket, act: ActiveSlices, n: int) -> int
    decreases n,
{
    if n <= 0 {
        0
    } else {
        slots_below(sb, act, n - 1) + slot_count(sb, act, n - 1)
    }
}

/// If only bucket `ix` changed, the pass's slice total moved by exactly
/// that bucket's change.
pub proof fn lemma_slots_below_update(
    sb1: SplittingBucket,
    act1: ActiveSlices,
    sb2: SplittingBucket,
    act2: ActiveSlices,
    ix: int,
    n: int,
)
    requires
        0 <= ix,
        forall|j: int|
            0 <= j < n && j != ix ==> slot_count(sb2, act2, j) == slot_count(sb1, act1, j),
    ensures
        slots_below(sb2, act2, n) - slots_below(sb1, act1, n) == if ix < n {
            slot_count(sb2, act2, ix) - slot_count(sb1, act1, ix)
        } else {
            0
        },
    decreases n,
{
    if n > 0 {
        lemma_slots_below_update(sb1, act1, sb2, act2, ix, n - 1);
    }
}

/// Keys buffered across cursors `0 .. n`.
pub open spec fn cursors_total(act: ActiveSlices, n: int) -> int
    decreases n,
{
    if n <= 0 {
        0
    } else {
        cursors_total(act, n - 1) + act.cursor_keys(n - 1).len()
    }
}

/// Keys held by buckets `0 .. n` of a pass, slices and cursors together.
pub open spec fn loads_total(sb: SplittingBucket, act: ActiveSlices, n: int) -> int
    decreases n,
{
    if n <= 0 {
        0
    } else {
        loads_total(sb, act, n - 1) + load(sb, act, n - 1).len()
    }
}

/// A closed-out splitting bucket: each child now a full bucket variant.
pub struct SplitBucket {
    pub children: Vec<Bucket>,
}

/// One node of the bucket tree.
pub enum Bucket {
    Split(SplitBucket),
    Unsplit(UnsplitBucket),
    Sorted,
}

/// Tree shape under a fuel bound: every split node has 256 children and
/// the tree is no deeper than the fuel.
pub open spec fn bucket_wf(b: Bucket, fuel: nat) -> bool
    decreases fuel, 0int,
{
    match b {
        Bucket::Sorted => true,
        Bucket::Unsplit(u) => u.wf(),
        Bucket::Split(sb) => fuel > 0 && sb.children@.len() == 256 && children_wf(
            sb.children@,
            sb.children@.len() as int,
            (fuel - 1) as nat,
        ),
    }
}

/// Shape of the first `n` children.
pub open spec fn children_wf(cs: Seq<Bucket>, n: int, fuel: nat) -> bool
    decreases fuel, n,
{
    n <= 0 || (children_wf(cs, n - 1, fuel) && bucket_wf(cs[n - 1], fuel))
}

/// The slices still sitting in `Unsplit` leaves under a node, in traversal
/// order.
pub open spec fn bucket_unsplit(b: Bucket, fuel: nat) -> Seq<Seq<u64>>
    decreases fuel, 0int,
{
    match b {
        Bucket::Sorted => Seq::empty(),
        Bucket::Unsplit(u) => seqs_of(u.slices@),
        Bucket::Split(sb) => if fuel > 0 {
            children_unsplit(sb.children@, sb.children@.len() as int, (fuel - 1) as nat)
        } else {
            Seq::empty()
        },
    }
}

/// The unsplit slices under the first `n` children.
pub open spec fn children_unsplit(cs: Seq<Bucket>, n: int, fuel: nat) -> Seq<Seq<u64>>
    decreases fuel, n,
{
    if n <= 0 {
        Seq::empty()
    } else {
        children_unsplit(cs, n - 1, fuel) + bucket_unsplit(cs[n - 1], fuel)
    }
}

proof fn lemma_children_wf_index(cs: Seq<Bucket>, n: int, fuel: nat, i: int)
    requires
        children_wf(cs, n, fuel),
        0 <= i < n,
    ensures
        bucket_wf(cs[i], fuel),
    decreases n,
{
    if i < n - 1 {
        lemma_children_wf_index(cs, n - 1, fuel, i);
    }
}

/// The scheduler: the slice pool's free list, the root of the bucket tree
/// between calls, and the ghost balance of slices handed out and not yet
/// returned.
pub struct Scheduler {
    free_slices: Vec<Vec<u64>>,
    top_level: Option<Bucket>,
    outstanding: Ghost<int>,
}

impl Scheduler {
    /// Slices handed out by the pool and not yet returned.
    pub closed spec fn pool_outstanding(self) -> int {
        self.outstanding@
    }

    /// The bucket tree kept from the last `split`.
    pub closed spec fn tree(self) -> Option<Bucket> {
        self.top_level
    }

    /// Pool shape: recycled buffers come back cleared; the kept tree is
    /// well-formed within the depth cap.
    pub closed spec fn wf(self) -> bool {
        (forall|i: int|
            0 <= i < self.free_slices@.len() ==> (#[trigger] self.free_slices@[i])@.len() == 0)
            && match self.top_level {
            Option::Some(b) => bucket_wf(b, 9),
            Option::None => true,
        }
    }

    /// A scheduler with an empty pool and no tree.
    pub fn new() -> (r: Self)
        ensures
            r.wf(),
            r.pool_outstanding() == 0,
            r.tree() is None,
    {
        Scheduler { free_slices: Vec::new(), top_level: None, outstanding: Ghost(0) }
    }

    /// Hand out an empty slice buffer: recycle from the free list, or make
    /// a fresh one.
    fn get_slice(&mut self) -> (r: Vec<u64>)
        requires
            old(self).wf(),
        ensures
            final(self).wf(),
            r@.len() == 0,
            final(self).pool_outstanding() == old(self).pool_outstanding() + 1,
            final(self).tree() == old(self).tree(),
    {
        proof {
            self.outstanding@ = self.outstanding@ + 1;
        }
        match self.free_slices.pop() {
            Some(v) => v,
            None => Vec::new(),
        }
    }

    /// Return a slice to the pool.
    fn free_slice(&mut self, slice: Vec<u64>)
        requires
            old(self).wf(),
        ensures
            final(self).wf(),
            final(self).pool_outstanding() == old(self).pool_outstanding() - 1,
            final(self).tree() == old(self).tree(),
    {
        let mut s = slice;
        s.clear();
        self.free_slices.push(s);
        proof {
            self.outstanding@ = self.outstanding@ - 1;
        }
    }
}

impl ActiveSlices {
    /// Fill count encoded by a raw cursor address: a null cursor holds
    /// nothing; a nonnull cursor on a slice boundary has advanced past a
    /// full slice; otherwise the offset within the slice, in keys, is the
    /// used prefix.
    pub open spec fn decode_fill(ptr: usize) -> int {
        if ptr == 0 {
            0
        } else if (ptr % SLICE_SIZE_BYTES) / 8 == 0 {
            SLICE_SIZE as int
        } else {
            (((ptr % SLICE_SIZE_BYTES) / 8) as int)
        }
    }

    /// Decode an address-encoded cursor's fill count.
    pub fn len_of_ptr(ptr: usize) -> (r: usize)
        ensures
            r == Self::decode_fill(ptr),
    {
        if ptr == 0 {
            return 0;
        }
        let offset = (ptr % SLICE_SIZE_BYTES) / 8;
        if offset == 0 {
            SLICE_SIZE
        } else {
            offset
        }
    }

    /// Keys buffered in cursor `ix`.
    pub fn len_of_bucket(&self, ix: usize) -> (r: usize)
        requires
            self.wf(),
            ix < 256,
        ensures
            r == self.cursor_keys(ix as int).len(),
    {
        match &self.cursors[ix] {
            Option::None => 0,
            Option::Some(v) => v.len(),
        }
    }

    /// Keys buffered across all 256 cursors.
    pub fn total_lens_of_buckets(&self) -> (r: usize)
        requires
            self.wf(),
        ensures
            r == cursors_total(*self, 256),
    {
        let mut total: usize = 0;
        for ix in 0..NUM_BUCKETS
            invariant
                self.wf(),
                total == cursors_total(*self, ix as int),
                total <= ix * 8192,
        {
            proof {
                assert(SLICE_SIZE == 8192);
                assert(self.cursor_keys(ix as int).len() <= 8192);
            }
            total = total + self.len_of_bucket(ix);
        }
        total
    }

    /// Keys held by the whole pass: completed slices in `bucket`, plus the
    /// cursors.
    pub fn total_lens_of_full_buckets(&self, bucket: &SplittingBucket) -> (r: usize)
        requires
            self.wf(),
            bucket.children@.len() == 256,
            loads_total(*bucket, *self, 256) <= usize::MAX,
        ensures
            r == loads_total(*bucket, *self, 256),
    {
        let mut total: usize = 0;
        for ix in 0..NUM_BUCKETS
            invariant
                self.wf(),
                bucket.children@.len() == 256,
                loads_total(*bucket, *self, 256) <= usize::MAX,
                total == loads_total(*bucket, *self, ix as int),
        {
            proof {
                lemma_loads_total_monotone(*bucket, *self, ix + 1, 256);
            }
            let child = &bucket.children[ix];
            let mut child_total: usize = 0;
            let m = child.slices.len();
            for i in 0..m
                invariant
                    self.wf(),
                    bucket.children@.len() == 256,
                    ix < 256,
                    m == bucket.children@[ix as int].slices@.len(),
                    child == &bucket.children@[ix as int],
                    child_total == concat_of(seqs_of(child.slices@.subrange(0, i as int))).len(),
                    total + child_total + self.cursor_keys(ix as int).len() <= loads_total(
                        *bucket,
                        *self,
                        ix + 1,
                    ),
                    total == loads_total(*bucket, *self, ix as int),
                    loads_total(*bucket, *self, ix + 1) <= usize::MAX,
                    loads_total(*bucket, *self, 256) <= usize::MAX,
            {
                proof {
                    let pre = child.slices@.subrange(0, i as int);
                    assert(child.slices@.subrange(0, i + 1) =~= pre.push(child.slices@[i as int]));
                    assert(seqs_of(pre.push(child.slices@[i as int])) =~= seqs_of(pre).push(
                        child.slices@[i as int]@,
                    ));
                    lemma_concat_push(seqs_of(pre), child.slices@[i as int]@);
                    assert(child.slices@ =~= child.slices@.subrange(0, i + 1) + child.slices@
                        .subrange(i + 1, m as int));
                    assert(seqs_of(child.slices@) =~= seqs_of(child.slices@.subrange(0, i + 1))
                        + seqs_of(child.slices@.subrange(i + 1, m as int)));
                    lemma_concat_of_append(
                        seqs_of(child.slices@.subrange(0, i + 1)),
                        seqs_of(child.slices@.subrange(i + 1, m as int)),
                    );
                }
                child_total = child_total + child.slices[i].len();
            }
            proof {
                assert(child.slices@.subrange(0, m as int) =~= child.slices@);
                assert(load(*bucket, *self, ix as int).len() == child.keys().len()
                    + self.cursor_keys(ix as int).len());
            }
            total = total + child_total + self.len_of_bucket(ix);
        }
        total
    }
}

/// Appending a slice to a bucket appends its keys.
proof fn lemma_keys_after_push(sl: Seq<Vec<u64>>, v: Vec<u64>)
    ensures
        concat_of(seqs_of(sl.push(v))) == concat_of(seqs_of(sl)) + v@,
{
    assert(seqs_of(sl.push(v)) =~= seqs_of(sl).push(v@));
    lemma_concat_push(seqs_of(sl), v@);
}

impl ActiveSlices {
    /// Route one key into bucket `ix`: flush the cursor's slice to the
    /// child when it is full, take a fresh slice from the pool when the
    /// cursor is null, then append the key.
    pub fn insert_element(
        &mut self,
        bucket: &mut SplittingBucket,
        sched: &mut Scheduler,
        el: u64,
        ix: usize,
    )
        requires
            ix < 256,
            old(self).wf(),
            old(bucket).wf_open(),
            old(sched).wf(),
        ensures
            final(self).wf(),
            final(bucket).wf_open(),
            final(sched).wf(),
            final(sched).tree() == old(sched).tree(),
            load(*final(bucket), *final(self), ix as int) == load(
                *old(bucket),
                *old(self),
                ix as int,
            ).push(el),
            forall|j: int|
                0 <= j < 256 && j != ix ==> final(self).cursor_keys(j) == old(self).cursor_keys(
                    j,
                ),
            forall|j: int|
                0 <= j < 256 && j != ix ==> (final(self).occupied(j) <==> old(self).occupied(j)),
            forall|j: int|
                0 <= j < 256 && j != ix ==> final(bucket).children@[j] == old(bucket).children@[j],
            final(sched).pool_outstanding() - old(sched).pool_outstanding() == slot_count(
                *final(bucket),
                *final(self),
                ix as int,
            ) - slot_count(*old(bucket), *old(self), ix as int),
    {
        let ghost keys0 = old(bucket).children@[ix as int].keys();
        let ghost cur0 = old(self).cursor_keys(ix as int);
        let ghost occ0 = old(self).occupied(ix as int);
        let ghost nsl0 = old(bucket).children@[ix as int].slices@.len();
        let mut slot: Option<Vec<u64>> = None;
        core::mem::swap(&mut self.cursors[ix], &mut slot);
        let mut cur: Vec<u64> = match slot {
            Option::Some(v) => {
                proof {
                    assert(v@ == cur0);
                }
                if v.len() == SLICE_SIZE {
                    let ghost vs = v@;
                    let mut child = UnsplitBucket { slices: Vec::new() };
                    core::mem::swap(&mut bucket.children[ix], &mut child);
                    let ghost csl = child.slices@;
                    child.slices.push(v);
                    core::mem::swap(&mut bucket.children[ix], &mut child);
                    proof {
                        let pushed = bucket.children@[ix as int].slices@[csl.len() as int];
                        assert(bucket.children@[ix as int].slices@ =~= csl.push(pushed));
                        lemma_keys_after_push(csl, pushed);
                        assert(bucket.children@[ix as int].keys() == keys0 + vs);
                    }
                    sched.get_slice()
                } else {
                    v
                }
            },
            Option::None => sched.get_slice(),
        };
        let ghost mid = cur@;
        proof {
            assert(bucket.children@[ix as int].keys() + mid =~= keys0 + cur0);
            assert(mid.len() < SLICE_SIZE);
            assert(sched.pool_outstanding() - old(sched).pool_outstanding()
                == (bucket.children@[ix as int].slices@.len() - nsl0) + (if occ0 {
                0int
            } else {
                1int
            }));
        }
        cur.push(el);
        let mut back: Option<Vec<u64>> = Some(cur);
        core::mem::swap(&mut self.cursors[ix], &mut back);
        proof {
            assert(self.cursor_keys(ix as int) == mid.push(el));
            assert(bucket.children@[ix as int].keys() + mid.push(el) =~= (keys0 + cur0).push(el));
            assert(load(*bucket, *self, ix as int) == load(*old(bucket), *old(self), ix as int)
                .push(el));
            assert forall|j: int|
                0 <= j < 256 && j != ix implies self.cursor_keys(j) == old(self).cursor_keys(j) && (
            self.occupied(j) <==> old(self).occupied(j)) && bucket.children@[j] == old(
                bucket,
            ).children@[j] by {
                assert(self.cursors@[j] == old(self).cursors@[j]);
            }
            assert(self.wf()) by {
                assert forall|jj: int|
                    0 <= jj < 256 && self.occupied(jj) implies 1 <= (#[trigger] self.cursor_keys(
                    jj,
                )).len() <= SLICE_SIZE by {
                    if jj != ix {
                        assert(self.cursors@[jj] == old(self).cursors@[jj]);
                        assert(self.cursor_keys(jj) == old(self).cursor_keys(jj));
                    }
                }
            }
        }
    }

    /// Route a run of keys into bucket `ix`: when the cursor's remaining
    /// capacity holds the whole run, append it in one go; otherwise fall
    /// back to per-key inserts.
    #[verifier::rlimit(100)]
    #[verifier::spinoff_prover]
    pub fn insert_elements(
        &mut self,
        bucket: &mut SplittingBucket,
        sched: &mut Scheduler,
        els: &[u64],
        ix: usize,
    )
        requires
            ix < 256,
            old(self).wf(),
            old(bucket).wf_open(),
            old(sched).wf(),
        ensures
            final(self).wf(),
            final(bucket).wf_open(),
            final(sched).wf(),
            final(sched).tree() == old(sched).tree(),
            load(*final(bucket), *final(self), ix as int) == load(
                *old(bucket),
                *old(self),
                ix as int,
            ) + els@,
            forall|j: int|
                0 <= j < 256 && j != ix ==> final(self).cursor_keys(j) == old(self).cursor_keys(
                    j,
                ),
            forall|j: int|
                0 <= j < 256 && j != ix ==> (final(self).occupied(j) <==> old(self).occupied(j)),
            forall|j: int|
                0 <= j < 256 && j != ix ==> final(bucket).children@[j] == old(bucket).children@[j],
            final(sched).pool_outstanding() - old(sched).pool_outstanding() == slot_count(
                *final(bucket),
                *final(self),
                ix as int,
            ) - slot_count(*old(bucket), *old(self), ix as int),
    {
        let room = match &self.cursors[ix] {
            Option::Some(v) => {
                proof {
                    assert(self.cursor_keys(ix as int) == v@);
                }
                SLICE_SIZE - v.len()
            },
            Option::None => 0,
        };
        let n = els.len();
        if n <= room && n > 0 {
            let mut slot: Option<Vec<u64>> = None;
            core::mem::swap(&mut self.cursors[ix], &mut slot);
            match slot {
                Option::Some(v) => {
                    let ghost vs = v@;
                    let mut cur = v;
                    for i in 0..n
                        invariant
                            n == els@.len(),
                            cur@ == vs + els@.subrange(0, i as int),
                            vs.len() + n <= SLICE_SIZE,
                    {
                        cur.push(els[i]);
                        proof {
                            assert(vs + els@.subrange(0, i + 1) =~= (vs + els@.subrange(
                                0,
                                i as int,
                            )).push(els@[i as int]));
                        }
                    }
                    let mut back: Option<Vec<u64>> = Some(cur);
                    core::mem::swap(&mut self.cursors[ix], &mut back);
                    proof {
                        assert(els@.subrange(0, n as int) =~= els@);
                        assert(self.cursor_keys(ix as int) == vs + els@);
                        assert(bucket.children@[ix as int].keys() + (vs + els@) =~= (
                        bucket.children@[ix as int].keys() + vs) + els@);
                        assert(load(*bucket, *self, ix as int) == load(
                            *old(bucket),
                            *old(self),
                            ix as int,
                        ) + els@);
                        assert forall|j: int|
                            0 <= j < 256 && j != ix implies self.cursor_keys(j) == old(
                            self,
                        ).cursor_keys(j) && (self.occupied(j) <==> old(self).occupied(j))
                            && bucket.children@[j] == old(bucket).children@[j] by {
                            assert(self.cursors@[j] == old(self).cursors@[j]);
                        }
                        assert(self.wf()) by {
                            assert forall|jj: int|
                                0 <= jj < 256 && self.occupied(jj) implies 1 <= (
                            #[trigger] self.cursor_keys(jj)).len() <= SLICE_SIZE by {
                                if jj != ix {
                                    assert(self.cursors@[jj] == old(self).cursors@[jj]);
                                    assert(self.cursor_keys(jj) == old(self).cursor_keys(jj));
                                }
                            }
                        }
                        assert forall|j: int|
                            0 <= j < 256 && j != ix implies bucket.children@[j] == old(
                            bucket,
                        ).children@[j] by {
                            assert(bucket.children@.len() == 256);
                        }
                    }
                }
                Option::None => {
                    proof {
                        assert(false);
                    }
                },
            }
        } else {
            let ghost sb0 = *old(bucket);
            let ghost act0 = *old(self);
            let ghost sched0 = *old(sched);
            for i in 0..n
                invariant
                    ix < 256,
                    n == els@.len(),
                    self.wf(),
                    bucket.wf_open(),
                    sched.wf(),
                    sched.tree() == sched0.tree(),
                    load(*bucket, *self, ix as int) == load(sb0, act0, ix as int) + els@.subrange(
                        0,
                        i as int,
                    ),
                    forall|j: int|
                        0 <= j < 256 && j != ix ==> self.cursor_keys(j) == act0.cursor_keys(j) && (
                        self.occupied(j) <==> act0.occupied(j)) && bucket.children@[j]
                            == sb0.children@[j],
                    sched.pool_outstanding() - sched0.pool_outstanding() == slot_count(
                        *bucket,
                        *self,
                        ix as int,
                    ) - slot_count(sb0, act0, ix as int),
            {
                let ghost self_in = *self;
                let ghost bkt_in = *bucket;
                self.insert_element(bucket, sched, els[i], ix);
                proof {
                    assert((load(sb0, act0, ix as int) + els@.subrange(0, i as int)).push(
                        els@[i as int],
                    ) =~= load(sb0, act0, ix as int) + els@.subrange(0, i + 1));
                    assert forall|j: int|
                        0 <= j < 256 && j != ix implies self.cursor_keys(j) == act0.cursor_keys(j)
                        && (self.occupied(j) <==> act0.occupied(j)) && bucket.children@[j]
                        == sb0.children@[j] by {
                        assert(self.cursor_keys(j) == self_in.cursor_keys(j));
                        assert(self_in.cursor_keys(j) == act0.cursor_keys(j));
                        assert(bucket.children@[j] == bkt_in.children@[j]);
                        assert(bkt_in.children@[j] == sb0.children@[j]);
                    }
                }
            }
            proof {
                assert(els@.subrange(0, n as int) =~= els@);
                assert(load(*bucket, *self, ix as int) =~= load(sb0, act0, ix as int) + els@);
                assert forall|j: int|
                    0 <= j < 256 && j != ix implies self.cursor_keys(j) == old(
                    self,
                ).cursor_keys(j) && (self.occupied(j) <==> old(self).occupied(j))
                    && bucket.children@[j] == old(bucket).children@[j] by {
                    assert(self.cursor_keys(j) == act0.cursor_keys(j));
                    assert(self.occupied(j) <==> act0.occupied(j));
                    assert(bucket.children@[j] == sb0.children@[j]);
                }
            }
        }
        proof {
            assert forall|j: int|
                0 <= j < 256 && j != ix implies bucket.children@[j] == old(
                bucket,
            ).children@[j] by {
                let k1 = self.cursor_keys(j);
                let k2 = old(self).cursor_keys(j);
                assert(bucket.children@.len() == 256);
            }
        }
    }

    /// Close out a pass: attach each occupied cursor's buffered slice to
    /// its child as the final slice. The set is consumed; every child then
    /// holds its bucket's whole load.
    pub fn complete(self, bucket: &mut SplittingBucket)
        requires
            self.wf(),
            old(bucket).wf_open(),
        ensures
            final(bucket).wf_done(),
            forall|j: int|
                0 <= j < 256 ==> final(bucket).children@[j].keys() == load(*old(bucket), self, j),
            forall|j: int|
                0 <= j < 256 ==> final(bucket).children@[j].slices@.len()
                    == old(bucket).children@[j].slices@.len() + (if self.occupied(j) {
                    1int
                } else {
                    0int
                }),
    {
        let ghost init = self;
        let mut act = self;
        let ghost sb0 = *old(bucket);
        for ix in 0..NUM_BUCKETS
            invariant
                act.cursors@.len() == 256,
                bucket.children@.len() == 256,
                forall|j: int|
                    0 <= j < ix ==> bucket.children@[j].keys() == load(
                        sb0,
                        init,
                        j,
                    ) && bucket.children@[j].wf() && bucket.children@[j].slices@.len() == (
                    #[trigger] sb0.children@[j]).slices@.len() + (if init.occupied(j) {
                        1int
                    } else {
                        0int
                    }),
                forall|j: int| ix <= j < 256 ==> bucket.children@[j] == #[trigger] sb0.children@[j],
                forall|j: int| ix <= j < 256 ==> #[trigger] act.cursors@[j] == init.cursors@[j],
                init.wf(),
                sb0.wf_open(),
        {
            let ghost act_in = act;
            let ghost bkt_in = *bucket;
            proof {
                assert(act.cursors@[ix as int] == init.cursors@[ix as int]);
                assert(bucket.children@[ix as int] == sb0.children@[ix as int]);
            }
            let mut slot: Option<Vec<u64>> = None;
            core::mem::swap(&mut act.cursors[ix], &mut slot);
            proof {
                assert(slot == init.cursors@[ix as int]);
            }
            match slot {
                Option::Some(v) => {
                    let ghost vs = v@;
                    proof {
                        assert(init.occupied(ix as int));
                        assert(vs == init.cursor_keys(ix as int));
                    }
                    let mut child = UnsplitBucket { slices: Vec::new() };
                    core::mem::swap(&mut bucket.children[ix], &mut child);
                    let ghost csl = child.slices@;
                    child.slices.push(v);
                    core::mem::swap(&mut bucket.children[ix], &mut child);
                    proof {
                        let pushed = bucket.children@[ix as int].slices@[csl.len() as int];
                        assert(bucket.children@[ix as int].slices@ =~= csl.push(pushed));
                        lemma_keys_after_push(csl, pushed);
                        assert(bucket.children@[ix as int].keys() == load(sb0, init, ix as int));
                        assert(bucket.children@[ix as int].wf()) by {
                            assert(full_slices_only(sb0.children@[ix as int]));
                            assert(1 <= vs.len() <= SLICE_SIZE);
                        }
                    }
                },
                Option::None => {
                    proof {
                        assert(!init.occupied(ix as int));
                        assert(bucket.children@[ix as int].keys() + init.cursor_keys(ix as int)
                            =~= bucket.children@[ix as int].keys());
                        assert(bucket.children@[ix as int].wf()) by {
                            assert(full_slices_only(sb0.children@[ix as int]));
                            assert(SLICE_SIZE >= 1);
                        }
                    }
                },
            }
            proof {
                assert forall|j: int| 0 <= j < ix + 1 implies bucket.children@[j].keys() == load(
                    sb0,
                    init,
                    j,
                ) && bucket.children@[j].wf() && bucket.children@[j].slices@.len() == (
                #[trigger] sb0.children@[j]).slices@.len() + (if init.occupied(j) {
                    1int
                } else {
                    0int
                }) by {
                    if j < ix {
                        assert(bucket.children@[j] == bkt_in.children@[j]);
                    }
                }
                assert forall|j: int| ix + 1 <= j < 256 implies bucket.children@[j] == (
                #[trigger] sb0.children@[j]) by {
                    assert(bucket.children@[j] == bkt_in.children@[j]);
                }
                assert forall|j: int|
                    ix + 1 <= j < 256 implies #[trigger] act.cursors@[j] == init.cursors@[j] by {
                    assert(act.cursors@[j] == act_in.cursors@[j]);
                }
            }
        }
        proof {
            assert forall|j: int| 0 <= j < 256 implies (#[trigger] bucket.children@[j]).wf() by {
                assert(sb0.children@[j] == sb0.children@[j]);
                assert(bucket.children@[j].keys() == load(sb0, init, j));
            }
            assert(bucket.wf_done());
            assert forall|j: int| 0 <= j < 256 implies bucket.children@[j].keys() == load(
                *old(bucket),
                self,
                j,
            ) by {
                assert(sb0.children@[j] == sb0.children@[j]);
                assert(bucket.children@[j].keys() == load(sb0, init, j));
            }
        }
    }
}

/// Pool slices held in the first `n` children of a closed-out pass.
pub open spec fn children_slices(cs: Seq<UnsplitBucket>, n: int) -> int
    decreases n,
{
    if n <= 0 {
        0
    } else {
        children_slices(cs, n - 1) + cs[n - 1].slices@.len()
    }
}

proof fn lemma_children_slices_match(
    cs: Seq<UnsplitBucket>,
    sb: SplittingBucket,
    act: ActiveSlices,
    n: int,
)
    requires
        forall|j: int| 0 <= j < n ==> (#[trigger] cs[j]).slices@.len() == slot_count(sb, act, j),
    ensures
        children_slices(cs, n) == slots_below(sb, act, n),
    decreases n,
{
    if n > 0 {
        lemma_children_slices_match(cs, sb, act, n - 1);
    }
}

/// The splitter capability set: scatter a run of keys into the active
/// cursors by one digit, or sort a small run directly into the output.
pub trait Splitter: Sized {
    /// Scatter each key of `input` into bucket `(key >> shift) & mask` of
    /// the pass formed by `output` and `bucket`, drawing slices from
    /// `sched`'s pool as cursors fill.
    fn split(
        &mut self,
        input: &[u64],
        shift: u64,
        mask: u64,
        output: &mut ActiveSlices,
        bucket: &mut SplittingBucket,
        sched: &mut Scheduler,
    )
        requires
            shift <= 56,
            mask == 0xff,
            old(output).wf(),
            old(bucket).wf_open(),
            old(sched).wf(),
        ensures
            final(output).wf(),
            final(bucket).wf_open(),
            final(sched).wf(),
            final(sched).tree() == old(sched).tree(),
            forall|j: u64|
                j < 256 ==> load(*final(bucket), *final(output), j as int) == load(
                    *old(bucket),
                    *old(output),
                    j as int,
                ) + routed(input@, shift, mask, j),
            final(sched).pool_outstanding() - old(sched).pool_outstanding() == slots_below(
                *final(bucket),
                *final(output),
                256,
            ) - slots_below(*old(bucket), *old(output), 256),
    ;

    /// Copy `input` into `output` at `start`, comparison-sorted ascending;
    /// the rest of `output` is untouched.
    fn split_small(&mut self, input: &[u64], output: &mut Vec<u64>, start: usize)
        requires
            start + input@.len() <= old(output)@.len(),
        ensures
            final(output)@.len() == old(output)@.len(),
            forall|i: int| 0 <= i < start ==> final(output)@[i] == old(output)@[i],
            forall|i: int|
                start + input@.len() <= i < final(output)@.len() ==> final(output)@[i] == old(
                    output,
                )@[i],
            sorted(final(output)@.subrange(start as int, start + input@.len())),
            final(output)@.subrange(start as int, start + input@.len()).to_multiset()
                == input@.to_multiset(),
    ;
}

impl UnsplitBucket {
    /// Split this bucket on the digit at `shift`: scatter every slice
    /// through the splitter, return each consumed slice to the pool, then
    /// close out the cursors. The key count is invariant across the call:
    /// child `j` receives exactly the keys routed to digit `j`, in order.
    pub fn split<S: Splitter>(
        self,
        sched: &mut Scheduler,
        splitter: &mut S,
        shift: u64,
        mask: u64,
    ) -> (res: SplittingBucket)
        requires
            shift <= 56,
            mask == 0xff,
            old(sched).wf(),
        ensures
            final(sched).wf(),
            final(sched).tree() == old(sched).tree(),
            res.wf_done(),
            forall|j: u64|
                j < 256 ==> (#[trigger] res.children@[j as int]).keys() == routed(
                    self.keys(),
                    shift,
                    mask,
                    j,
                ),
            final(sched).pool_outstanding() - old(sched).pool_outstanding() == children_slices(
                res.children@,
                256,
            ) - self.slices@.len(),
    {
        let ghost all = self.slices@;
        let UnsplitBucket { slices } = self;
        let mut dests = ActiveSlices::default();
        let mut res = SplittingBucket::default();
        let n = slices.len();
        proof {
            assert forall|j: u64| j < 256 implies load(res, dests, j as int) == routed(
                concat_of(seqs_of(all.subrange(0, 0))),
                shift,
                mask,
                j,
            ) by {
                assert(all.subrange(0, 0) =~= Seq::<Vec<u64>>::empty());
                assert(seqs_of(all.subrange(0, 0)) =~= Seq::<Seq<u64>>::empty());
                assert(load(res, dests, j as int) =~= Seq::<u64>::empty());
            }
            assert(slots_below(res, dests, 256) == 0) by {
                lemma_slots_below_zero(res, dests, 256);
            }
        }
        for i in 0..n
            invariant
                n == slices@.len(),
                slices@ == all,
                shift <= 56,
                mask == 0xff,
                dests.wf(),
                res.wf_open(),
                sched.wf(),
                sched.tree() == old(sched).tree(),
                forall|j: u64|
                    j < 256 ==> load(res, dests, j as int) == routed(
                        concat_of(seqs_of(all.subrange(0, i as int))),
                        shift,
                        mask,
                        j,
                    ),
                sched.pool_outstanding() - old(sched).pool_outstanding() == slots_below(
                    res,
                    dests,
                    256,
                ),
        {
            let ghost res_in = res;
            let ghost dests_in = dests;
            splitter.split(slices[i].as_slice(), shift, mask, &mut dests, &mut res, sched);
            proof {
                let pre = seqs_of(all.subrange(0, i as int));
                assert(seqs_of(all.subrange(0, i + 1)) =~= pre.push(all[i as int]@)) by {
                    assert(all.subrange(0, i + 1) =~= all.subrange(0, i as int).push(
                        all[i as int],
                    ));
                }
                lemma_concat_push(pre, all[i as int]@);
                assert forall|j: u64| j < 256 implies load(res, dests, j as int) == routed(
                    concat_of(seqs_of(all.subrange(0, i + 1))),
                    shift,
                    mask,
                    j,
                ) by {
                    lemma_routed_concat(concat_of(pre), all[i as int]@, shift, mask, j);
                    assert(load(res, dests, j as int) == load(res_in, dests_in, j as int) + routed(
                        all[i as int]@,
                        shift,
                        mask,
                        j,
                    ));
                }
            }
        }
        let mut rest = slices;
        let ghost out1 = sched.pool_outstanding();
        while rest.len() > 0
            invariant
                rest.len() <= n,
                sched.wf(),
                sched.tree() == old(sched).tree(),
                sched.pool_outstanding() == out1 - (n - rest.len()),
            decreases rest.len(),
        {
            match rest.pop() {
                Some(s) => sched.free_slice(s),
                None => {},
            }
        }
        let ghost res1 = res;
        let ghost dests1 = dests;
        dests.complete(&mut res);
        proof {
            assert forall|j: u64| j < 256 implies (#[trigger] res.children@[j as int]).keys()
                == routed(self.keys(), shift, mask, j) by {
                assert(all.subrange(0, n as int) =~= all);
                assert(res.children@[j as int].keys() == load(res1, dests1, j as int));
            }
            assert(children_slices(res.children@, 256) == slots_below(res1, dests1, 256)) by {
                lemma_children_slices_match(res.children@, res1, dests1, 256);
            }
        }
        res
    }
}

proof fn lemma_slots_below_zero(sb: SplittingBucket, act: ActiveSlices, n: int)
    requires
        forall|j: int| 0 <= j < n ==> (#[trigger] sb.children@[j]).slices@.len() == 0,
        forall|j: int| 0 <= j < n ==> !act.occupied(j),
    ensures
        slots_below(sb, act, n) == 0,
    decreases n,
{
    if n > 0 {
        lemma_slots_below_zero(sb, act, n - 1);
    }
}

/// A list of key sequences concatenates as its prefix below `i`, entry
/// `i`, and its suffix above `i`.
proof fn lemma_concat_three(ss: Seq<Seq<u64>>, i: int)
    requires
        0 <= i < ss.len(),
    ensures
        concat_of(ss) == concat_of(ss.subrange(0, i)) + ss[i] + concat_of(
            ss.subrange(i + 1, ss.len() as int),
        ),
{
    assert(ss =~= ss.subrange(0, i + 1) + ss.subrange(i + 1, ss.len() as int));
    lemma_concat_of_append(ss.subrange(0, i + 1), ss.subrange(i + 1, ss.len() as int));
    assert(ss.subrange(0, i + 1) =~= ss.subrange(0, i).push(ss[i]));
    lemma_concat_push(ss.subrange(0, i), ss[i]);
}

/// Every key of one entry occurs in the concatenation.
proof fn lemma_concat_member(ss: Seq<Seq<u64>>, i: int, t: int)
    requires
        0 <= i < ss.len(),
        0 <= t < ss[i].len(),
    ensures
        concat_of(ss).contains(ss[i][t]),
{
    lemma_concat_three(ss, i);
    let pre = concat_of(ss.subrange(0, i));
    let p = pre.len() + t;
    assert(concat_of(ss)[p as int] == ss[i][t]);
}

proof fn lemma_children_wf_all_sorted(cs: Seq<Bucket>, n: int, fuel: nat)
    requires
        forall|k: int| 0 <= k < n ==> (#[trigger] cs[k]) is Sorted,
    ensures
        children_wf(cs, n, fuel),
    decreases n,
{
    if n > 0 {
        lemma_children_wf_all_sorted(cs, n - 1, fuel);
        assert(cs[n - 1] is Sorted);
        assert(bucket_wf(cs[n - 1], fuel));
    }
}

proof fn lemma_children_unsplit_all_sorted(cs: Seq<Bucket>, n: int, fuel: nat)
    requires
        forall|k: int| 0 <= k < n ==> (#[trigger] cs[k]) is Sorted,
    ensures
        children_unsplit(cs, n, fuel) == Seq::<Seq<u64>>::empty(),
    decreases n,
{
    if n > 0 {
        lemma_children_unsplit_all_sorted(cs, n - 1, fuel);
        assert(cs[n - 1] is Sorted);
        assert(bucket_unsplit(cs[n - 1], fuel) =~= Seq::<Seq<u64>>::empty());
        assert(children_unsplit(cs, n, fuel) =~= Seq::<Seq<u64>>::empty());
    }
}

impl Scheduler {
    /// Emit one bucket, sorted, into `output` at `out_ix`, returning the
    /// cursor past it. An empty bucket is already done; a single slice, or
    /// a bucket at level 9 (whose keys all agree on every digit, hence are
    /// equal), is comparison-sorted straight into the output and its
    /// slices returned to the pool; anything else is split on the level's
    /// digit and the children visited in ascending digit order.
    fn sort_bucket<S: Splitter>(
        &mut self,
        b: UnsplitBucket,
        splitter: &mut S,
        level: u8,
        output: &mut Vec<u64>,
        out_ix: usize,
    ) -> (new_ix: usize)
        requires
            1 <= level <= 9,
            old(self).wf(),
            all_agree_at(b.keys(), level as int),
            out_ix + b.keys().len() <= old(output)@.len(),
            sorted(old(output)@.subrange(0, out_ix as int)),
            forall|i: int, q: int|
                0 <= i < out_ix && 0 <= q < b.keys().len() ==> old(output)@[i] <= b.keys()[q],
        ensures
            new_ix == out_ix + b.keys().len(),
            final(output)@.len() == old(output)@.len(),
            final(output)@.subrange(0, out_ix as int) == old(output)@.subrange(0, out_ix as int),
            final(output)@.subrange(out_ix as int, new_ix as int).to_multiset()
                == b.keys().to_multiset(),
            sorted(final(output)@.subrange(0, new_ix as int)),
            final(self).wf(),
            final(self).tree() == old(self).tree(),
            final(self).pool_outstanding() == old(self).pool_outstanding() - b.slices@.len(),
        decreases 10 - level,
    {
        let ghost bk = b.keys();
        let ghost all0 = b.slices@;
        let ghost pos0 = out_ix;
        if b.slices.len() == 0 {
            proof {
                assert(seqs_of(all0) =~= Seq::<Seq<u64>>::empty());
                assert(bk =~= Seq::<u64>::empty());
                assert(output@.subrange(out_ix as int, out_ix as int) =~= Seq::<u64>::empty());
                assert(bk.to_multiset() == output@.subrange(out_ix as int, out_ix as int)
                    .to_multiset());
            }
            return out_ix;
        }
        if level == 9 || b.slices.len() == 1 {
            let mut slices = b.slices;
            let m = slices.len();
            let olen = output.len();
            let mut cur = out_ix;
            for i in 0..m
                invariant
                    m == slices@.len(),
                    m == all0.len(),
                    m == 1 || level == 9,
                    1 <= level <= 9,
                    forall|k: int| i <= k < m ==> slices@[k] == all0[k],
                    all_agree_at(bk, level as int),
                    bk == concat_of(seqs_of(all0)),
                    olen == output@.len(),
                    output@.len() == old(output)@.len(),
                    pos0 + bk.len() <= olen,
                    cur == pos0 + concat_of(seqs_of(all0.subrange(0, i as int))).len(),
                    output@.subrange(0, pos0 as int) == old(output)@.subrange(0, pos0 as int),
                    output@.subrange(pos0 as int, cur as int).to_multiset() == concat_of(
                        seqs_of(all0.subrange(0, i as int)),
                    ).to_multiset(),
                    sorted(output@.subrange(0, cur as int)),
                    forall|p: int, q: int|
                        0 <= p < pos0 && 0 <= q < bk.len() ==> old(output)@[p] <= bk[q],
                    level == 9 ==> forall|p: int, q: int|
                        pos0 <= p < cur && 0 <= q < bk.len() ==> output@[p] <= bk[q],
                    self.wf(),
                    self.tree() == old(self).tree(),
                    self.pool_outstanding() == old(self).pool_outstanding() - i,
            {
                let ghost outv = output@;
                let ghost emitted = concat_of(seqs_of(all0.subrange(0, i as int)));
                let mut s: Vec<u64> = Vec::new();
                core::mem::swap(&mut slices[i], &mut s);
                let ghost sv = s@;
                proof {
                    assert(sv == seqs_of(all0)[i as int]);
                    lemma_concat_three(seqs_of(all0), i as int);
                    assert(seqs_of(all0).subrange(0, i as int) =~= seqs_of(
                        all0.subrange(0, i as int),
                    ));
                    assert(seqs_of(all0).subrange(i + 1, m as int) =~= seqs_of(
                        all0.subrange(i + 1, m as int),
                    ));
                    assert(bk.len() == emitted.len() + sv.len() + concat_of(
                        seqs_of(all0.subrange(i + 1, m as int)),
                    ).len());
                    assert(cur + sv.len() <= pos0 + bk.len());
                    assert forall|t: int| 0 <= t < sv.len() implies bk.contains(#[trigger] sv[t]) by {
                        lemma_concat_member(seqs_of(all0), i as int, t);
                    }
                }
                let sl = s.len();
                splitter.split_small(s.as_slice(), output, cur);
                self.free_slice(s);
                proof {
                    let seg = output@.subrange(cur as int, (cur + sl) as int);
                    assert(seg.to_multiset() == sv.to_multiset());
                    // every key of the new run occurs in the bucket
                    assert forall|p: int|
                        cur <= p < cur + sl implies bk.contains(#[trigger] output@[p]) by {
                        assert(seg[p - cur] == output@[p]);
                        assert(seg.contains(output@[p]));
                        assert(sv.to_multiset().contains(output@[p]));
                        assert(sv.contains(output@[p]));
                        let w = choose|w: int| 0 <= w < sv.len() && sv[w] == output@[p];
                        assert(bk.contains(sv[w]));
                    }
                    // prefix parts survive the write
                    assert(output@.subrange(0, pos0 as int) =~= outv.subrange(0, pos0 as int));
                    assert(output@.subrange(pos0 as int, cur as int) =~= outv.subrange(
                        pos0 as int,
                        cur as int,
                    ));
                    assert(output@.subrange(0, cur as int) =~= outv.subrange(0, cur as int));
                    // the whole emitted prefix is sorted
                    assert forall|x: int, y: int|
                        0 <= x <= y < cur + sl implies output@[x] <= output@[y] by {
                        if y < cur {
                            assert(outv.subrange(0, cur as int)[x] == output@[x]);
                            assert(outv.subrange(0, cur as int)[y] == output@[y]);
                        } else if x >= cur {
                            assert(seg[x - cur] == output@[x]);
                            assert(seg[y - cur] == output@[y]);
                        } else {
                            // x before the run, y inside it
                            assert(bk.contains(output@[y]));
                            let qy = choose|qy: int| 0 <= qy < bk.len() && bk[qy] == output@[y];
                            if x < pos0 {
                                assert(output@.subrange(0, pos0 as int)[x] == output@[x]);
                                assert(old(output)@.subrange(0, pos0 as int)[x] == old(
                                    output,
                                )@[x]);
                                assert(old(output)@[x] <= bk[qy]);
                            } else {
                                assert(level == 9);
                                assert(output@[x] == outv[x]);
                                assert(outv[x] <= bk[qy]);
                            }
                        }
                    }
                    assert(sorted(output@.subrange(0, (cur + sl) as int)));
                    // multiset bookkeeping for the grown prefix
                    assert(all0.subrange(0, i + 1) =~= all0.subrange(0, i as int).push(
                        all0[i as int],
                    ));
                    assert(seqs_of(all0.subrange(0, i + 1)) =~= seqs_of(
                        all0.subrange(0, i as int),
                    ).push(sv));
                    lemma_concat_push(seqs_of(all0.subrange(0, i as int)), sv);
                    assert(output@.subrange(pos0 as int, (cur + sl) as int) =~= output@.subrange(
                        pos0 as int,
                        cur as int,
                    ) + seg);
                    vstd::seq_lib::lemma_multiset_commutative(
                        output@.subrange(pos0 as int, cur as int),
                        seg,
                    );
                    vstd::seq_lib::lemma_multiset_commutative(emitted, sv);
                    // at level 9 the new run keeps the emitted keys below the rest
                    if level == 9 {
                        assert forall|p: int, q: int|
                            pos0 <= p < cur + sl && 0 <= q < bk.len() implies output@[p]
                            <= bk[q] by {
                            if p < cur {
                                assert(outv.subrange(pos0 as int, cur as int)[p - pos0]
                                    == outv[p]);
                                assert(output@.subrange(pos0 as int, cur as int)[p - pos0]
                                    == output@[p]);
                                assert(outv[p] <= bk[q]);
                            } else {
                                assert(bk.contains(output@[p]));
                                let w = choose|w: int| 0 <= w < bk.len() && bk[w] == output@[p];
                                assert(agree_at(bk[w], bk[q], 9));
                            }
                        }
                    }
                }
                cur = cur + sl;
            }
            proof {
                assert(all0.subrange(0, m as int) =~= all0);
            }
            return cur;
        }
        // interior bucket: split on this level's digit
        let shift: u64 = ((8 - level) as u64) * 8;
        proof {
            assert(shift == shift_for_level(level as int));
        }
        let ghost out0 = self.pool_outstanding();
        let sb = b.split(self, splitter, shift, 0xff);
        let ghost cs0 = sb.children@;
        let ghost outs = self.pool_outstanding();
        let mut children = sb.children;
        let olen = output.len();
        let mut cur = out_ix;
        proof {
            assert(routed_msets_below(bk, shift, 0xff, 0) == Multiset::<u64>::empty());
            assert(output@.subrange(pos0 as int, pos0 as int) =~= Seq::<u64>::empty());
            assert(Seq::<u64>::empty().to_multiset() =~= Multiset::<u64>::empty());
        }
        for ix in 0..NUM_BUCKETS
            invariant
                children@.len() == 256,
                cs0.len() == 256,
                forall|k: int| ix <= k < 256 ==> children@[k] == cs0[k],
                forall|j: u64|
                    j < 256 ==> (#[trigger] cs0[j as int]).keys() == routed(bk, shift, 0xff, j),
                1 <= level <= 8,
                shift == shift_for_level(level as int),
                all_agree_at(bk, level as int),
                olen == output@.len(),
                output@.len() == old(output)@.len(),
                pos0 + bk.len() <= olen,
                pos0 <= cur,
                cur - pos0 == routed_msets_below(bk, shift, 0xff, ix as int).len(),
                output@.subrange(0, pos0 as int) == old(output)@.subrange(0, pos0 as int),
                output@.subrange(pos0 as int, cur as int).to_multiset() == routed_msets_below(
                    bk,
                    shift,
                    0xff,
                    ix as int,
                ),
                sorted(output@.subrange(0, cur as int)),
                forall|p: int, q: int|
                    0 <= p < pos0 && 0 <= q < bk.len() ==> old(output)@[p] <= bk[q],
                forall|p: int, q: int|
                    pos0 <= p < cur && 0 <= q < bk.len() && bucket_of(bk[q], shift, 0xff) >= ix
                        ==> output@[p] <= bk[q],
                self.wf(),
                self.tree() == old(self).tree(),
                self.pool_outstanding() == outs - children_slices(cs0, ix as int),
        {
            let ghost outv = output@;
            let ghost curv = cur;
            let mut child = UnsplitBucket { slices: Vec::new() };
            core::mem::swap(&mut children[ix], &mut child);
            let ghost ck = child.keys();
            proof {
                assert(child == cs0[ix as int]);
                assert(ck == routed(bk, shift, 0xff, ix as u64));
                lemma_child_agreement(bk, level as int, ix as u64);
                lemma_routed_members(bk, shift, 0xff, ix as u64);
                // everything already emitted sits below this child's keys
                assert forall|p: int, q: int|
                    0 <= p < cur && 0 <= q < ck.len() implies output@[p] <= ck[q] by {
                    assert(bk.contains(ck[q]));
                    let w = choose|w: int| 0 <= w < bk.len() && bk[w] == ck[q];
                    assert(bucket_of(bk[w], shift, 0xff) == ix);
                    if p < pos0 {
                        assert(old(output)@[p] <= bk[w]);
                        assert(output@.subrange(0, pos0 as int)[p] == output@[p]);
                        assert(old(output)@.subrange(0, pos0 as int)[p] == old(output)@[p]);
                    }
                }
                // the child still fits in the space left for the bucket
                lemma_routed_partition(bk, shift);
                lemma_msets_below_len_monotone(bk, shift, 0xff, ix + 1, 256);
                assert(routed_msets_below(bk, shift, 0xff, ix + 1) == routed_msets_below(
                    bk,
                    shift,
                    0xff,
                    ix as int,
                ).add(ck.to_multiset()));
                assert(routed_msets_below(bk, shift, 0xff, 256).len() == bk.len());
                assert(cur + ck.len() <= pos0 + bk.len());
            }
            cur = self.sort_bucket(child, splitter, level + 1, output, cur);
            proof {
                // prefix preservation through the child
                assert(output@.subrange(0, pos0 as int) =~= outv.subrange(0, pos0 as int)) by {
                    assert forall|k: int|
                        0 <= k < pos0 implies output@.subrange(0, pos0 as int)[k] == outv.subrange(
                        0,
                        pos0 as int,
                    )[k] by {
                        assert(output@.subrange(0, curv as int)[k] == outv.subrange(
                            0,
                            curv as int,
                        )[k]);
                    }
                }
                // multiset bookkeeping
                let seg_old = output@.subrange(pos0 as int, curv as int);
                let seg_new = output@.subrange(curv as int, cur as int);
                assert(output@.subrange(pos0 as int, cur as int) =~= seg_old + seg_new);
                assert(seg_old =~= outv.subrange(pos0 as int, curv as int)) by {
                    assert forall|k: int| 0 <= k < curv - pos0 implies seg_old[k] == outv.subrange(
                        pos0 as int,
                        curv as int,
                    )[k] by {
                        assert(output@.subrange(0, curv as int)[pos0 + k] == outv.subrange(
                            0,
                            curv as int,
                        )[pos0 + k]);
                    }
                }
                vstd::seq_lib::lemma_multiset_commutative(seg_old, seg_new);
                // keys still to come stay above everything now emitted
                assert forall|p: int, q: int|
                    pos0 <= p < cur && 0 <= q < bk.len() && bucket_of(bk[q], shift, 0xff) >= ix + 1
                        implies output@[p] <= bk[q] by {
                    if p < curv {
                        assert(output@[p] == outv[p]) by {
                            assert(output@.subrange(0, curv as int)[p] == outv.subrange(
                                0,
                                curv as int,
                            )[p]);
                        }
                    } else {
                        assert(seg_new[p - curv] == output@[p]);
                        assert(seg_new.contains(output@[p]));
                        assert(ck.to_multiset().contains(output@[p]));
                        assert(ck.contains(output@[p]));
                        let w = choose|w: int| 0 <= w < ck.len() && ck[w] == output@[p];
                        lemma_digit_orders_keys(bk, level as int, ck[w], bk[q]);
                    }
                }
            }
            proof {
                assert(children_slices(cs0, ix + 1) == children_slices(cs0, ix as int)
                    + cs0[ix as int].slices@.len());
            }
        }
        proof {
            lemma_routed_partition(bk, shift);
            assert(cur - pos0 == bk.len());
            assert(self.pool_outstanding() == out0 - b.slices@.len());
        }
        cur
    }
}

impl Scheduler {
    /// Sort `input` into `output`, ascending by unsigned value. One pass
    /// scatters the input into 256 buckets on the top byte; each bucket is
    /// then emitted in ascending digit order. On return the output holds
    /// exactly the input's keys in ascending order, every slice taken from
    /// the pool has been returned to it, and the kept tree is fully
    /// sorted.
    pub fn split<S: Splitter>(
        &mut self,
        input: &Vec<u64>,
        output: &mut Vec<u64>,
        splitter: &mut S,
    )
        requires
            old(self).wf(),
            input@.len() % (SLICE_SIZE as nat) == 0,
            old(output)@.len() == input@.len(),
        ensures
            final(self).wf(),
            final(self).pool_outstanding() == old(self).pool_outstanding(),
            final(output)@.len() == input@.len(),
            sorted(final(output)@),
            final(output)@.to_multiset() == input@.to_multiset(),
            final(self).tree() is Some,
            bucket_unsplit(final(self).tree()->Some_0, 9) == Seq::<Seq<u64>>::empty(),
    {
        let ghost bk = input@;
        let mut dests = ActiveSlices::default();
        let mut l0 = SplittingBucket::default();
        proof {
            assert forall|j: u64| j < 256 implies load(l0, dests, j as int)
                =~= Seq::<u64>::empty() by {}
            assert(slots_below(l0, dests, 256) == 0) by {
                lemma_slots_below_zero(l0, dests, 256);
            }
        }
        let ghost out0 = self.pool_outstanding();
        splitter.split(input.as_slice(), 56, 0xff, &mut dests, &mut l0, self);
        proof {
            assert forall|j: u64| j < 256 implies load(l0, dests, j as int) == routed(
                bk,
                56,
                0xff,
                j,
            ) by {
                assert(Seq::<u64>::empty() + routed(bk, 56, 0xff, j) =~= routed(bk, 56, 0xff, j));
            }
        }
        let ghost l0b = l0;
        let ghost dest1 = dests;
        dests.complete(&mut l0);
        let ghost cs0 = l0.children@;
        let ghost outs = self.pool_outstanding();
        proof {
            assert forall|j: u64| j < 256 implies (#[trigger] cs0[j as int]).keys() == routed(
                bk,
                56,
                0xff,
                j,
            ) by {
                assert(cs0[j as int].keys() == load(l0b, dest1, j as int));
            }
            lemma_children_slices_match(cs0, l0b, dest1, 256);
            assert(outs == out0 + children_slices(cs0, 256));
            assert(all_agree_at(bk, 1)) by {
                assert forall|p: int, q: int|
                    0 <= p < bk.len() && 0 <= q < bk.len() implies agree_at(
                    #[trigger] bk[p],
                    #[trigger] bk[q],
                    1,
                ) by {
                    lemma_agree_at_top(bk[p], bk[q]);
                }
            }
            assert(shift_for_level(1) == 56);
            assert(routed_msets_below(bk, 56, 0xff, 0) == Multiset::<u64>::empty());
            assert(output@.subrange(0, 0) =~= Seq::<u64>::empty());
            assert(Seq::<u64>::empty().to_multiset() =~= Multiset::<u64>::empty());
        }
        let mut children = l0.children;
        let olen = output.len();
        let mut out_ix: usize = 0;
        let mut done: Vec<Bucket> = Vec::new();
        for ix in 0..NUM_BUCKETS
            invariant
                children@.len() == 256,
                cs0.len() == 256,
                forall|k: int| ix <= k < 256 ==> children@[k] == cs0[k],
                forall|j: u64|
                    j < 256 ==> (#[trigger] cs0[j as int]).keys() == routed(bk, 56, 0xff, j),
                all_agree_at(bk, 1),
                bk == input@,
                olen == output@.len(),
                output@.len() == old(output)@.len(),
                bk.len() <= olen,
                out_ix <= olen,
                out_ix == routed_msets_below(bk, 56, 0xff, ix as int).len(),
                output@.subrange(0, out_ix as int).to_multiset() == routed_msets_below(
                    bk,
                    56,
                    0xff,
                    ix as int,
                ),
                sorted(output@.subrange(0, out_ix as int)),
                forall|p: int, q: int|
                    0 <= p < out_ix && 0 <= q < bk.len() && bucket_of(bk[q], 56, 0xff) >= ix
                        ==> output@[p] <= bk[q],
                self.wf(),
                self.tree() == old(self).tree(),
                self.pool_outstanding() == outs - children_slices(cs0, ix as int),
                done@.len() == ix,
                forall|k: int| 0 <= k < ix ==> (#[trigger] done@[k]) is Sorted,
        {
            let ghost outv = output@;
            let ghost curv = out_ix;
            let mut child = UnsplitBucket { slices: Vec::new() };
            core::mem::swap(&mut children[ix], &mut child);
            let ghost ck = child.keys();
            proof {
                assert(child == cs0[ix as int]);
                assert(ck == routed(bk, 56, 0xff, ix as u64));
                lemma_child_agreement(bk, 1, ix as u64);
                lemma_routed_members(bk, 56, 0xff, ix as u64);
                assert forall|p: int, q: int|
                    0 <= p < out_ix && 0 <= q < ck.len() implies output@[p] <= ck[q] by {
                    assert(bk.contains(ck[q]));
                    let w = choose|w: int| 0 <= w < bk.len() && bk[w] == ck[q];
                    assert(bucket_of(bk[w], 56, 0xff) == ix);
                }
                lemma_routed_partition(bk, 56);
                lemma_msets_below_len_monotone(bk, 56, 0xff, ix + 1, 256);
                assert(routed_msets_below(bk, 56, 0xff, ix + 1) == routed_msets_below(
                    bk,
                    56,
                    0xff,
                    ix as int,
                ).add(ck.to_multiset()));
                assert(routed_msets_below(bk, 56, 0xff, 256).len() == bk.len());
                assert(out_ix + ck.len() <= bk.len());
                assert(sorted(output@.subrange(0, out_ix as int)));
            }
            out_ix = self.sort_bucket(child, splitter, 1, output, out_ix);
            done.push(Bucket::Sorted);
            proof {
                let seg_old = output@.subrange(0, curv as int);
                let seg_new = output@.subrange(curv as int, out_ix as int);
                assert(seg_old =~= outv.subrange(0, curv as int));
                assert(output@.subrange(0, out_ix as int) =~= seg_old + seg_new);
                vstd::seq_lib::lemma_multiset_commutative(seg_old, seg_new);
                assert forall|p: int, q: int|
                    0 <= p < out_ix && 0 <= q < bk.len() && bucket_of(bk[q], 56, 0xff) >= ix + 1
                        implies output@[p] <= bk[q] by {
                    if p < curv {
                        assert(output@[p] == outv[p]) by {
                            assert(output@.subrange(0, curv as int)[p] == outv.subrange(
                                0,
                                curv as int,
                            )[p]);
                        }
                    } else {
                        assert(seg_new[p - curv] == output@[p]);
                        assert(seg_new.contains(output@[p]));
                        assert(ck.to_multiset().contains(output@[p]));
                        assert(ck.contains(output@[p]));
                        let w = choose|w: int| 0 <= w < ck.len() && ck[w] == output@[p];
                        lemma_digit_orders_keys(bk, 1, ck[w], bk[q]);
                    }
                }
                assert(children_slices(cs0, ix + 1) == children_slices(cs0, ix as int)
                    + cs0[ix as int].slices@.len());
            }
        }
        proof {
            lemma_routed_partition(bk, 56);
            assert(out_ix == bk.len());
            assert(output@.subrange(0, out_ix as int) =~= output@);
        }
        self.top_level = Some(Bucket::Split(SplitBucket { children: done }));
        proof {
            let t = self.tree()->Some_0;
            lemma_children_wf_all_sorted(t->Split_0.children@, 256, 8);
            assert(bucket_wf(t, 9));
            lemma_children_unsplit_all_sorted(t->Split_0.children@, 256, 8);
            assert(bucket_unsplit(t, 9) =~= Seq::<Seq<u64>>::empty());
        }
    }
}

impl Scheduler {
    /// Take the kept tree apart and hand back the slices still sitting in
    /// its `Unsplit` leaves, in traversal order: the bucketed form of the
    /// keys for a consumer that wants them without the copy into an output
    /// buffer. After a full sort there are none. The scheduler keeps no
    /// tree afterwards.
    pub fn get_splits(&mut self) -> (res: Vec<Vec<u64>>)
        requires
            old(self).wf(),
        ensures
            final(self).wf(),
            final(self).tree() is None,
            final(self).pool_outstanding() == old(self).pool_outstanding(),
            seqs_of(res@) == match old(self).tree() {
                Option::Some(t) => bucket_unsplit(t, 9),
                Option::None => Seq::<Seq<u64>>::empty(),
            },
    {
        let mut top: Option<Bucket> = None;
        core::mem::swap(&mut self.top_level, &mut top);
        let mut res: Vec<Vec<u64>> = Vec::new();
        match top {
            Option::None => {
                proof {
                    assert(seqs_of(res@) =~= Seq::<Seq<u64>>::empty());
                }
            },
            Option::Some(b) => {
                let ghost res0 = res@;
                collect_unsplit(b, &mut res, Ghost(9nat as nat));
                proof {
                    assert(seqs_of(res0) =~= Seq::<Seq<u64>>::empty());
                    assert(Seq::<Seq<u64>>::empty() + bucket_unsplit(b, 9) =~= bucket_unsplit(
                        b,
                        9,
                    ));
                }
            },
        }
        res
    }
}

/// Walk a node depth-first and append the slices of its `Unsplit` leaves.
fn collect_unsplit(b: Bucket, res: &mut Vec<Vec<u64>>, Ghost(fuel): Ghost<nat>)
    requires
        bucket_wf(b, fuel),
    ensures
        seqs_of(final(res)@) == seqs_of(old(res)@) + bucket_unsplit(b, fuel),
    decreases fuel,
{
    let ghost res0 = res@;
    match b {
        Bucket::Sorted => {
            proof {
                assert(seqs_of(res@) + bucket_unsplit(b, fuel) =~= seqs_of(res@));
            }
        },
        Bucket::Unsplit(u) => {
            let mut s = u.slices;
            let ghost sv = s@;
            res.append(&mut s);
            proof {
                assert(seqs_of(res@) =~= seqs_of(res0) + seqs_of(sv));
            }
        },
        Bucket::Split(sb) => {
            let mut cs = sb.children;
            let ghost cs0 = cs@;
            let ghost f1 = (fuel - 1) as nat;
            proof {
                assert(fuel > 0);
                assert(children_wf(cs0, 256, f1));
                assert(children_unsplit(cs0, 0, f1) =~= Seq::<Seq<u64>>::empty());
                assert(seqs_of(res@) =~= seqs_of(res0) + children_unsplit(cs0, 0, f1));
            }
            for ix in 0..NUM_BUCKETS
                invariant
                    cs@.len() == 256,
                    cs0.len() == 256,
                    f1 == fuel - 1,
                    fuel > 0,
                    forall|k: int| ix <= k < 256 ==> cs@[k] == cs0[k],
                    children_wf(cs0, 256, f1),
                    seqs_of(res@) == seqs_of(res0) + children_unsplit(cs0, ix as int, f1),
            {
                let mut child = Bucket::Sorted;
                core::mem::swap(&mut cs[ix], &mut child);
                proof {
                    assert(child == cs0[ix as int]);
                    lemma_children_wf_index(cs0, 256, f1, ix as int);
                }
                let ghost res_in = res@;
                collect_unsplit(child, res, Ghost(f1));
                proof {
                    assert(seqs_of(res@) =~= seqs_of(res0) + children_unsplit(
                        cs0,
                        ix + 1,
                        f1,
                    )) by {
                        assert(seqs_of(res@) == seqs_of(res_in) + bucket_unsplit(
                            cs0[ix as int],
                            f1,
                        ));
                        assert((seqs_of(res0) + children_unsplit(cs0, ix as int, f1))
                            + bucket_unsplit(cs0[ix as int], f1) =~= seqs_of(res0) + (
                        children_unsplit(cs0, ix as int, f1) + bucket_unsplit(
                            cs0[ix as int],
                            f1,
                        )));
                    }
                }
            }
            proof {
                assert(bucket_unsplit(b, fuel) == children_unsplit(cs0, 256, f1));
            }
        },
    }
}

/// Partial key totals of a pass never exceed later ones.
proof fn lemma_loads_total_monotone(sb: SplittingBucket, act: ActiveSlices, a: int, b: int)
    requires
        a <= b,
    ensures
        loads_total(sb, act, a) <= loads_total(sb, act, b),
    decreases b - a,
{
    if a < b {
        lemma_loads_total_monotone(sb, act, a, b - 1);
    }
}

} // verus!
