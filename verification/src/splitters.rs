//! The scalar splitter: the required single-threaded implementation of the
//! splitter capability set.

use crate::digits::{lemma_digit_bound, lemma_routed_push, routed};
use crate::scheduler::{
    load, lemma_slots_below_update, slot_count, slots_below, ActiveSlices, Scheduler, Splitter,
    SplittingBucket,
};
use crate::sort_small::sort_into;
use vstd::prelude::*;

verus! {

#[derive(Default)]
pub struct ScalarSplitter;

impl Splitter for ScalarSplitter {
    fn split(
        &mut self,
        input: &[u64],
        shift: u64,
        mask: u64,
        output: &mut ActiveSlices,
        bucket: &mut SplittingBucket,
        sched: &mut Scheduler,
    ) {
        let n = input.len();
        proof {
            assert forall|j: u64| j < 256 implies load(*bucket, *output, j as int) == load(
                *old(bucket),
                *old(output),
                j as int,
            ) + routed(input@.subrange(0, 0), shift, mask, j) by {
                assert(input@.subrange(0, 0) =~= Seq::<u64>::empty());
                assert(load(*bucket, *output, j as int) + Seq::<u64>::empty() =~= load(
                    *bucket,
                    *output,
                    j as int,
                ));
            }
        }
        for i in 0..n
            invariant
                n == input@.len(),
                shift <= 56,
                mask == 0xff,
                output.wf(),
                bucket.wf_open(),
                sched.wf(),
                sched.tree() == old(sched).tree(),
                forall|j: u64|
                    j < 256 ==> load(*bucket, *output, j as int) == load(
                        *old(bucket),
                        *old(output),
                        j as int,
                    ) + routed(input@.subrange(0, i as int), shift, mask, j),
                sched.pool_outstanding() - old(sched).pool_outstanding() == slots_below(
                    *bucket,
                    *output,
                    256,
                ) - slots_below(*old(bucket), *old(output), 256),
        {
            let key = input[i];
            let ix = ((key >> shift) & mask) as usize;
            proof {
                lemma_digit_bound(key, shift);
            }
            let ghost out_in = *output;
            let ghost bkt_in = *bucket;
            output.insert_element(bucket, sched, key, ix);
            proof {
                assert(input@.subrange(0, i + 1) =~= input@.subrange(0, i as int).push(key));
                assert forall|j: u64| j < 256 implies load(*bucket, *output, j as int) == load(
                    *old(bucket),
                    *old(output),
                    j as int,
                ) + routed(input@.subrange(0, i + 1), shift, mask, j) by {
                    lemma_routed_push(input@.subrange(0, i as int), shift, mask, key, j);
                    assert(load(bkt_in, out_in, j as int) == load(
                        *old(bucket),
                        *old(output),
                        j as int,
                    ) + routed(input@.subrange(0, i as int), shift, mask, j));
                    if j == ix as u64 {
                        assert(load(*bucket, *output, j as int) == load(
                            bkt_in,
                            out_in,
                            j as int,
                        ).push(key));
                        assert((load(*old(bucket), *old(output), j as int) + routed(
                            input@.subrange(0, i as int),
                            shift,
                            mask,
                            j,
                        )).push(key) =~= load(*old(bucket), *old(output), j as int) + routed(
                            input@.subrange(0, i as int),
                            shift,
                            mask,
                            j,
                        ).push(key));
                    } else {
                        assert(output.cursor_keys(j as int) == out_in.cursor_keys(j as int));
                        assert(bucket.children@[j as int] == bkt_in.children@[j as int]);
                        assert(load(*bucket, *output, j as int) == load(bkt_in, out_in, j as int));
                    }
                }
                assert forall|j: int|
                    0 <= j < 256 && j != ix implies slot_count(*bucket, *output, j) == slot_count(
                    bkt_in,
                    out_in,
                    j,
                ) by {
                    assert(output.cursor_keys(j) == out_in.cursor_keys(j));
                    assert(output.occupied(j) <==> out_in.occupied(j));
                    assert(bucket.children@[j] == bkt_in.children@[j]);
                }
                lemma_slots_below_update(bkt_in, out_in, *bucket, *output, ix as int, 256);
            }
        }
        proof {
            assert(input@.subrange(0, n as int) =~= input@);
        }
    }

    fn split_small(&mut self, input: &[u64], output: &mut Vec<u64>, start: usize) {
        sort_into(input, output, start);
    }
}

} // verus!
