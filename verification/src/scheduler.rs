//! Bounded batch scheduling: picking the next backward batch target
//! while skipping already-covered ranges, and throughput counters.

use vstd::prelude::*;

use crate::span::{spans_wf, Span};

verus! {

/// Figure out the next block to batch index, skipping a span if the
/// candidate has reached it: a candidate inside a historical span jumps
/// to the block just below that span.  Returns true ("halted") when the
/// jump would leave the first block, i.e. the covering span starts at
/// block zero and nothing below it remains to index.
pub fn check_next_batch_block(spans: &Vec<Span>, next_batch_block: &mut u32) -> (halted: bool)
    requires
        spans_wf(spans@),
    ensures
        !halted ==> forall|i: int|
            0 <= i < spans@.len() ==> !(#[trigger] spans@[i]).spec_contains(
                *final(next_batch_block),
            ),
        !halted && (forall|i: int|
            0 <= i < spans@.len() ==> !(#[trigger] spans@[i]).spec_contains(
                *old(next_batch_block),
            )) ==> *final(next_batch_block) == *old(next_batch_block),
        !halted ==> forall|i: int|
            0 <= i < spans@.len() && (#[trigger] spans@[i]).spec_contains(*old(next_batch_block))
                ==> *final(next_batch_block) == spans@[i].start - 1,
        halted <==> exists|i: int|
            0 <= i < spans@.len() && (#[trigger] spans@[i]).spec_contains(*old(next_batch_block))
                && spans@[i].start == 0,
        halted ==> *final(next_batch_block) == *old(next_batch_block),
{
    let ghost orig = *old(next_batch_block);
    let mut i: usize = spans.len();
    while i != 0
        invariant
            orig == *old(next_batch_block),
            spans_wf(spans@),
            i <= spans@.len(),
            forall|j: int|
                i <= j < spans@.len() ==> !(#[trigger] spans@[j]).spec_contains(*next_batch_block),
            (*next_batch_block == orig && (forall|j: int|
                i <= j < spans@.len() ==> !(#[trigger] spans@[j]).spec_contains(orig))) || (
            exists|j: int|
                0 <= j < spans@.len() && (#[trigger] spans@[j]).spec_contains(orig)
                    && spans@[j].start > 0 && *next_batch_block == spans@[j].start - 1),
        decreases i,
    {
        i = i - 1;
        if *next_batch_block >= spans[i].start && *next_batch_block <= spans[i].end {
            proof {
                assert(*next_batch_block == orig) by {
                    if *next_batch_block != orig {
                        let j = choose|j: int|
                            0 <= j < spans@.len() && (#[trigger] spans@[j]).spec_contains(orig)
                                && spans@[j].start > 0 && *next_batch_block == spans@[j].start - 1;
                        if j < i {
                            assert(spans@[j].end + 1 < spans@[i as int].start);
                        }
                        if j > i {
                            assert(spans@[i as int].end + 1 < spans@[j].start);
                        }
                    }
                }
            }
            if spans[i].start == 0 {
                proof {
                    assert(spans@[i as int].spec_contains(orig) && spans@[i as int].start == 0);
                    assert(exists|j: int|
                        0 <= j < spans@.len() && (#[trigger] spans@[j]).spec_contains(orig)
                            && spans@[j].start == 0);
                }
                return true;
            }
            *next_batch_block = spans[i].start - 1;
            proof {
                assert forall|j: int| i <= j < spans@.len() implies !(
                #[trigger] spans@[j]).spec_contains(*next_batch_block) by {
                    if j > i {
                        assert(spans@[i as int].end + 1 < spans@[j].start);
                    }
                }
            }
        }
    }
    proof {
        if exists|j: int|
            0 <= j < spans@.len() && (#[trigger] spans@[j]).spec_contains(orig) && spans@[j].start
                == 0 {
            let j = choose|j: int|
                0 <= j < spans@.len() && (#[trigger] spans@[j]).spec_contains(orig)
                    && spans@[j].start == 0;
            assert(!spans@[j].spec_contains(*next_batch_block));
            if *next_batch_block != orig {
                let j2 = choose|j2: int|
                    0 <= j2 < spans@.len() && (#[trigger] spans@[j2]).spec_contains(orig)
                        && spans@[j2].start > 0 && *next_batch_block == spans@[j2].start - 1;
                if j < j2 {
                    assert(spans@[j].end + 1 < spans@[j2].start);
                }
                if j2 < j {
                    assert(spans@[j2].end + 1 < spans@[j].start);
                }
            }
        }
    }
    false
}

/// Dispatch bookkeeping for backward batch indexing: the next candidate
/// block and whether batch indexing is still running.  Batch indexing
/// halts for the rest of the process lifetime on any batch failure
/// (fail-stop), and when the backward walk reaches the first block.
pub struct BatchScheduler {
    /// The next candidate block, counting down one per dispatch.
    pub next_batch_block: u32,
    /// Whether batch dispatch is still active.
    pub is_batching: bool,
}

impl BatchScheduler {
    /// Start the scheduler at the first batch target, if there is one.
    pub fn new(first: Option<u32>) -> (r: BatchScheduler)
        ensures
            r.is_batching <==> first is Some,
            first matches Some(b) ==> r.next_batch_block == b,
    {
        match first {
            Some(b) => BatchScheduler { next_batch_block: b, is_batching: true },
            None => BatchScheduler { next_batch_block: 0, is_batching: false },
        }
    }

    /// Pick the block for the next batch dispatch and step the
    /// candidate down by one.  Returns nothing once batching has
    /// halted, and halts batching when the walk reaches block zero.
    /// The returned block never lies inside a persisted span.
    pub fn next_dispatch(&mut self, spans: &Vec<Span>) -> (r: Option<u32>)
        requires
            spans_wf(spans@),
        ensures
            r matches Some(t) ==> {
                &&& old(self).is_batching
                &&& forall|i: int|
                    0 <= i < spans@.len() ==> !(#[trigger] spans@[i]).spec_contains(t)
                &&& ((forall|i: int|
                    0 <= i < spans@.len() ==> !(#[trigger] spans@[i]).spec_contains(
                        old(self).next_batch_block,
                    )) ==> t == old(self).next_batch_block)
                &&& (forall|i: int|
                    0 <= i < spans@.len() && (#[trigger] spans@[i]).spec_contains(
                        old(self).next_batch_block,
                    ) ==> t == spans@[i].start - 1)
                &&& final(self).is_batching == (t > 0)
                &&& (t > 0 ==> final(self).next_batch_block == t - 1)
                &&& (t == 0 ==> final(self).next_batch_block == t)
            },
            r is None ==> final(self).next_batch_block == old(self).next_batch_block && (!old(
                self,
            ).is_batching || exists|i: int|
                0 <= i < spans@.len() && (#[trigger] spans@[i]).spec_contains(
                    old(self).next_batch_block,
                ) && spans@[i].start == 0),
            r is None ==> !final(self).is_batching,
    {
        if !self.is_batching {
            return None;
        }
        let halted = check_next_batch_block(spans, &mut self.next_batch_block);
        if halted {
            self.is_batching = false;
            return None;
        }
        let t = self.next_batch_block;
        if t > 0 {
            self.next_batch_block = t - 1;
        } else {
            self.is_batching = false;
        }
        Some(t)
    }

    /// Fail-stop: a batch failure halts further batch dispatch for the
    /// remainder of the process lifetime.
    pub fn halt(&mut self)
        ensures
            !final(self).is_batching,
            final(self).next_batch_block == old(self).next_batch_block,
    {
        self.is_batching = false;
    }
}

/// Throughput counters for the periodic stats report.
pub struct Stats {
    pub block_count: u64,
    pub event_count: u64,
    pub key_count: u64,
}

impl Stats {
    /// Fresh counters.
    pub fn new() -> (r: Stats)
        ensures
            r.block_count == 0 && r.event_count == 0 && r.key_count == 0,
    {
        Stats { block_count: 0, event_count: 0, key_count: 0 }
    }

    /// Count one indexed block and its extrinsics and keys.
    pub fn record(&mut self, event_count: u32, key_count: u32)
        requires
            old(self).block_count + 1 <= u64::MAX,
            old(self).event_count + event_count <= u64::MAX,
            old(self).key_count + key_count <= u64::MAX,
        ensures
            final(self).block_count == old(self).block_count + 1,
            final(self).event_count == old(self).event_count + event_count,
            final(self).key_count == old(self).key_count + key_count,
    {
        self.block_count = self.block_count + 1;
        self.event_count = self.event_count + event_count as u64;
        self.key_count = self.key_count + key_count as u64;
    }

    /// Reset the counters at the start of a new sampling interval.
    pub fn reset(&mut self)
        ensures
            final(self).block_count == 0 && final(self).event_count == 0 && final(self).key_count
                == 0,
    {
        self.block_count = 0;
        self.event_count = 0;
        self.key_count = 0;
    }
}

/// A per-second rate over a sampling interval: count per microseconds,
/// scaled to one second.
pub fn rate_per_second(count: u64, duration_micros: u128) -> (r: u128)
    requires
        duration_micros > 0,
    ensures
        r == count * 1000000 / (duration_micros as int),
{
    (count as u128) * 1000000 / duration_micros
}

} // verus!
