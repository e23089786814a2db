//! Planning one fetch pass over a chain.
//!
//! The computing half of the fetcher: where to start scanning, how to cut
//! the block range into chunks, how the retry schedule runs, and how the
//! covered window is read off the finished chunks. Issuing the requests
//! and waiting on them happens outside.

use vstd::prelude::*;

verus! {

/// Where a scan looks back to: within 2000 blocks of the head the scan
/// re-reads a full 2000-block window to absorb shallow reorgs; far behind
/// it resumes at the high-water mark.
pub open spec fn spec_look_back(last_processed: u64, head: u64) -> u64 {
    if head <= last_processed + 2000 {
        if last_processed >= 2000 {
            (last_processed - 2000) as u64
        } else {
            0
        }
    } else {
        last_processed
    }
}

pub fn look_back_start(last_processed: u64, head: u64) -> (r: u64)
    ensures
        r == spec_look_back(last_processed, head),
{
    if head as u128 <= last_processed as u128 + 2000 {
        if last_processed >= 2000 {
            last_processed - 2000
        } else {
            0
        }
    } else {
        last_processed
    }
}

/// The first block a scan covers: the look-back start, but never before
/// the earliest configured start block.
pub fn plan_scan_start(last_processed: u64, head: u64, earliest_start: u64) -> (r: u64)
    ensures
        r == if spec_look_back(last_processed, head) >= earliest_start {
            spec_look_back(last_processed, head)
        } else {
            earliest_start
        },
{
    let lb = look_back_start(last_processed, head);
    if lb >= earliest_start {
        lb
    } else {
        earliest_start
    }
}

/// Cut `[start, head)` into chunks of `chunk_size` blocks: chunk `i`
/// starts at `start + i * chunk_size` and runs to the block before the
/// next one, clipped at `head`.
pub fn chunk_ranges(start: u64, head: u64, chunk_size: u64) -> (r: Vec<(u64, u64)>)
    requires
        chunk_size >= 1,
        head < 0x8000000000000000,
        start < 0x8000000000000000,
        chunk_size < 0x8000000000000000,
    ensures
        forall|i: int|
            0 <= i < r@.len() ==> (#[trigger] r@[i]).0 == start + i * chunk_size && r@[i].1 == {
                let e = start + i * chunk_size + (chunk_size - 1);
                if e > head {
                    head
                } else {
                    e as u64
                }
            },
        head <= start ==> r@.len() == 0,
        head > start ==> r@.len() >= 1 && start + (r@.len() - 1) * chunk_size < head <= start
            + r@.len() * chunk_size,
{
    let mut r: Vec<(u64, u64)> = Vec::new();
    let mut s: u64 = start;
    proof {
        assert(r@.len() == 0);
        assert(0int * chunk_size == 0) by (nonlinear_arith);
    }
    while s < head
        invariant
            chunk_size >= 1,
            head < 0x8000000000000000,
            start < 0x8000000000000000,
            chunk_size < 0x8000000000000000,
            s == start + r@.len() * chunk_size,
            s <= head || r@.len() == 0 || s < head + chunk_size,
            r@.len() > 0 ==> start + (r@.len() - 1) * chunk_size < head,
            forall|i: int|
                0 <= i < r@.len() ==> (#[trigger] r@[i]).0 == start + i * chunk_size && r@[i].1
                    == {
                    let e = start + i * chunk_size + (chunk_size - 1);
                    if e > head {
                        head
                    } else {
                        e as u64
                    }
                },
            s < 0x8000000000000000 + 0x8000000000000000,
            s == start || s <= head + chunk_size,
        decreases head + chunk_size - s,
    {
        let last = if head - s >= chunk_size {
            s + (chunk_size - 1)
        } else {
            head
        };
        proof {
            assert((r@.len() + 1) * chunk_size == r@.len() * chunk_size + chunk_size)
                by (nonlinear_arith);
        }
        r.push((s, last));
        s = s + chunk_size;
    }
    proof {
        if head > start {
            assert(r@.len() >= 1) by {
                if r@.len() == 0 {
                    assert(s == start);
                }
            }
        }
    }
    r
}

/// The retry schedule: up to five attempts, starting at a two-second
/// pause and doubling after each failure.
pub struct RetryPolicy {
    pub attempts: u32,
    pub delay_ms: u64,
}

pub open spec fn pow2_u64(e: nat) -> nat
    decreases e,
{
    if e == 0 {
        1
    } else {
        2 * pow2_u64((e - 1) as nat)
    }
}

impl RetryPolicy {
    /// The schedule keeps its delay locked to its attempt count.
    pub open spec fn wf(self) -> bool {
        &&& self.attempts <= 5
        &&& self.delay_ms == 2000 * pow2_u64(self.attempts as nat)
    }

    /// A fresh schedule: no attempts yet, two seconds to the first retry.
    pub fn new() -> (r: RetryPolicy)
        ensures
            r.wf(),
            r.attempts == 0,
            r.delay_ms == 2000,
    {
        RetryPolicy { attempts: 0, delay_ms: 2000 }
    }

    /// After a failure: how long to pause and the schedule to continue
    /// with, or `None` once five attempts are spent.
    pub fn next_retry(&self) -> (r: Option<(u64, RetryPolicy)>)
        requires
            self.wf(),
        ensures
            match r {
                Some(p) => self.attempts < 5 && p.0 == self.delay_ms && p.1.wf()
                    && p.1.attempts == self.attempts + 1 && p.1.delay_ms == 2 * self.delay_ms,
                None => self.attempts >= 5,
            },
    {
        if self.attempts >= 5 {
            None
        } else {
            proof {
                assert(pow2_u64(0) == 1);
                assert(pow2_u64(1) == 2);
                assert(pow2_u64(2) == 4);
                assert(pow2_u64(3) == 8);
                assert(pow2_u64(4) == 16);
                assert(pow2_u64(5) == 32);
            }
            let next = RetryPolicy { attempts: self.attempts + 1, delay_ms: self.delay_ms * 2 };
            Some((self.delay_ms, next))
        }
    }
}

/// The smallest chunk start among finished ranges; `u64::MAX` with none.
pub open spec fn min_from(ranges: Seq<(u64, u64)>) -> u64
    decreases ranges.len(),
{
    if ranges.len() == 0 {
        u64::MAX
    } else {
        let m = min_from(ranges.drop_last());
        if ranges.last().0 < m {
            ranges.last().0
        } else {
            m
        }
    }
}

/// The largest chunk end among finished ranges; zero with none.
pub open spec fn max_to(ranges: Seq<(u64, u64)>) -> u64
    decreases ranges.len(),
{
    if ranges.len() == 0 {
        0
    } else {
        let m = max_to(ranges.drop_last());
        if ranges.last().1 > m {
            ranges.last().1
        } else {
            m
        }
    }
}

/// The window that a set of finished chunks covers, whatever order they
/// finished in.
pub fn merge_ranges(ranges: &Vec<(u64, u64)>) -> (r: (u64, u64))
    ensures
        r.0 == min_from(ranges@),
        r.1 == max_to(ranges@),
{
    let mut from: u64 = u64::MAX;
    let mut to: u64 = 0;
    let mut i: usize = 0;
    while i < ranges.len()
        invariant
            i <= ranges@.len(),
            from == min_from(ranges@.take(i as int)),
            to == max_to(ranges@.take(i as int)),
        decreases ranges@.len() - i,
    {
        proof {
            assert(ranges@.take(i as int + 1).drop_last() =~= ranges@.take(i as int));
            assert(ranges@.take(i as int + 1).last() == ranges@[i as int]);
        }
        let (f, t) = ranges[i];
        if f < from {
            from = f;
        }
        if t > to {
            to = t;
        }
        i += 1;
    }
    proof {
        assert(ranges@.take(ranges@.len() as int) =~= ranges@);
    }
    (from, to)
}

} // verus!
