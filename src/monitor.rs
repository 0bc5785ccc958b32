//! Throughput statistics over a shared hash counter.
//!
//! Times are whole milliseconds and rates whole hashes per second. Each
//! sample's rate enters a bounded window, and the reported rate is the
//! window's mean.

use vstd::prelude::*;

verus! {

/// How many recent rates the window keeps by default.
pub const MAX_RATES_BUFFER: usize = 10;

/// The default sampling interval, in milliseconds.
pub const STATS_INTERVAL_MS: u64 = 2000;

/// Sum of the entries of `s`.
pub open spec fn seq_sum(s: Seq<u64>) -> nat
    decreases s.len(),
{
    if s.len() == 0 {
        0
    } else {
        seq_sum(s.drop_last()) + s.last() as nat
    }
}

/// Arithmetic mean of `s`, rounded down; zero for an empty window.
pub open spec fn mean(s: Seq<u64>) -> nat {
    if s.len() == 0 {
        0
    } else {
        seq_sum(s) / s.len()
    }
}

/// `s` with `r` appended, dropping the oldest entry past `cap` entries.
pub open spec fn push_window(s: Seq<u64>, r: u64, cap: nat) -> Seq<u64> {
    if s.len() + 1 > cap {
        s.push(r).skip(1)
    } else {
        s.push(r)
    }
}

/// The window after `n` samples that all have rate `r`.
pub open spec fn push_repeated(s: Seq<u64>, r: u64, cap: nat, n: nat) -> Seq<u64>
    decreases n,
{
    if n == 0 {
        s
    } else {
        push_window(push_repeated(s, r, cap, (n - 1) as nat), r, cap)
    }
}

/// Hashes per second for `delta` hashes in `elapsed_ms` milliseconds,
/// saturating at `u64::MAX`.
pub open spec fn rate_of(delta: nat, elapsed_ms: nat) -> nat {
    let r = delta * 1000 / elapsed_ms;
    if r > u64::MAX {
        u64::MAX as nat
    } else {
        r
    }
}

proof fn lemma_sum_bound(s: Seq<u64>)
    ensures
        seq_sum(s) <= s.len() * (u64::MAX as nat),
    decreases s.len(),
{
    if s.len() > 0 {
        lemma_sum_bound(s.drop_last());
        assert(seq_sum(s.drop_last()) + s.last() as nat <= (s.len() - 1) * (u64::MAX as nat)
            + u64::MAX as nat);
        assert((s.len() - 1) * (u64::MAX as nat) + u64::MAX as nat == s.len() * (u64::MAX as nat))
            by (nonlinear_arith);
    }
}

proof fn lemma_sum_constant(s: Seq<u64>, r: u64)
    requires
        forall|i: int| 0 <= i < s.len() ==> s[i] == r,
    ensures
        seq_sum(s) == s.len() * (r as nat),
    decreases s.len(),
{
    if s.len() > 0 {
        lemma_sum_constant(s.drop_last(), r);
        assert(s.last() == r);
        assert((s.len() - 1) * (r as nat) + r as nat == s.len() * (r as nat)) by (nonlinear_arith);
    }
}

proof fn lemma_repeated_shape(s: Seq<u64>, r: u64, cap: nat, n: nat)
    requires
        cap >= 1,
        s.len() <= cap,
    ensures
        push_repeated(s, r, cap, n).len() == if s.len() + n > cap {
            cap
        } else {
            s.len() + n
        },
        forall|i: int|
            0 <= i < push_repeated(s, r, cap, n).len() && i >= push_repeated(s, r, cap, n).len()
                - n ==> #[trigger] push_repeated(s, r, cap, n)[i] == r,
    decreases n,
{
    if n > 0 {
        lemma_repeated_shape(s, r, cap, (n - 1) as nat);
    }
}

/// Smoothing converges: once the window has taken `cap` samples of one rate
/// `r`, whatever it held before, the reported mean is exactly `r`.
pub proof fn lemma_smoothing_converges(s: Seq<u64>, r: u64, cap: nat, n: nat)
    requires
        cap >= 1,
        s.len() <= cap,
        n >= cap,
    ensures
        mean(push_repeated(s, r, cap, n)) == r,
{
    let w = push_repeated(s, r, cap, n);
    lemma_repeated_shape(s, r, cap, n);
    assert(w.len() == cap);
    assert forall|i: int| 0 <= i < w.len() implies w[i] == r by {
        assert(i >= w.len() - n);
    }
    lemma_sum_constant(w, r);
    assert((cap * (r as nat)) / cap == r) by (nonlinear_arith)
        requires
            cap >= 1,
    ;
}

/// Hash counting and rate sampling for a search.
pub struct MiningStats {
    pub debug_mode: bool,
    pub start_ms: u64,
    pub hash_count: u64,
    pub last_hash_count: u64,
    pub last_update_ms: u64,
    pub interval_ms: u64,
    pub capacity: usize,
    pub rates: Vec<u64>,
}

impl MiningStats {
    pub open spec fn wf(&self) -> bool {
        1 <= self.capacity && self.rates@.len() <= self.capacity
    }

    /// Statistics started at `now_ms`, with the default interval and window.
    pub fn new(debug_mode: bool, now_ms: u64) -> (r: MiningStats)
        ensures
            r.wf(),
            r.debug_mode == debug_mode,
            r.start_ms == now_ms,
            r.last_update_ms == now_ms,
            r.hash_count == 0,
            r.last_hash_count == 0,
            r.interval_ms == STATS_INTERVAL_MS,
            r.capacity == MAX_RATES_BUFFER,
            r.rates@.len() == 0,
    {
        MiningStats {
            debug_mode,
            start_ms: now_ms,
            hash_count: 0,
            last_hash_count: 0,
            last_update_ms: now_ms,
            interval_ms: STATS_INTERVAL_MS,
            capacity: MAX_RATES_BUFFER,
            rates: Vec::new(),
        }
    }

    /// Adds `increment` hashes to the counter, saturating at `u64::MAX`.
    pub fn update_hash_count(&mut self, increment: u64)
        ensures
            final(self).hash_count == if old(self).hash_count + increment > u64::MAX {
                u64::MAX as int
            } else {
                old(self).hash_count + increment
            },
            final(self).last_hash_count == old(self).last_hash_count,
            final(self).last_update_ms == old(self).last_update_ms,
            final(self).start_ms == old(self).start_ms,
            final(self).interval_ms == old(self).interval_ms,
            final(self).capacity == old(self).capacity,
            final(self).rates@ == old(self).rates@,
    {
        self.hash_count = self.hash_count.saturating_add(increment);
    }

    /// Mean of the rates in the window.
    pub fn smoothed_rate(&self) -> (r: u64)
        ensures
            r == mean(self.rates@),
    {
        let n = self.rates.len();
        if n == 0 {
            return 0;
        }
        let mut sum: u128 = 0;
        let mut i: usize = 0;
        while i < n
            invariant
                i <= n,
                n == self.rates@.len(),
                sum == seq_sum(self.rates@.take(i as int)),
                sum <= i * (u64::MAX as nat),
            decreases n - i,
        {
            proof {
                assert(self.rates@.take(i + 1).drop_last() =~= self.rates@.take(i as int));
                assert((i + 1) * (u64::MAX as nat) == i * (u64::MAX as nat) + u64::MAX as nat)
                    by (nonlinear_arith);
                assert(i * (u64::MAX as nat) <= 0xffff_ffff_ffff_ffff * (u64::MAX as nat))
                    by (nonlinear_arith)
                    requires
                        i <= 0xffff_ffff_ffff_ffff,
                ;
            }
            sum = sum + self.rates[i] as u128;
            i = i + 1;
        }
        proof {
            assert(self.rates@.take(n as int) =~= self.rates@);
            let s = sum as nat;
            assert(s / (n as nat) <= u64::MAX) by (nonlinear_arith)
                requires
                    s <= n * (u64::MAX as nat),
                    n >= 1,
            ;
        }
        (sum / n as u128) as u64
    }

    /// Takes a sample at `now_ms` if an interval has passed since the last
    /// one: the rate since then enters the window, and the window's mean is
    /// returned. Otherwise nothing changes.
    pub fn sample(&mut self, now_ms: u64) -> (r: Option<u64>)
        requires
            old(self).wf(),
        ensures
            final(self).wf(),
            final(self).hash_count == old(self).hash_count,
            final(self).start_ms == old(self).start_ms,
            final(self).interval_ms == old(self).interval_ms,
            final(self).capacity == old(self).capacity,
            ({
                let elapsed = now_ms - old(self).last_update_ms;
                let due = now_ms > old(self).last_update_ms && elapsed >= old(self).interval_ms;
                let delta = if old(self).hash_count >= old(self).last_hash_count {
                    old(self).hash_count - old(self).last_hash_count
                } else {
                    0
                };
                &&& due ==> final(self).rates@ == push_window(
                    old(self).rates@,
                    rate_of(delta as nat, elapsed as nat) as u64,
                    old(self).capacity as nat,
                )
                &&& due ==> final(self).last_update_ms == now_ms
                &&& due ==> final(self).last_hash_count == old(self).hash_count
                &&& due ==> r == Some(mean(final(self).rates@) as u64)
                &&& !due ==> r is None && *final(self) == *old(self)
            }),
    {
        if now_ms <= self.last_update_ms || now_ms - self.last_update_ms < self.interval_ms {
            return None;
        }
        let elapsed = now_ms - self.last_update_ms;
        let delta = self.hash_count.saturating_sub(self.last_hash_count);
        let per_sec: u128 = (delta as u128) * 1000 / (elapsed as u128);
        let rate: u64 = if per_sec > u64::MAX as u128 {
            u64::MAX
        } else {
            per_sec as u64
        };
        let ghost before = self.rates@;
        self.rates.push(rate);
        if self.rates.len() > self.capacity {
            self.rates.remove(0);
            proof {
                assert(self.rates@ =~= before.push(rate).skip(1));
            }
        }
        self.last_hash_count = self.hash_count;
        self.last_update_ms = now_ms;
        let m = self.smoothed_rate();
        proof {
            lemma_sum_bound(self.rates@);
        }
        Some(m)
    }

    /// Mean rate over the whole search, in hashes per second, up to `now_ms`;
    /// zero when no time has passed.
    pub fn average_hash_rate(&self, now_ms: u64) -> (r: u64)
        ensures
            r == if now_ms > self.start_ms {
                rate_of(self.hash_count as nat, (now_ms - self.start_ms) as nat)
            } else {
                0
            },
    {
        if now_ms <= self.start_ms {
            return 0;
        }
        let per_sec: u128 = (self.hash_count as u128) * 1000 / ((now_ms - self.start_ms) as u128);
        if per_sec > u64::MAX as u128 {
            u64::MAX
        } else {
            per_sec as u64
        }
    }
}

} // verus!
