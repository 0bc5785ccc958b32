//! Work partitioning and the nonce search.
//!
//! Worker `t` of `w` tries the nonces `t, t + w, t + 2w, ...` (wrapping at
//! `2^64`), one batch at a time, in its own copy of the preimage buffer. The
//! first worker to claim the shared state with a qualifying digest wins.

use crate::difficulty::{check_difficulty, meets_target};
use crate::encoding::BlockData;
use crate::hashing::{keccak256, keccak256_of, keccak256_with_nonce, le_bytes};
use vstd::arithmetic::div_mod::{
    lemma_add_mod_noop, lemma_fundamental_div_mod, lemma_fundamental_div_mod_converse,
    lemma_small_mod,
};
use vstd::prelude::*;

verus! {

/// `2^64`, the size of the nonce space.
pub open spec fn nonce_space() -> int {
    0x1_0000_0000_0000_0000
}

/// The digest of `block`'s preimage with `nonce` in its slot.
pub open spec fn digest_for(block: BlockData, nonce: u64) -> Seq<u8> {
    keccak256_of(block.preimage(nonce))
}

/// `nonce` solves `block` at `target`.
pub open spec fn qualifies(block: BlockData, nonce: u64, target: int) -> bool {
    meets_target(digest_for(block, nonce), target)
}

/// The smallest nonce in `[lo, hi)` that satisfies `p`, trying each in turn.
pub open spec fn first_satisfying(p: spec_fn(u64) -> bool, lo: int, hi: int) -> Option<u64>
    decreases hi - lo,
{
    if lo >= hi {
        None
    } else if p(lo as u64) {
        Some(lo as u64)
    } else {
        first_satisfying(p, lo + 1, hi)
    }
}

/// The smallest solving nonce in `[lo, hi)`, found by trying each in turn.
pub open spec fn first_qualifying(block: BlockData, lo: int, hi: int, target: int) -> Option<u64> {
    first_satisfying(|n: u64| qualifies(block, n, target), lo, hi)
}

proof fn lemma_first_none(p: spec_fn(u64) -> bool, lo: int, hi: int)
    requires
        forall|n: int| lo <= n < hi ==> !p(#[trigger] (n as u64)),
    ensures
        first_satisfying(p, lo, hi) is None,
    decreases hi - lo,
{
    if lo < hi {
        assert(!p(lo as u64));
        lemma_first_none(p, lo + 1, hi);
    }
}

proof fn lemma_first_some(p: spec_fn(u64) -> bool, lo: int, k: int, hi: int)
    requires
        lo <= k < hi,
        forall|n: int| lo <= n < k ==> !p(#[trigger] (n as u64)),
        p(k as u64),
    ensures
        first_satisfying(p, lo, hi) == Some(k as u64),
    decreases k - lo,
{
    if lo < k {
        assert(!p(lo as u64));
        lemma_first_some(p, lo + 1, k, hi);
    }
}

/// Every non-negative integer `n` lies in the progression `{k·w + t : k ≥ 0}`
/// of exactly one `t` in `[0, w)`, and at exactly one position `k` in it.
pub proof fn lemma_partition_coverage(w: int, n: int)
    requires
        w >= 1,
        n >= 0,
    ensures
        0 <= n % w < w,
        n / w >= 0,
        n == (n / w) * w + n % w,
        forall|t: int, k: int|
            0 <= t < w && 0 <= k && #[trigger] (k * w + t) == n ==> t == n % w && k == n / w,
{
    lemma_fundamental_div_mod(n, w);
    assert((n / w) * w == w * (n / w)) by (nonlinear_arith);
    assert(n / w >= 0) by (nonlinear_arith)
        requires
            n >= 0,
            w >= 1,
            n == w * (n / w) + n % w,
            0 <= n % w < w,
    ;
    assert forall|t: int, k: int|
        0 <= t < w && 0 <= k && #[trigger] (k * w + t) == n implies t == n % w && k == n / w by {
        lemma_fundamental_div_mod_converse(n, w, k, t);
    }
}

/// The progression of nonces that one worker of `stride` tries.
#[derive(Clone, Copy, Debug)]
pub struct ThreadPartition {
    pub thread_id: u64,
    pub stride: u64,
}

impl ThreadPartition {
    pub open spec fn wf(&self) -> bool {
        1 <= self.stride && self.thread_id < self.stride
    }

    /// The `k`-th nonce of the progression, wrapping at `2^64`.
    pub open spec fn nonce_at(&self, k: nat) -> u64 {
        ((self.thread_id + k * self.stride) % nonce_space()) as u64
    }

    /// The partition of worker `thread_id` among `stride` workers, if
    /// `thread_id < stride`.
    pub fn new(thread_id: u64, stride: u64) -> (r: Option<ThreadPartition>)
        ensures
            r is Some <==> thread_id < stride,
            r matches Some(p) ==> p.wf() && p.thread_id == thread_id && p.stride == stride,
    {
        if thread_id < stride {
            Some(ThreadPartition { thread_id, stride })
        } else {
            None
        }
    }
}

/// A winning nonce and its digest.
#[derive(Clone, Copy, Debug)]
pub struct Solution {
    pub nonce: u64,
    pub hash: [u8; 32],
}

/// One worker's position in its progression.
#[derive(Clone, Copy)]
pub struct Worker {
    pub partition: ThreadPartition,
    pub next_nonce: u64,
    /// How many nonces of the progression were tried so far.
    pub tried: Ghost<nat>,
}

impl Worker {
    pub open spec fn wf(&self) -> bool {
        self.partition.wf() && self.next_nonce == self.partition.nonce_at(self.tried@)
    }

    /// A worker at the start of its progression.
    pub fn new(partition: ThreadPartition) -> (r: Worker)
        requires
            partition.wf(),
        ensures
            r.wf(),
            r.partition == partition,
            r.tried@ == 0,
    {
        proof {
            lemma_small_mod(partition.thread_id as nat, nonce_space() as nat);
        }
        Worker { partition, next_nonce: partition.thread_id, tried: Ghost(0) }
    }

    proof fn lemma_step(p: ThreadPartition, k: nat)
        requires
            p.wf(),
        ensures
            vstd::wrapping::u64_specs::wrapping_add(p.nonce_at(k), p.stride) == p.nonce_at(k + 1),
    {
        let m = nonce_space();
        let a = p.thread_id + k * p.stride;
        assert(a + p.stride == p.thread_id + (k + 1) * p.stride) by (nonlinear_arith)
            requires
                a == p.thread_id + k * p.stride,
        ;
        lemma_add_mod_noop(a, p.stride as int, m);
        lemma_small_mod(p.stride as nat, m as nat);
        let x = a % m;
        assert(0 <= x < m) by {
            vstd::arithmetic::div_mod::lemma_mod_bound(a, m);
        }
        if x + p.stride >= m {
            lemma_fundamental_div_mod_converse(x + p.stride, m, 1, x + p.stride - m);
        } else {
            lemma_small_mod((x + p.stride) as nat, m as nat);
        }
    }

    /// Tries up to `batch` further nonces of the progression, hashing each in
    /// `block`'s buffer, and stops at the first whose digest reaches `target`.
    pub fn run_batch(&mut self, block: &mut BlockData, batch: u64, target: usize) -> (r: Option<
        Solution,
    >)
        requires
            old(self).wf(),
            old(block).wf(),
        ensures
            final(self).wf(),
            final(self).partition == old(self).partition,
            final(block).wf(),
            final(block).nonce_position == old(block).nonce_position,
            forall|n: u64| #[trigger] final(block).preimage(n) == old(block).preimage(n),
            old(self).tried@ <= final(self).tried@ <= old(self).tried@ + batch,
            r is None ==> final(self).tried@ == old(self).tried@ + batch,
            r matches Some(s) ==> {
                &&& final(self).tried@ > old(self).tried@
                &&& s.nonce == old(self).partition.nonce_at((final(self).tried@ - 1) as nat)
                &&& s.hash@ == digest_for(*old(block), s.nonce)
                &&& qualifies(*old(block), s.nonce, target as int)
            },
            forall|k: nat|
                old(self).tried@ <= k < final(self).tried@ - (if r is Some {
                    1int
                } else {
                    0int
                }) ==> !qualifies(*old(block), #[trigger] old(self).partition.nonce_at(k), target as int),
    {
        let ghost orig = *block;
        let ghost k0 = self.tried@;
        let mut i: u64 = 0;
        while i < batch
            invariant
                self.wf(),
                self.partition == old(self).partition,
                block.wf(),
                block.nonce_position == orig.nonce_position,
                forall|n: u64| #[trigger] block.preimage(n) == orig.preimage(n),
                self.tried@ == k0 + i,
                k0 == old(self).tried@,
                orig == *old(block),
                i <= batch,
                forall|k: nat|
                    k0 <= k < self.tried@ ==> !qualifies(orig, #[trigger] self.partition.nonce_at(k), target as int),
            decreases batch - i,
        {
            let nonce = self.next_nonce;
            let ghost pre = *block;
            block.set_nonce(nonce);
            let hash = keccak256(block.combined_data.as_slice());
            proof {
                assert(pre.preimage(nonce) == orig.preimage(nonce));
                assert(block.combined_data@ == orig.preimage(nonce));
                assert forall|n: u64| #[trigger] block.preimage(n) == orig.preimage(n) by {
                    assert(block.preimage(n) == pre.preimage(n));
                    assert(pre.preimage(n) == orig.preimage(n));
                }
                Self::lemma_step(self.partition, self.tried@);
            }
            self.next_nonce = self.next_nonce.wrapping_add(self.partition.stride);
            self.tried = Ghost(self.tried@ + 1);
            if check_difficulty(&hash, target) {
                return Some(Solution { nonce, hash });
            }
            i = i + 1;
        }
        None
    }
}

/// What the workers share: the winning result, once claimed.
pub struct SearchState {
    pub winner: Option<Solution>,
}

impl SearchState {
    /// Nothing found yet.
    pub fn new() -> (r: SearchState)
        ensures
            r.winner is None,
    {
        SearchState { winner: None }
    }

    /// Whether some worker has claimed a result.
    pub fn is_found(&self) -> (r: bool)
        ensures
            r == self.winner is Some,
    {
        self.winner.is_some()
    }

    /// Publishes `s` if no result was claimed before; the first claim wins.
    pub fn claim(&mut self, s: Solution) -> (r: bool)
        ensures
            r == old(self).winner is None,
            r ==> final(self).winner == Some(s),
            !r ==> final(self).winner == old(self).winner,
    {
        if self.winner.is_none() {
            self.winner = Some(s);
            true
        } else {
            false
        }
    }
}

/// The `k`-th nonce tried by worker `t` of `w`.
pub open spec fn progression(t: u64, w: u64, k: nat) -> u64 {
    ThreadPartition { thread_id: t, stride: w }.nonce_at(k)
}

/// The nonce of an optional solution.
pub open spec fn solution_nonce(r: Option<Solution>) -> Option<u64> {
    match r {
        Some(s) => Some(s.nonce),
        None => None,
    }
}

proof fn lemma_single_progression(k: nat)
    requires
        k < nonce_space(),
    ensures
        progression(0, 1, k) == k as u64,
{
    assert(0 + k * 1 == k);
    lemma_small_mod(k, nonce_space() as nat);
}

/// Tries the nonces `start, start + 1, ..., end - 1` in order and returns the
/// first whose digest reaches `target`.
pub fn mine_nonce(block: &mut BlockData, start: u64, end: u64, target: usize) -> (r: Option<
    Solution,
>)
    requires
        old(block).wf(),
    ensures
        final(block).wf(),
        final(block).nonce_position == old(block).nonce_position,
        forall|n: u64| #[trigger] final(block).preimage(n) == old(block).preimage(n),
        solution_nonce(r) == first_qualifying(*old(block), start as int, end as int, target as int),
        r matches Some(s) ==> s.hash@ == digest_for(*old(block), s.nonce),
{
    let ghost orig = *block;
    let mut nonce = start;
    while nonce < end
        invariant
            start <= nonce,
            block.wf(),
            block.nonce_position == orig.nonce_position,
            forall|n: u64| #[trigger] block.preimage(n) == orig.preimage(n),
            orig == *old(block),
            forall|n: int| start <= n < nonce ==> !qualifies(orig, #[trigger] (n as u64), target as int),
        decreases end - nonce,
    {
        let ghost pre = *block;
        block.set_nonce(nonce);
        let hash = keccak256(block.combined_data.as_slice());
        proof {
            assert(pre.preimage(nonce) == orig.preimage(nonce));
            assert forall|n: u64| #[trigger] block.preimage(n) == orig.preimage(n) by {
                assert(block.preimage(n) == pre.preimage(n));
                assert(pre.preimage(n) == orig.preimage(n));
            }
        }
        if check_difficulty(&hash, target) {
            proof {
                assert(block.combined_data@ == orig.preimage(nonce));
                assert(((nonce as int) as u64) == nonce);
                assert(qualifies(orig, (nonce as int) as u64, target as int));
                lemma_first_some(
                    |n: u64| qualifies(orig, n, target as int),
                    start as int,
                    nonce as int,
                    end as int,
                );
            }
            return Some(Solution { nonce, hash });
        }
        proof {
            assert(((nonce as int) as u64) == nonce);
        }
        nonce = nonce + 1;
    }
    proof {
        if start < end {
            lemma_first_none(|n: u64| qualifies(orig, n, target as int), start as int, end as int);
        }
    }
    None
}

/// What worker `t` of `w` finds in one batch of `batch` nonces that starts at
/// position `k0` of its progression: the first solving nonce, if any.
pub open spec fn batch_first(
    block: BlockData,
    t: u64,
    w: u64,
    k0: nat,
    batch: u64,
    target: int,
) -> Option<u64> {
    match first_satisfying(
        |i: u64| qualifies(block, progression(t, w, (k0 + i) as nat), target),
        0,
        batch as int,
    ) {
        Some(i) => Some(progression(t, w, (k0 + i) as nat)),
        None => None,
    }
}

/// The replay from batch slot `slot` on: slot `r·w + t` is worker `t`'s
/// batch in round `r`, and the first batch that finds a nonce decides.
pub open spec fn replay_from(
    block: BlockData,
    w: u64,
    batch: u64,
    target: int,
    slot: nat,
    slots: nat,
) -> Option<u64>
    decreases slots - slot,
{
    if slot >= slots || w == 0 {
        None
    } else {
        let t = (slot % (w as nat)) as u64;
        let round = slot / (w as nat);
        match batch_first(block, t, w, (round * batch) as nat, batch, target) {
            Some(n) => Some(n),
            None => replay_from(block, w, batch, target, slot + 1, slots),
        }
    }
}

proof fn lemma_batch_result(
    block: BlockData,
    t: u64,
    w: u64,
    k0: nat,
    k1: nat,
    res: Option<Solution>,
    batch: u64,
    target: int,
)
    requires
        k0 <= k1 <= k0 + batch,
        res is None ==> k1 == k0 + batch,
        res matches Some(s) ==> k1 > k0 && s.nonce == progression(t, w, (k1 - 1) as nat)
            && qualifies(block, s.nonce, target),
        forall|k: nat|
            k < k1 - (if res is Some {
                1int
            } else {
                0int
            }) ==> !qualifies(block, #[trigger] progression(t, w, k), target),
    ensures
        solution_nonce(res) == batch_first(block, t, w, k0, batch, target),
{
    let p = |i: u64| qualifies(block, progression(t, w, (k0 + i) as nat), target);
    match res {
        Some(s) => {
            let i = k1 - 1 - k0;
            assert forall|n: int| 0 <= n < i implies !p(#[trigger] (n as u64)) by {
                assert(((n as u64) as int) == n);
                assert(((k0 + (n as u64)) as nat) < k1 - 1);
            }
            assert(((i as u64) as int) == i);
            lemma_first_some(p, 0, i, batch as int);
        },
        None => {
            assert forall|n: int| 0 <= n < batch implies !p(#[trigger] (n as u64)) by {
                assert(((n as u64) as int) == n);
            }
            lemma_first_none(p, 0, batch as int);
        },
    }
}

/// A deterministic replay of the parallel search: in each of `rounds`
/// rounds, workers `0, 1, ..., worker_count - 1` in turn run one batch of
/// `batch` nonces, until one of them claims a result. The winner is the
/// first batch to find a solving nonce, which need not be the smallest one;
/// with a single worker it is the smallest in `[0, rounds · batch)`.
pub fn search_bounded(
    block: &mut BlockData,
    worker_count: u64,
    rounds: u64,
    batch: u64,
    target: usize,
) -> (r: Option<Solution>)
    requires
        old(block).wf(),
        1 <= worker_count <= usize::MAX,
    ensures
        final(block).wf(),
        final(block).nonce_position == old(block).nonce_position,
        forall|n: u64| #[trigger] final(block).preimage(n) == old(block).preimage(n),
        r matches Some(s) ==> {
            &&& s.hash@ == digest_for(*old(block), s.nonce)
            &&& qualifies(*old(block), s.nonce, target as int)
            &&& exists|t: u64, k: nat|
                t < worker_count && k < rounds * batch && s.nonce == #[trigger] progression(
                    t,
                    worker_count,
                    k,
                )
        },
        r is None ==> forall|t: u64, k: nat|
            t < worker_count && k < rounds * batch ==> !qualifies(
                *old(block),
                #[trigger] progression(t, worker_count, k),
                target as int,
            ),
        solution_nonce(r) == replay_from(
            *old(block),
            worker_count,
            batch,
            target as int,
            0,
            (rounds * worker_count) as nat,
        ),
        worker_count == 1 && rounds * batch <= nonce_space() ==> solution_nonce(r)
            == first_qualifying(*old(block), 0, rounds * batch, target as int),
{
    let ghost orig = *block;
    let w = worker_count as usize;
    let mut workers: Vec<Worker> = Vec::new();
    let mut t: usize = 0;
    while t < w
        invariant
            t <= w,
            w == worker_count,
            workers@.len() == t,
            forall|j: int|
                0 <= j < t ==> (#[trigger] workers@[j]).wf() && workers@[j].partition
                    == (ThreadPartition { thread_id: j as u64, stride: worker_count })
                    && workers@[j].tried@ == 0,
        decreases w - t,
    {
        workers.push(Worker::new(ThreadPartition { thread_id: t as u64, stride: worker_count }));
        t = t + 1;
    }
    let mut state = SearchState::new();
    let ghost mut win_t: u64 = 0;
    let ghost mut win_k: nat = 0;
    let ghost slots: nat = (rounds * worker_count) as nat;
    let mut round: u64 = 0;
    while round < rounds && !state.is_found()
        invariant
            round <= rounds,
            slots == rounds * worker_count,
            replay_from(orig, worker_count, batch, target as int, 0, slots) == match state.winner {
                Some(x) => Some(x.nonce),
                None => replay_from(
                    orig,
                    worker_count,
                    batch,
                    target as int,
                    (round * worker_count) as nat,
                    slots,
                ),
            },
            w == worker_count,
            1 <= worker_count,
            orig == *old(block),
            block.wf(),
            block.nonce_position == orig.nonce_position,
            forall|n: u64| #[trigger] block.preimage(n) == orig.preimage(n),
            workers@.len() == w,
            forall|j: int|
                0 <= j < w ==> (#[trigger] workers@[j]).wf() && workers@[j].partition
                    == (ThreadPartition { thread_id: j as u64, stride: worker_count })
                    && workers@[j].tried@ <= round * batch,
            state.winner is None ==> forall|j: int|
                0 <= j < w ==> (#[trigger] workers@[j]).tried@ == round * batch,
            state.winner is None ==> forall|j: int, k: nat|
                0 <= j < w && k < round * batch ==> !qualifies(
                    orig,
                    #[trigger] progression(j as u64, worker_count, k),
                    target as int,
                ),
            state.winner matches Some(s) ==> {
                &&& win_t < worker_count
                &&& win_k < round * batch
                &&& s.nonce == progression(win_t, worker_count, win_k)
                &&& s.hash@ == digest_for(orig, s.nonce)
                &&& qualifies(orig, s.nonce, target as int)
                &&& forall|k: nat|
                    k < win_k ==> !qualifies(
                        orig,
                        #[trigger] progression(win_t, worker_count, k),
                        target as int,
                    )
            },
        decreases rounds - round,
    {
        let mut t: usize = 0;
        proof {
            assert(round * batch <= (round + 1) * batch) by (nonlinear_arith);
        }
        while t < w && !state.is_found()
            invariant
                t <= w,
                round < rounds,
                slots == rounds * worker_count,
                replay_from(orig, worker_count, batch, target as int, 0, slots)
                    == match state.winner {
                    Some(x) => Some(x.nonce),
                    None => replay_from(
                        orig,
                        worker_count,
                        batch,
                        target as int,
                        (round * worker_count + t) as nat,
                        slots,
                    ),
                },
                w == worker_count,
                1 <= worker_count,
                orig == *old(block),
                block.wf(),
                block.nonce_position == orig.nonce_position,
                forall|n: u64| #[trigger] block.preimage(n) == orig.preimage(n),
                workers@.len() == w,
                round * batch <= (round + 1) * batch,
                forall|j: int|
                    0 <= j < w ==> (#[trigger] workers@[j]).wf() && workers@[j].partition
                        == (ThreadPartition { thread_id: j as u64, stride: worker_count })
                        && workers@[j].tried@ <= (round + 1) * batch,
                state.winner is None ==> forall|j: int|
                    0 <= j < w ==> (#[trigger] workers@[j]).tried@ == if j < t {
                        (round + 1) * batch
                    } else {
                        round * batch
                    },
                state.winner is None ==> forall|j: int, k: nat|
                    0 <= j < w && k < workers@[j].tried@ ==> !qualifies(
                        orig,
                        #[trigger] progression(j as u64, worker_count, k),
                        target as int,
                    ),
                state.winner matches Some(s) ==> {
                    &&& win_t < worker_count
                    &&& win_k < (round + 1) * batch
                    &&& s.nonce == progression(win_t, worker_count, win_k)
                    &&& s.hash@ == digest_for(orig, s.nonce)
                    &&& qualifies(orig, s.nonce, target as int)
                    &&& forall|k: nat|
                        k < win_k ==> !qualifies(
                            orig,
                            #[trigger] progression(win_t, worker_count, k),
                            target as int,
                        )
                },
            decreases w - t,
        {
            let mut wk = workers[t];
            let ghost before = wk;
            let ghost pre = *block;
            assert(before.tried@ == round * batch);
            let res = wk.run_batch(block, batch, target);
            proof {
                assert forall|n: u64| #[trigger] block.preimage(n) == orig.preimage(n) by {
                    assert(block.preimage(n) == pre.preimage(n));
                    assert(pre.preimage(n) == orig.preimage(n));
                }
                assert forall|k: nat| k < wk.tried@ - (if res is Some {
                    1int
                } else {
                    0int
                }) implies !qualifies(
                    orig,
                    #[trigger] progression(t as u64, worker_count, k),
                    target as int,
                ) by {
                    assert(progression(t as u64, worker_count, k) == before.partition.nonce_at(k));
                    if k < before.tried@ {
                        assert(!qualifies(
                            orig,
                            progression(t as u64, worker_count, k),
                            target as int,
                        ));
                    } else {
                        assert(!qualifies(pre, before.partition.nonce_at(k), target as int));
                        assert(pre.preimage(before.partition.nonce_at(k)) == orig.preimage(
                            before.partition.nonce_at(k),
                        ));
                    }
                }
            }
            proof {
                let slot = round * worker_count + t;
                assert(slot < slots) by (nonlinear_arith)
                    requires
                        slot == round * worker_count + t,
                        t < worker_count,
                        round + 1 <= rounds,
                        slots == rounds * worker_count,
                ;
                lemma_fundamental_div_mod_converse(
                    slot as int,
                    worker_count as int,
                    round as int,
                    t as int,
                );
                assert(slot == round * worker_count + t) by (nonlinear_arith)
                    requires
                        slot == round * worker_count + t,
                ;
                if let Some(x) = res {
                    assert(pre.preimage(x.nonce) == orig.preimage(x.nonce));
                    assert(x.nonce == progression(t as u64, worker_count, (wk.tried@ - 1) as nat));
                }
                lemma_batch_result(
                    orig,
                    t as u64,
                    worker_count,
                    before.tried@,
                    wk.tried@,
                    res,
                    batch,
                    target as int,
                );
            }
            match res {
                Some(s) => {
                    proof {
                        win_t = t as u64;
                        win_k = (wk.tried@ - 1) as nat;
                        assert(s.nonce == progression(win_t, worker_count, win_k));
                        assert(pre.preimage(s.nonce) == orig.preimage(s.nonce));
                    }
                    state.claim(s);
                },
                None => {},
            }
            proof {
                assert((round + 1) * batch == round * batch + batch) by (nonlinear_arith);
            }
            workers.set(t, wk);
            proof {
                assert(workers@[t as int] == wk);
            }
            t = t + 1;
        }
        proof {
            if state.winner is None {
                assert(round * worker_count + w == (round + 1) * worker_count) by (nonlinear_arith)
                    requires
                        w == worker_count,
                ;
            }
        }
        round = round + 1;
    }
    proof {
        if state.winner is None {
            assert(round == rounds);
            assert forall|t: u64, k: nat| t < worker_count && k < rounds * batch implies !qualifies(
                orig,
                #[trigger] progression(t, worker_count, k),
                target as int,
            ) by {
                assert(((t as int) as u64) == t);
            }
        }
        if state.winner is Some {
            assert(win_k < rounds * batch) by (nonlinear_arith)
                requires
                    win_k < round * batch,
                    round <= rounds,
            ;
        }
        if worker_count == 1 && rounds * batch <= nonce_space() {
            match state.winner {
                Some(s) => {
                    lemma_single_progression(win_k);
                    assert forall|n: int| 0 <= n < win_k implies !qualifies(
                        orig,
                        #[trigger] (n as u64),
                        target as int,
                    ) by {
                        lemma_single_progression(n as nat);
                    }
                    lemma_first_some(
                        |n: u64| qualifies(orig, n, target as int),
                        0,
                        win_k as int,
                        rounds * batch,
                    );
                },
                None => {
                    assert forall|n: int| 0 <= n < rounds * batch implies !qualifies(
                        orig,
                        #[trigger] (n as u64),
                        target as int,
                    ) by {
                        lemma_single_progression(n as nat);
                    }
                    lemma_first_none(|n: u64| qualifies(orig, n, target as int), 0, rounds * batch);
                },
            }
        }
    }
    state.winner
}

/// `h` begins with the bytes of `prefix`.
pub open spec fn has_prefix(h: Seq<u8>, prefix: Seq<u8>) -> bool {
    prefix.len() <= h.len() && h.take(prefix.len() as int) == prefix
}

/// `nonce`'s digest of `input` followed by its little-endian bytes begins
/// with `prefix`.
pub open spec fn prefix_hit(input: Seq<u8>, prefix: Seq<u8>, nonce: u64) -> bool {
    has_prefix(keccak256_of(input + le_bytes(nonce)), prefix)
}

/// The smallest nonce in `[lo, hi)` whose digest begins with `prefix`.
pub open spec fn first_prefixed(input: Seq<u8>, prefix: Seq<u8>, lo: int, hi: int) -> Option<u64> {
    first_satisfying(|n: u64| prefix_hit(input, prefix, n), lo, hi)
}

fn starts_with(h: &Vec<u8>, prefix: &[u8]) -> (r: bool)
    ensures
        r == has_prefix(h@, prefix@),
{
    if prefix.len() > h.len() {
        return false;
    }
    let mut i: usize = 0;
    while i < prefix.len()
        invariant
            i <= prefix@.len() <= h@.len(),
            forall|j: int| 0 <= j < i ==> h@[j] == prefix@[j],
        decreases prefix@.len() - i,
    {
        if h[i] != prefix[i] {
            assert(h@.take(prefix@.len() as int)[i as int] != prefix@[i as int]);
            return false;
        }
        i = i + 1;
    }
    assert(h@.take(prefix@.len() as int) =~= prefix@);
    true
}

/// Tries the nonces `start, start + 1, ..., end - 1` in order, hashing
/// `input` followed by each nonce's little-endian bytes, and returns the
/// first nonce whose digest begins with `prefix`, with that digest.
pub fn find_nonce_with_prefix(input: &[u8], prefix: &[u8], start: u64, end: u64) -> (r: Option<
    (u64, Vec<u8>),
>)
    requires
        input@.len() + 8 <= usize::MAX,
    ensures
        r matches Some((n, h)) ==> first_prefixed(input@, prefix@, start as int, end as int) == Some(n)
            && h@ == keccak256_of(input@ + le_bytes(n)),
        r is None ==> first_prefixed(input@, prefix@, start as int, end as int) is None,
{
    let mut nonce = start;
    while nonce < end
        invariant
            start <= nonce,
            input@.len() + 8 <= usize::MAX,
            forall|n: int|
                start <= n < nonce ==> !prefix_hit(input@, prefix@, #[trigger] (n as u64)),
        decreases end - nonce,
    {
        let hash = keccak256_with_nonce(input, nonce);
        if starts_with(&hash, prefix) {
            proof {
                assert(((nonce as int) as u64) == nonce);
                lemma_first_some(
                    |n: u64| prefix_hit(input@, prefix@, n),
                    start as int,
                    nonce as int,
                    end as int,
                );
            }
            return Some((nonce, hash));
        }
        proof {
            assert(((nonce as int) as u64) == nonce);
        }
        nonce = nonce + 1;
    }
    proof {
        lemma_first_none(|n: u64| prefix_hit(input@, prefix@, n), start as int, end as int);
    }
    None
}

} // verus!
