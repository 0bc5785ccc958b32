use kale_miner::encoding::BlockData;
use kale_miner::hashing::keccak256_with_nonce;
use kale_miner::search::{
    find_nonce_with_prefix, mine_nonce, search_bounded, SearchState, Solution, ThreadPartition,
    Worker,
};

fn hex32(s: &str) -> [u8; 32] {
    let v = hex::decode(s).unwrap();
    let mut out = [0u8; 32];
    out.copy_from_slice(&v);
    out
}

fn kale_block() -> BlockData {
    BlockData::new(1360, "KALE", &[0u8; 32], &[0u8; 32])
}

#[test]
fn zero_difficulty_accepts_the_first_nonce() {
    let mut block = BlockData::new(0, "TEST", &[0u8; 32], &[0u8; 32]);
    let r = search_bounded(&mut block, 4, 1, 10, 0).unwrap();
    assert_eq!(r.nonce, 0);
    assert_eq!(
        r.hash,
        hex32("941bdb0997712105cffd7048efbebba63412da24cdcc621da263cbd4cc926b56")
    );
}

#[test]
fn full_difficulty_does_not_terminate_falsely() {
    let mut block = BlockData::new(0, "TEST", &[0u8; 32], &[0u8; 32]);
    assert!(search_bounded(&mut block, 2, 5, 100, 64).is_none());
    assert!(mine_nonce(&mut block, 0, 1000, 64).is_none());
}

#[test]
fn sequential_scan_finds_the_smallest_nonce() {
    let mut block = kale_block();
    let r = mine_nonce(&mut block, 0, 1000, 2).unwrap();
    assert_eq!(r.nonce, 136);
    assert_eq!(
        r.hash,
        hex32("00e73862289a996ec48131387955ccc4d7363ce2238c27b351b0b6869312166d")
    );
    let r1 = mine_nonce(&mut block, 0, 100, 1).unwrap();
    assert_eq!(r1.nonce, 28);
    assert!(mine_nonce(&mut block, 29, 136, 2).is_none());
    assert!(mine_nonce(&mut block, 5, 5, 0).is_none());
}

#[test]
fn single_worker_replay_matches_sequential_scan() {
    for target in 1..4usize {
        let mut a = kale_block();
        let mut b = kale_block();
        let replay = search_bounded(&mut a, 1, 400, 7, target).map(|s| s.nonce);
        let scan = mine_nonce(&mut b, 0, 2800, target).map(|s| s.nonce);
        assert_eq!(replay, scan);
    }
    let mut c = kale_block();
    assert_eq!(search_bounded(&mut c, 1, 400, 7, 3).unwrap().nonce, 1652);
}

#[test]
fn replay_with_several_workers() {
    let mut block = kale_block();
    assert_eq!(search_bounded(&mut block, 3, 50, 16, 2).unwrap().nonce, 136);
    assert_eq!(search_bounded(&mut block, 4, 200, 10, 3).unwrap().nonce, 1652);
    assert!(search_bounded(&mut block, 3, 0, 16, 0).is_none());
}

#[test]
fn partitions_cover_each_nonce_once() {
    for w in 1..8u64 {
        let mut seen = vec![0u32; 200];
        for t in 0..w {
            let p = ThreadPartition::new(t, w).unwrap();
            let mut block = kale_block();
            let mut worker = Worker::new(p);
            let mut k = 0u64;
            while worker.next_nonce < 200 {
                seen[worker.next_nonce as usize] += 1;
                assert_eq!(worker.next_nonce, t + k * w);
                worker.run_batch(&mut block, 1, 65);
                k += 1;
            }
        }
        assert!(seen.iter().all(|&c| c == 1));
    }
    assert!(ThreadPartition::new(3, 3).is_none());
}

#[test]
fn worker_batch_stops_at_first_solution() {
    let mut block = kale_block();
    let mut worker = Worker::new(ThreadPartition::new(0, 1).unwrap());
    assert!(worker.run_batch(&mut block, 100, 2).is_none());
    assert_eq!(worker.next_nonce, 100);
    let mut block2 = kale_block();
    let mut w2 = Worker::new(ThreadPartition::new(0, 1).unwrap());
    let s = w2.run_batch(&mut block2, 1000, 2).unwrap();
    assert_eq!(s.nonce, 136);
    assert_eq!(w2.next_nonce, 137);
}

#[test]
fn worker_wraps_around_the_nonce_space() {
    let mut block = kale_block();
    let mut worker = Worker::new(ThreadPartition::new(1, u64::MAX).unwrap());
    assert_eq!(worker.next_nonce, 1);
    assert!(worker.run_batch(&mut block, 1, 65).is_none());
    assert_eq!(worker.next_nonce, 0);
}

#[test]
fn first_claim_wins() {
    let mut state = SearchState::new();
    assert!(!state.is_found());
    let a = Solution { nonce: 5, hash: [1u8; 32] };
    let b = Solution { nonce: 2, hash: [2u8; 32] };
    assert!(state.claim(a));
    assert!(!state.claim(b));
    assert!(state.is_found());
    assert_eq!(state.winner.unwrap().nonce, 5);
}

#[test]
fn hash_with_little_endian_nonce() {
    let r = keccak256_with_nonce(b"Hello, Keccak!", 0);
    assert_eq!(
        r,
        hex::decode("4c12862caf9d85078c0b4159f49c054abc06d79bfbc5e3c854091c69d6fa3d68").unwrap()
    );
    let s = keccak256_with_nonce(b"Hello, Keccak!", 258);
    assert_eq!(
        s,
        hex::decode("5810c7250fc79a75014c8f12a7eae7994b435d1fea91f01b3ca1a1ad85443ead").unwrap()
    );
}

#[test]
fn finds_first_nonce_with_byte_prefix() {
    let (n, h) = find_nonce_with_prefix(b"Hello, Keccak!", &[0], 0, 1000).unwrap();
    assert_eq!(n, 71);
    assert_eq!(
        h,
        hex::decode("00ded17d66d4c63b06e6507553416a1fbe3e1dbd487ee8f8d523293f03d360ab").unwrap()
    );
    assert!(find_nonce_with_prefix(b"Hello, Keccak!", &[0], 0, 71).is_none());
    let (m, _) = find_nonce_with_prefix(b"Hello, Keccak!", &[], 9, 20).unwrap();
    assert_eq!(m, 9);
}

#[test]
fn finds_two_zero_byte_prefix() {
    let (n, h) = find_nonce_with_prefix(b"Hello, Keccak!", &[0, 0], 60_000, 70_000).unwrap();
    assert_eq!(n, 67106);
    assert_eq!(&h[..2], &[0, 0]);
}

#[test]
fn replay_winner_is_first_batch_to_find_not_smallest_nonce() {
    // Worker 0 of 3 finds 192 in its first batch, before worker 1 reaches 136.
    let mut block = kale_block();
    let r = search_bounded(&mut block, 3, 50, 100, 2).unwrap();
    assert_eq!(r.nonce, 192);
    assert!(r.hash[0] == 0);
}
