use kale_miner::monitor::MiningStats;

#[test]
fn constant_counter_converges_to_its_rate() {
    let mut stats = MiningStats::new(false, 0);
    let mut reported = Vec::new();
    for i in 1..=12u64 {
        stats.update_hash_count(3_000_000);
        reported.push(stats.sample(i * 2000).unwrap());
    }
    assert!(reported.iter().all(|&r| r == 1_500_000));
}

#[test]
fn window_forgets_old_rates() {
    let mut stats = MiningStats::new(true, 0);
    stats.update_hash_count(40_000);
    assert_eq!(stats.sample(2000), Some(20_000));
    for i in 2..=11u64 {
        stats.update_hash_count(2_000);
        let r = stats.sample(i * 2000).unwrap();
        if i == 2 {
            assert_eq!(r, 10_500);
        }
    }
    assert_eq!(stats.rates.len(), 10);
    assert_eq!(stats.smoothed_rate(), 1_000);
}

#[test]
fn no_sample_before_the_interval() {
    let mut stats = MiningStats::new(false, 1000);
    stats.update_hash_count(10);
    assert_eq!(stats.sample(2999), None);
    assert_eq!(stats.sample(500), None);
    assert_eq!(stats.rates.len(), 0);
    assert_eq!(stats.sample(3000), Some(5));
}

#[test]
fn counter_saturates() {
    let mut stats = MiningStats::new(false, 0);
    stats.update_hash_count(u64::MAX - 1);
    stats.update_hash_count(5);
    assert_eq!(stats.hash_count, u64::MAX);
}

#[test]
fn average_over_the_whole_search() {
    let mut stats = MiningStats::new(false, 1000);
    stats.update_hash_count(5_000);
    assert_eq!(stats.average_hash_rate(3500), 2_000);
    assert_eq!(stats.average_hash_rate(1000), 0);
    assert_eq!(stats.smoothed_rate(), 0);
}
