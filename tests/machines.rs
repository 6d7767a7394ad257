use mining_pool::machine::{Machine, MIN_JOB_SIZE};

#[test]
fn new_machine_quotes_one_million() {
    let m = Machine::new("m1");
    assert_eq!(m.name, "m1");
    assert_eq!(m.calculated_job_size, 1_000_000);
    assert_eq!(MIN_JOB_SIZE, 1_000_000);
    assert!(m.online);
    assert!(m.reported_thread_hashrate_history.is_empty());
}

#[test]
fn zero_rate_keeps_the_floor() {
    let mut m = Machine::new("m1");
    m.record_rates(0, 0);
    assert_eq!(m.calculated_job_size, 1_000_000);
    assert_eq!(m.reported_thread_hashrate, 0);
}

#[test]
fn job_size_is_thirty_seconds_of_mean_thread_rate() {
    let mut m = Machine::new("m1");
    m.record_rates(100_000, 400_000);
    m.record_rates(200_001, 800_000);
    // mean thread rate 150_000.5 -> 30 * mean = 4_500_015
    assert_eq!(m.reported_thread_hashrate, 150_000);
    assert_eq!(m.reported_total_hashrate, 600_000);
    assert_eq!(m.calculated_job_size, 4_500_015);
}

#[test]
fn history_keeps_the_hundred_most_recent() {
    let mut m = Machine::new("m1");
    for i in 0..150u64 {
        m.record_rates(i, 2 * i);
        assert!(m.reported_thread_hashrate_history.len() <= 100);
        assert!(m.reported_total_hashrate_history.len() <= 100);
    }
    assert_eq!(m.reported_thread_hashrate_history.len(), 100);
    assert_eq!(m.reported_thread_hashrate_history[0], 50);
    assert_eq!(m.reported_thread_hashrate_history[99], 149);
    // mean of 50..=149 is 99.5
    assert_eq!(m.reported_thread_hashrate, 99);
    assert_eq!(m.reported_total_hashrate, 199);
    assert_eq!(m.calculated_job_size, 1_000_000);
}

#[test]
fn huge_rate_saturates_job_size() {
    let mut m = Machine::new("m1");
    m.record_rates(u64::MAX, u64::MAX);
    assert_eq!(m.reported_thread_hashrate, u64::MAX);
    assert_eq!(m.calculated_job_size, u64::MAX);
}

#[test]
fn restore_trims_and_recomputes() {
    let mut m = Machine::new("m1");
    m.reported_thread_hashrate_history = (0..120u64).collect();
    m.reported_thread_hashrate = 7;
    m.restore();
    assert_eq!(m.reported_thread_hashrate_history.len(), 100);
    assert_eq!(m.reported_thread_hashrate_history[0], 20);
    assert_eq!(m.reported_thread_hashrate, 69);
}

#[test]
fn set_online_flips_flag() {
    let mut m = Machine::new("m1");
    m.set_online(false);
    assert!(!m.online);
}
