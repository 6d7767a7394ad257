use mining_pool::packets::{
    BootRequest, Job, JobRequestPacket, JobResponsePacket, PoolStatusRequestPacket,
    ShutdownRequest, Solution, SubmittionPacket, SubmittionResponsePacket,
};
use mining_pool::pool::{validate_solution, ApplicationData, HashSubmittion, SolutionError};
use mining_pool::submitter::Submitter;

const H16: &str = "0000fd9c89929ec885800e1457b301cebcf772c5bb424727dba5da2e9fb3186a";
const H19: &str = "00001f5d6c8192de5ae918368fa7edb03cf022e329f6c2927d3f0bb4167ba090";
const H20: &str = "000009076b49a9d64f354600b4b1cf664dd75657914f5cc30f7333157e9921ac";
const H21: &str = "000007ddba5911f6a1f10fec020e52c37f71f7b4a06968c4e2d184310f3e5cd5";

fn empty_pool() -> ApplicationData {
    ApplicationData::begin(None, vec![], vec![])
}

fn sol(hash: &str, nonce: &str) -> Solution {
    Solution { sha256: String::from(hash), nounce: String::from(nonce), time: 1 }
}

fn request(app: &mut ApplicationData, sn: &str, name: &str, now: u64) -> Job {
    let r = app.job_request(
        &JobRequestPacket { student_number: String::from(sn), name: String::from(name) },
        now,
    );
    match r {
        JobResponsePacket::Success(j) => j,
        JobResponsePacket::Error(e) => panic!("no job: {}", e),
    }
}

fn submit(app: &mut ApplicationData, sn: &str, job: Job, sols: Vec<Solution>) -> SubmittionResponsePacket {
    let p = SubmittionPacket {
        job_n: job.number,
        name: String::from("m1"),
        student_number: String::from(sn),
        thread_hashes_per_second: 0,
        total_hashes_per_second: 0,
        nounce_start: job.nounce_start,
        nounce_end: job.nounce_end,
        solutions: sols,
    };
    app.job_submit(&p, 100).response
}

fn status(app: &mut ApplicationData, sn: &str) -> mining_pool::packets::PoolStatusResponsePacket {
    app.pool_status(&PoolStatusRequestPacket { student_number: String::from(sn) })
}

#[test]
fn fresh_boot() {
    let mut app = empty_pool();
    let r = app.boot(&BootRequest { student_number: String::from("s1"), name: String::from("m1") });
    assert!(r.ok);
    assert!(r.msg.is_none());
    assert_eq!(app.submitters.len(), 1);
    let s = &app.submitters[0];
    assert_eq!(s.student_number, "s1");
    assert_eq!(s.next_job_number, 0);
    assert_eq!(s.next_nounce, 0);
    assert_eq!(s.machines.len(), 1);
    assert_eq!(s.machines[0].name, "m1");
    assert!(s.machines[0].online);
    assert_eq!(s.machines[0].calculated_job_size, 1_000_000);
}

#[test]
fn shutdown_marks_offline() {
    let mut app = empty_pool();
    app.boot(&BootRequest { student_number: String::from("s1"), name: String::from("m1") });
    let r = app.showdown(&ShutdownRequest { name: String::from("m1"), student_number: String::from("s1") });
    assert!(r.ok);
    assert_eq!(app.submitters.len(), 1);
    assert_eq!(app.submitters[0].machines.len(), 1);
    assert!(!app.submitters[0].machines[0].online);
}

#[test]
fn first_lease() {
    let mut app = empty_pool();
    app.boot(&BootRequest { student_number: String::from("s1"), name: String::from("m1") });
    let j = request(&mut app, "s1", "m1", 0);
    assert_eq!(j, Job { number: 0, size: 1_000_000, nounce_start: 0, nounce_end: 1_000_000 });
    let s = &app.submitters[0];
    assert_eq!(s.next_job_number, 1);
    assert_eq!(s.next_nounce, 1_000_000);
    assert_eq!(s.pending_jobs.len(), 1);
}

#[test]
fn full_range_submission_without_solutions() {
    let mut app = empty_pool();
    app.boot(&BootRequest { student_number: String::from("s1"), name: String::from("m1") });
    let j = request(&mut app, "s1", "m1", 0);
    assert_eq!(submit(&mut app, "s1", j, vec![]), SubmittionResponsePacket::Accepted);
    let s = &app.submitters[0];
    assert!(s.pending_jobs.is_empty());
    assert!(s.unfinished_jobs.is_empty());
    assert_eq!(s.accepted_shares_count, 0);
    assert_eq!(s.next_nounce, 1_000_000);
    assert_eq!(s.machines[0].calculated_job_size, 1_000_000);
}

#[test]
fn request_then_full_submit_restores_pending_count() {
    let mut app = empty_pool();
    let _held = request(&mut app, "s1", "m1", 0);
    let before = app.submitters[0].pending_jobs.len();
    let j = request(&mut app, "s1", "m1", 0);
    let cursor = app.submitters[0].next_nounce;
    assert_eq!(submit(&mut app, "s1", j, vec![]), SubmittionResponsePacket::Accepted);
    assert_eq!(app.submitters[0].pending_jobs.len(), before);
    assert_eq!(app.submitters[0].next_nounce, cursor);
}

#[test]
fn stale_lease_reclaim_in_pool() {
    let mut app = empty_pool();
    let first = request(&mut app, "s1", "m1", 0);
    let again = request(&mut app, "s1", "m2", 601_000);
    assert_eq!(again, first);
    assert_eq!(app.submitters[0].pending_jobs[0].quote_time, 601_000);
}

#[test]
fn duplicate_hash_across_submitters() {
    let mut app = empty_pool();
    let j = request(&mut app, "s1", "m1", 0);
    assert_eq!(submit(&mut app, "s1", j, vec![sol(H20, "803496")]), SubmittionResponsePacket::Accepted);
    assert_eq!(status(&mut app, "s1").pool_total_shares, 1);
    let k = request(&mut app, "s2", "m1", 5);
    assert_eq!(submit(&mut app, "s2", k, vec![sol(H20, "803496")]), SubmittionResponsePacket::Accepted);
    assert_eq!(status(&mut app, "s2").pool_total_shares, 1);
    assert_eq!(app.hashes.len(), 1);
}

#[test]
fn same_solution_twice_credits_once() {
    let mut app = empty_pool();
    let j = request(&mut app, "s1", "m1", 0);
    let p = SubmittionPacket {
        job_n: j.number,
        name: String::from("m1"),
        student_number: String::from("s1"),
        thread_hashes_per_second: 0,
        total_hashes_per_second: 0,
        nounce_start: j.nounce_start,
        nounce_end: j.nounce_end,
        solutions: vec![sol(H16, "101515")],
    };
    let first = app.job_submit(&p, 1);
    assert_eq!(first.response, SubmittionResponsePacket::Accepted);
    assert_eq!(first.accepted.len(), 1);
    assert_eq!(first.accepted[0].leading_zero_bits, 16);
    assert_eq!(app.submitters[0].accepted_shares_count, 1);
    let k = request(&mut app, "s1", "m1", 2);
    let p2 = SubmittionPacket { job_n: k.number, nounce_start: k.nounce_start, nounce_end: k.nounce_end, ..p };
    let second = app.job_submit(&p2, 3);
    assert_eq!(second.response, SubmittionResponsePacket::Accepted);
    assert!(second.accepted.is_empty());
    assert_eq!(app.submitters[0].accepted_shares_count, 1);
}

#[test]
fn best_solution_replacement() {
    let mut app = empty_pool();
    let j = request(&mut app, "s1", "m1", 0);
    let r = app.job_submit(
        &SubmittionPacket {
            job_n: j.number,
            name: String::from("m1"),
            student_number: String::from("s1"),
            thread_hashes_per_second: 0,
            total_hashes_per_second: 0,
            nounce_start: j.nounce_start,
            nounce_end: j.nounce_end,
            solutions: vec![sol(H20, "803496")],
        },
        1,
    );
    assert!(r.best_changed);
    assert_eq!(app.best.as_ref().unwrap().leading_zero_bit_length, 20);
    assert_eq!(app.best.as_ref().unwrap().hash, H20);
    assert_eq!(app.best.as_ref().unwrap().job_number, 0);
    let j = request(&mut app, "s1", "m1", 2);
    assert_eq!(submit(&mut app, "s1", j, vec![sol(H19, "1232382")]), SubmittionResponsePacket::Accepted);
    assert_eq!(app.best.as_ref().unwrap().leading_zero_bit_length, 20);
    assert_eq!(app.best.as_ref().unwrap().nounce, "803496");
    let j = request(&mut app, "s1", "m1", 3);
    submit(&mut app, "s1", j, vec![sol(H21, "5004140")]);
    let best = app.best.as_ref().unwrap();
    assert_eq!(best.leading_zero_bit_length, 21);
    assert_eq!(best.nounce, "5004140");
    assert_eq!(best.student_number, "s1");
    assert_eq!(status(&mut app, "s1").pool_best_zero_length, 21);
    assert_eq!(app.submitters[0].accepted_shares_count, 3);
}

#[test]
fn unknown_lease_is_rejected() {
    let mut app = empty_pool();
    let j = request(&mut app, "s1", "m1", 0);
    let bogus = Job { number: 9, ..j };
    assert_eq!(submit(&mut app, "s1", bogus, vec![]), SubmittionResponsePacket::Rejected);
    assert_eq!(app.submitters[0].pending_jobs.len(), 1);
}

#[test]
fn wrong_range_start_forfeits_the_lease() {
    let mut app = empty_pool();
    let j = request(&mut app, "s1", "m1", 0);
    let shifted = Job { nounce_start: 5, ..j };
    assert_eq!(submit(&mut app, "s1", shifted, vec![sol(H20, "803496")]), SubmittionResponsePacket::Rejected);
    assert!(app.submitters[0].pending_jobs.is_empty());
    assert!(app.hashes.is_empty());
    assert!(app.best.is_none());
}

#[test]
fn partial_range_is_queued_and_reissued() {
    let mut app = empty_pool();
    let j = request(&mut app, "s1", "m1", 0);
    let p = SubmittionPacket {
        job_n: j.number,
        name: String::from("m1"),
        student_number: String::from("s1"),
        thread_hashes_per_second: 0,
        total_hashes_per_second: 0,
        nounce_start: 0,
        nounce_end: 250_000,
        solutions: vec![],
    };
    assert_eq!(app.job_submit(&p, 7).response, SubmittionResponsePacket::Accepted);
    let next = request(&mut app, "s1", "m1", 8);
    assert_eq!(next, Job { number: 1, size: 750_000, nounce_start: 250_000, nounce_end: 1_000_000 });
    assert_eq!(app.submitters[0].next_job_number, 2);
    assert_eq!(app.submitters[0].next_nounce, 1_000_000);
}

#[test]
fn invalid_solutions_are_skipped() {
    let mut app = empty_pool();
    let j = request(&mut app, "s1", "m1", 0);
    let sols = vec![
        sol("xyz", "1"),
        sol("ef43b54ec97d88c4aa8a75094bdec7fdf16bb3fe0d795ceae84b5dfa88e2b0dc", "abc"),
        sol(H20, "803497"),
    ];
    assert_eq!(submit(&mut app, "s1", j, sols), SubmittionResponsePacket::Accepted);
    assert_eq!(app.submitters[0].accepted_shares_count, 0);
    assert!(app.hashes.is_empty());
}

#[test]
fn validation_errors() {
    let expected = String::from(H20);
    assert_eq!(validate_solution(&sol("0000", "1"), &expected), Err(SolutionError::MalformedHash));
    assert_eq!(validate_solution(&sol("zz", "1"), &expected), Err(SolutionError::MalformedHash));
    let shallow = "00ff".to_string() + &"0".repeat(60);
    assert_eq!(validate_solution(&sol(&shallow, "1"), &expected), Err(SolutionError::BelowDifficulty));
    assert_eq!(validate_solution(&sol(H21, "1"), &expected), Err(SolutionError::HashMismatch));
    assert_eq!(validate_solution(&sol(H20, "1"), &expected), Ok(20));
    let upper = H20.to_uppercase();
    assert_eq!(validate_solution(&sol(&upper, "1"), &expected), Err(SolutionError::HashMismatch));
}

#[test]
fn status_counts() {
    let mut app = empty_pool();
    let j = request(&mut app, "s1", "m1", 0);
    submit(&mut app, "s1", j, vec![sol(H20, "803496")]);
    request(&mut app, "s1", "m1", 1);
    request(&mut app, "s2", "m1", 1);
    let st = status(&mut app, "s1");
    assert_eq!(st.user_total_shares, 1);
    assert_eq!(st.pool_total_shares, 1);
    assert_eq!(st.pool_best_zero_length, 20);
    assert_eq!(st.completed_jobs, 1);
    assert_eq!(st.user_total_hash_rate, 0);
    let fresh = status(&mut app, "s3");
    assert_eq!(fresh.user_total_shares, 0);
    assert_eq!(app.submitters.len(), 3);
}

#[test]
fn status_of_empty_pool() {
    let mut app = empty_pool();
    let st = status(&mut app, "s1");
    assert_eq!(st.pool_best_zero_length, 0);
    assert_eq!(st.completed_jobs, 0);
    assert_eq!(st.pool_total_shares, 0);
}

#[test]
fn submit_hash_deduplicates() {
    let mut app = empty_pool();
    assert_eq!(app.submit_hash(&String::from("aa")), HashSubmittion::Accepted);
    assert_eq!(app.submit_hash(&String::from("bb")), HashSubmittion::Accepted);
    assert_eq!(app.submit_hash(&String::from("aa")), HashSubmittion::AlreadyExists);
    assert_eq!(app.hashes, vec![String::from("aa"), String::from("bb")]);
}

#[test]
fn begin_drops_repeats() {
    let app = ApplicationData::begin(
        None,
        vec![Submitter::new("s1"), Submitter::new("s2"), Submitter::new("s1")],
        vec![String::from("h1"), String::from("h2"), String::from("h1")],
    );
    assert_eq!(app.submitters.len(), 2);
    assert_eq!(app.submitters[1].student_number, "s2");
    assert_eq!(app.hashes, vec![String::from("h1"), String::from("h2")]);
}

#[test]
fn submitter_from_reuses_existing() {
    let mut app = empty_pool();
    assert_eq!(app.submitter_from("s1"), 0);
    assert_eq!(app.submitter_from("s2"), 1);
    assert_eq!(app.submitter_from("s1"), 0);
}
