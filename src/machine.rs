//! Per-machine throughput histories and the range size quoted from them.

use vstd::prelude::*;

verus! {

/// Most samples kept in a rate history.
pub const HISTORY_LIMIT: usize = 100;

/// Smallest range quoted to a machine.
pub const MIN_JOB_SIZE: u64 = 1_000_000;

/// Seconds of single-thread work that a quoted range aims at.
pub const JOB_SECONDS: u64 = 30;

pub open spec fn sum_of(s: Seq<u64>) -> int
    decreases s.len(),
{
    if s.len() == 0 {
        0
    } else {
        sum_of(s.drop_last()) + s.last()
    }
}

/// Arithmetic mean of the samples, rounded down; zero without samples.
pub open spec fn mean_of(s: Seq<u64>) -> int {
    if s.len() == 0 {
        0
    } else {
        sum_of(s) / (s.len() as int)
    }
}

/// The most recent `HISTORY_LIMIT` samples.
pub open spec fn recent(s: Seq<u64>) -> Seq<u64> {
    if s.len() > HISTORY_LIMIT {
        s.subrange(s.len() - HISTORY_LIMIT, s.len() as int)
    } else {
        s
    }
}

/// Range size for a thread-rate history: `JOB_SECONDS` of work at the mean rate,
/// rounded down, capped at `u64::MAX` and at least `MIN_JOB_SIZE`.
pub open spec fn job_size_for(s: Seq<u64>) -> int {
    let work = if s.len() == 0 {
        0
    } else {
        (JOB_SECONDS as int) * sum_of(s) / (s.len() as int)
    };
    let capped = if work > u64::MAX { u64::MAX as int } else { work };
    if capped > MIN_JOB_SIZE { capped } else { MIN_JOB_SIZE as int }
}

pub proof fn lemma_sum_bounds(s: Seq<u64>)
    ensures
        0 <= sum_of(s) <= s.len() * (u64::MAX as int),
    decreases s.len(),
{
    if s.len() > 0 {
        lemma_sum_bounds(s.drop_last());
    }
}

/// `after` is `before` with one more sample of each rate, trimmed and recomputed.
pub open spec fn rates_recorded(before: Machine, after: Machine, thread_rate: u64, total_rate: u64) -> bool {
    &&& after.wf()
    &&& after.name == before.name
    &&& after.online == before.online
    &&& after.reported_thread_hashrate_history@ == recent(
        before.reported_thread_hashrate_history@.push(thread_rate),
    )
    &&& after.reported_total_hashrate_history@ == recent(
        before.reported_total_hashrate_history@.push(total_rate),
    )
}

/// After a sample is recorded, each history holds at most `HISTORY_LIMIT` samples and
/// each reported rate is the mean of its history.
pub proof fn lemma_recorded_rates_are_means(
    before: Machine,
    after: Machine,
    thread_rate: u64,
    total_rate: u64,
)
    requires
        rates_recorded(before, after, thread_rate, total_rate),
    ensures
        after.reported_thread_hashrate_history@.len() <= HISTORY_LIMIT,
        after.reported_total_hashrate_history@.len() <= HISTORY_LIMIT,
        after.reported_thread_hashrate == mean_of(after.reported_thread_hashrate_history@),
        after.reported_total_hashrate == mean_of(after.reported_total_hashrate_history@),
        after.reported_thread_hashrate_history@.last() == thread_rate,
        after.reported_total_hashrate_history@.last() == total_rate,
{
}

/// Throughput record of one named machine of a submitter.
#[derive(Debug, Clone)]
pub struct Machine {
    pub name: String,
    pub reported_thread_hashrate: u64,
    pub reported_thread_hashrate_history: Vec<u64>,
    pub reported_total_hashrate: u64,
    pub reported_total_hashrate_history: Vec<u64>,
    pub calculated_job_size: u64,
    pub online: bool,
}

impl Machine {
    /// Histories are bounded, each rate is the mean of its history, and the quoted
    /// size follows from the thread rate.
    pub open spec fn wf(&self) -> bool {
        &&& self.reported_thread_hashrate_history@.len() <= HISTORY_LIMIT
        &&& self.reported_total_hashrate_history@.len() <= HISTORY_LIMIT
        &&& self.reported_thread_hashrate == mean_of(self.reported_thread_hashrate_history@)
        &&& self.reported_total_hashrate == mean_of(self.reported_total_hashrate_history@)
        &&& self.calculated_job_size == job_size_for(self.reported_thread_hashrate_history@)
    }

    /// A machine with no samples, online, quoted the smallest range.
    pub fn new(name: &str) -> (m: Machine)
        ensures
            m.wf(),
            m.name@ == name@,
            m.reported_thread_hashrate_history@.len() == 0,
            m.reported_total_hashrate_history@.len() == 0,
            m.calculated_job_size == MIN_JOB_SIZE,
            m.online,
    {
        Machine {
            name: name.to_string(),
            reported_thread_hashrate: 0,
            reported_thread_hashrate_history: Vec::new(),
            reported_total_hashrate: 0,
            reported_total_hashrate_history: Vec::new(),
            calculated_job_size: MIN_JOB_SIZE,
            online: true,
        }
    }

    /// Brings the record back to its invariant: keeps the most recent samples of each
    /// history and recomputes the rates and the quoted size from them.
    pub fn restore(&mut self)
        ensures
            final(self).wf(),
            final(self).name == old(self).name,
            final(self).online == old(self).online,
            final(self).reported_thread_hashrate_history@ == recent(
                old(self).reported_thread_hashrate_history@,
            ),
            final(self).reported_total_hashrate_history@ == recent(
                old(self).reported_total_hashrate_history@,
            ),
    {
        trim_history(&mut self.reported_thread_hashrate_history);
        trim_history(&mut self.reported_total_hashrate_history);
        self.reported_thread_hashrate = history_mean(&self.reported_thread_hashrate_history);
        self.reported_total_hashrate = history_mean(&self.reported_total_hashrate_history);
        self.calculated_job_size = history_job_size(&self.reported_thread_hashrate_history);
    }

    /// Marks the machine online or offline.
    pub fn set_online(&mut self, online: bool)
        ensures
            *final(self) == (Machine { online, ..*old(self) }),
    {
        self.online = online;
    }

    /// Records one sample of each rate, dropping the oldest beyond the limit.
    pub fn record_rates(&mut self, thread_rate: u64, total_rate: u64)
        ensures
            rates_recorded(*old(self), *final(self), thread_rate, total_rate),
    {
        self.reported_thread_hashrate_history.push(thread_rate);
        self.reported_total_hashrate_history.push(total_rate);
        self.restore();
    }
}

fn trim_history(h: &mut Vec<u64>)
    ensures
        final(h)@ == recent(old(h)@),
{
    let ghost start = h@;
    while h.len() > HISTORY_LIMIT
        invariant
            h@.len() >= HISTORY_LIMIT ==> recent(start) == recent(h@),
            h@.len() < HISTORY_LIMIT ==> h@ == start,
            h@.len() >= HISTORY_LIMIT || h@ == start,
        decreases h@.len(),
    {
        let ghost before = h@;
        h.remove(0);
        assert(recent(h@) =~= recent(before));
    }
}

fn history_sum(h: &Vec<u64>) -> (r: u128)
    requires
        h@.len() <= HISTORY_LIMIT,
    ensures
        r == sum_of(h@),
{
    let mut total: u128 = 0;
    let mut i: usize = 0;
    while i < h.len()
        invariant
            h@.len() <= HISTORY_LIMIT,
            i <= h@.len(),
            total == sum_of(h@.subrange(0, i as int)),
        decreases h@.len() - i,
    {
        proof {
            lemma_sum_bounds(h@.subrange(0, i as int));
            assert(h@.subrange(0, i + 1).drop_last() =~= h@.subrange(0, i as int));
        }
        total = total + h[i] as u128;
        i = i + 1;
    }
    assert(h@.subrange(0, i as int) =~= h@);
    total
}

fn history_mean(h: &Vec<u64>) -> (r: u64)
    requires
        h@.len() <= HISTORY_LIMIT,
    ensures
        r == mean_of(h@),
{
    let n = h.len();
    if n == 0 {
        return 0;
    }
    let total = history_sum(h);
    proof {
        lemma_sum_bounds(h@);
        let m = u64::MAX as int;
        let len = n as int;
        assert(sum_of(h@) / len <= m) by (nonlinear_arith)
            requires sum_of(h@) <= len * m, len > 0, m > 0;
        assert(sum_of(h@) / len >= 0) by (nonlinear_arith)
            requires sum_of(h@) >= 0, len > 0;
    }
    (total / (n as u128)) as u64
}

fn history_job_size(h: &Vec<u64>) -> (r: u64)
    requires
        h@.len() <= HISTORY_LIMIT,
    ensures
        r == job_size_for(h@),
{
    let n = h.len();
    let work: u128 = if n == 0 {
        0
    } else {
        let total = history_sum(h);
        proof {
            lemma_sum_bounds(h@);
            assert(total <= 100 * (u64::MAX as int)) by (nonlinear_arith)
                requires total <= n * (u64::MAX as int), n <= 100;
            assert((JOB_SECONDS as int) * total <= u128::MAX);
        }
        (JOB_SECONDS as u128) * total / (n as u128)
    };
    let capped: u64 = if work > u64::MAX as u128 { u64::MAX } else { work as u64 };
    if capped > MIN_JOB_SIZE { capped } else { MIN_JOB_SIZE }
}

} // verus!
