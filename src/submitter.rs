//! Per-student lease state machine: issuing, reclaiming and consuming nonce ranges.

use crate::machine::{rates_recorded, Machine, MIN_JOB_SIZE};
use crate::packets::{Job, SubmittionPacket};
use vstd::prelude::*;
use vstd::string::StringExecFns;

verus! {

/// Milliseconds after which an unreturned lease is reclaimed.
pub const LEASE_TIMEOUT_MS: u64 = 600_000;

/// A leased range as the server keeps it; `quote_time` is in milliseconds since the epoch.
#[derive(Debug, Clone, Copy, PartialEq, Eq, Structural)]
pub struct StoredJob {
    pub number: u64,
    pub size: u64,
    pub nounce_start: u64,
    pub nounce_end: u64,
    pub quote_time: u64,
}

impl StoredJob {
    pub open spec fn view_job(self) -> Job {
        Job {
            number: self.number,
            size: self.size,
            nounce_start: self.nounce_start,
            nounce_end: self.nounce_end,
        }
    }

    /// The public view of the lease.
    pub fn job(&self) -> (r: Job)
        ensures
            r == self.view_job(),
    {
        Job {
            number: self.number,
            size: self.size,
            nounce_start: self.nounce_start,
            nounce_end: self.nounce_end,
        }
    }

    /// A range below the cursors: ordered ends, `size` its width.
    pub open spec fn wf_below(self, next_job_number: u64, next_nonce: u64) -> bool {
        &&& self.nounce_start <= self.nounce_end <= next_nonce
        &&& self.size == self.nounce_end - self.nounce_start
        &&& self.number < next_job_number
    }
}

/// A lease older than the timeout at time `now`; exactly the timeout is not stale.
pub open spec fn is_stale(j: StoredJob, now: u64) -> bool {
    now as int - j.quote_time as int > LEASE_TIMEOUT_MS as int
}

/// The leases that the aging sweep keeps, in their order.
pub open spec fn survivors(p: Seq<StoredJob>, now: u64) -> Seq<StoredJob>
    decreases p.len(),
{
    if p.len() == 0 {
        p
    } else if is_stale(p.last(), now) {
        survivors(p.drop_last(), now)
    } else {
        survivors(p.drop_last(), now).push(p.last())
    }
}

/// The leases that the aging sweep reclaims, last one first.
pub open spec fn reclaimed(p: Seq<StoredJob>, now: u64) -> Seq<StoredJob>
    decreases p.len(),
{
    if p.len() == 0 {
        p
    } else if is_stale(p.last(), now) {
        seq![p.last()] + reclaimed(p.drop_last(), now)
    } else {
        reclaimed(p.drop_last(), now)
    }
}

pub proof fn lemma_sweep_members(p: Seq<StoredJob>, now: u64)
    ensures
        forall|x: StoredJob| #[trigger] survivors(p, now).contains(x) ==> p.contains(x),
        forall|x: StoredJob| #[trigger] reclaimed(p, now).contains(x) ==> p.contains(x),
    decreases p.len(),
{
    if p.len() > 0 {
        lemma_sweep_members(p.drop_last(), now);
        let s = survivors(p.drop_last(), now);
        let r = reclaimed(p.drop_last(), now);
        assert forall|x: StoredJob| #[trigger] survivors(p, now).contains(x) implies p.contains(x) by {
            if !is_stale(p.last(), now) && x != p.last() {
                let i = choose|i: int| 0 <= i < s.len() + 1 && s.push(p.last())[i] == x;
                assert(s.contains(x)) by { assert(s[i] == x); }
            }
            if x == p.last() {
                assert(p[p.len() - 1] == x);
            } else {
                let q = p.drop_last();
                let k = choose|k: int| 0 <= k < q.len() && q[k] == x;
                assert(p[k] == x);
            }
        }
        assert forall|x: StoredJob| #[trigger] reclaimed(p, now).contains(x) implies p.contains(x) by {
            if is_stale(p.last(), now) && x != p.last() {
                let i = choose|i: int| 0 <= i < r.len() + 1 && (seq![p.last()] + r)[i] == x;
                assert(r.contains(x)) by { assert(r[i - 1] == x); }
            }
            if x == p.last() {
                assert(p[p.len() - 1] == x);
            } else {
                let q = p.drop_last();
                let k = choose|k: int| 0 <= k < q.len() && q[k] == x;
                assert(p[k] == x);
            }
        }
    }
}

/// What a newly created machine record holds.
pub open spec fn fresh_machine(m: Machine, name: Seq<char>) -> bool {
    &&& m.wf()
    &&& m.name@ == name
    &&& m.reported_thread_hashrate_history@.len() == 0
    &&& m.reported_total_hashrate_history@.len() == 0
    &&& m.calculated_job_size == MIN_JOB_SIZE
    &&& m.online
}

/// `i` is the first machine named `name` in `before`, and `after` is `before`; or there
/// is none, and `after` is `before` with a new machine of that name at `i`.
pub open spec fn machine_located(
    before: Seq<Machine>,
    after: Seq<Machine>,
    name: Seq<char>,
    i: int,
) -> bool {
    &&& 0 <= i <= before.len()
    &&& i < after.len()
    &&& after[i].name@ == name
    &&& forall|j: int| 0 <= j < i ==> (#[trigger] before[j]).name@ != name
    &&& i < before.len() ==> after == before
    &&& i == before.len() ==> after == before.push(after[i]) && fresh_machine(after[i], name)
}

pub open spec fn total_rate_sum(ms: Seq<Machine>) -> int
    decreases ms.len(),
{
    if ms.len() == 0 {
        0
    } else {
        total_rate_sum(ms.drop_last()) + ms.last().reported_total_hashrate
    }
}

pub proof fn lemma_total_rate_bounds(ms: Seq<Machine>)
    ensures
        0 <= total_rate_sum(ms) <= ms.len() * (u64::MAX as int),
    decreases ms.len(),
{
    if ms.len() > 0 {
        lemma_total_rate_bounds(ms.drop_last());
    }
}

/// Size quoted to the first machine with the given name; the initial size when there is
/// none, as a new machine gets.
pub open spec fn quoted_size(ms: Seq<Machine>, name: Seq<char>) -> u64
    decreases ms.len(),
{
    if ms.len() == 0 {
        MIN_JOB_SIZE
    } else if ms[0].name@ == name {
        ms[0].calculated_job_size
    } else {
        quoted_size(ms.drop_first(), name)
    }
}

proof fn lemma_quoted_size(ms: Seq<Machine>, name: Seq<char>, i: int)
    requires
        0 <= i <= ms.len(),
        forall|j: int| 0 <= j < i ==> (#[trigger] ms[j]).name@ != name,
        i < ms.len() ==> ms[i].name@ == name,
    ensures
        quoted_size(ms, name) == if i < ms.len() {
            ms[i].calculated_job_size
        } else {
            MIN_JOB_SIZE
        },
    decreases i,
{
    if i > 0 {
        let t = ms.drop_first();
        assert forall|j: int| 0 <= j < i - 1 implies (#[trigger] t[j]).name@ != name by {
            assert(t[j] == ms[j + 1]);
        }
        assert(ms[0].name@ != name);
        lemma_quoted_size(t, name, i - 1);
    }
}

/// The part of `job` past `reported_end`, queued under a new number.
pub open spec fn remainder_job(job: Job, reported_end: u64, number: u64, now: u64) -> StoredJob {
    StoredJob {
        number,
        size: (job.nounce_end - reported_end) as u64,
        nounce_start: reported_end,
        nounce_end: job.nounce_end,
        quote_time: now,
    }
}

/// `after` is `before` once a submission for `job` has been booked: the unreturned tail
/// queued, `credited` shares added (saturating), and the machine's rates recorded.
pub open spec fn settled(
    before: Submitter,
    after: Submitter,
    job: Job,
    packet: SubmittionPacket,
    now: u64,
    credited: nat,
) -> bool {
    &&& after.student_number == before.student_number
    &&& after.next_nounce == before.next_nounce
    &&& if packet.nounce_end < job.nounce_end {
        &&& after.unfinished_jobs@ == before.unfinished_jobs@.push(
            remainder_job(job, packet.nounce_end, before.next_job_number, now),
        )
        &&& after.next_job_number == before.next_job_number + 1
    } else {
        &&& after.unfinished_jobs@ == before.unfinished_jobs@
        &&& after.next_job_number == before.next_job_number
    }
    &&& after.accepted_shares_count == if before.accepted_shares_count + credited > u64::MAX {
        u64::MAX as int
    } else {
        before.accepted_shares_count + credited
    }
    &&& exists|mid: Seq<Machine>, m: int|
        machine_located(before.machines@, mid, packet.name@, m) && after.machines@ == mid.update(
            m,
            after.machines@[m],
        ) && rates_recorded(mid[m], after.machines@[m], packet.thread_hashes_per_second, packet.total_hashes_per_second)
}

/// `after` and `r` are what issuing a lease for machine `name` at time `now` makes of
/// `before`.
pub open spec fn lease_issued(
    before: Submitter,
    after: Submitter,
    name: Seq<char>,
    now: u64,
    r: Option<Job>,
) -> bool {
    &&& after.student_number == before.student_number
    &&& after.accepted_shares_count == before.accepted_shares_count
    &&& after.next_job_number >= before.next_job_number
    &&& after.next_nounce >= before.next_nounce
    &&& before.wf() ==> after.wf()
    // Re-issue of the most recently queued unfinished range.
    &&& before.swept_unfinished(now).len() > 0 ==> {
        let u = before.swept_unfinished(now);
        &&& r == Some(u.last().view_job())
        &&& after.pending_jobs@ == before.swept_pending(now).push(
            StoredJob { quote_time: now, ..u.last() },
        )
        &&& after.unfinished_jobs@ == u.drop_last()
        &&& after.next_job_number == before.next_job_number
        &&& after.next_nounce == before.next_nounce
        &&& after.machines@ == before.machines@
    }
    // A fresh range at the cursor.
    &&& before.swept_unfinished(now).len() == 0 ==> {
        let n = before.next_job_number;
        let start = before.next_nounce;
        let size = quoted_size(before.machines@, name);
        &&& after.unfinished_jobs@.len() == 0
        &&& after.machines@ == before.machines@ || (after.machines@
            == before.machines@.push(after.machines@.last()) && fresh_machine(
            after.machines@.last(),
            name,
        ))
        &&& if n < u64::MAX && start + size <= u64::MAX {
            &&& r == Some(
                Job { number: n, size, nounce_start: start, nounce_end: (start + size) as u64 },
            )
            &&& after.next_job_number == n + 1
            &&& after.next_nounce == start + size
            &&& after.pending_jobs@ == before.swept_pending(now).push(
                StoredJob {
                    number: n,
                    size,
                    nounce_start: start,
                    nounce_end: (start + size) as u64,
                    quote_time: now,
                },
            )
        } else {
            &&& r is None
            &&& after.next_job_number == n
            &&& after.next_nounce == start
            &&& after.pending_jobs@ == before.swept_pending(now)
        }
    }
}

/// `after` is `before` with the named machine, located or created, set online or offline.
pub open spec fn online_set(before: Seq<Machine>, after: Seq<Machine>, name: Seq<char>, online: bool) -> bool {
    exists|mid: Seq<Machine>, m: int|
        machine_located(before, mid, name, m) && after == mid.update(m, Machine { online, ..mid[m] })
}

/// A lease issued to a well-formed submitter is either a range that it already held,
/// re-issued with the same endpoints, or a fresh range at the nonce cursor, which lies
/// above every range held before and ends at the new cursor.
pub proof fn lemma_issued_range_unique(
    before: Submitter,
    after: Submitter,
    name: Seq<char>,
    now: u64,
    job: Job,
)
    requires
        before.wf(),
        lease_issued(before, after, name, now, Some(job)),
    ensures
        (exists|i: int|
            0 <= i < before.pending_jobs@.len() && (#[trigger] before.pending_jobs@[i]).view_job()
                == job) || (exists|i: int|
            0 <= i < before.unfinished_jobs@.len() && (#[trigger] before.unfinished_jobs@[i]).view_job()
                == job) || ({
            &&& job.nounce_start == before.next_nounce
            &&& job.nounce_end == after.next_nounce
            &&& forall|i: int|
                0 <= i < before.pending_jobs@.len() ==> (#[trigger] before.pending_jobs@[i]).nounce_end
                    <= job.nounce_start
            &&& forall|i: int|
                0 <= i < before.unfinished_jobs@.len() ==> (#[trigger] before.unfinished_jobs@[i]).nounce_end
                    <= job.nounce_start
        }),
{
    let u = before.swept_unfinished(now);
    if u.len() > 0 {
        lemma_sweep_members(before.pending_jobs@, now);
        let x = u.last();
        if u.len() - 1 < before.unfinished_jobs@.len() {
            assert(before.unfinished_jobs@[u.len() - 1] == x);
        } else {
            let k = u.len() - 1 - before.unfinished_jobs@.len();
            assert(reclaimed(before.pending_jobs@, now)[k] == x);
            assert(reclaimed(before.pending_jobs@, now).contains(x));
            let i = choose|i: int| 0 <= i < before.pending_jobs@.len() && before.pending_jobs@[i] == x;
            assert(before.pending_jobs@[i].view_job() == job);
        }
    }
}

/// The tail that a partial submission queues lies inside the consumed lease, whenever the
/// reported end is not below the lease's start, and carries a number above every number
/// held before.
pub proof fn lemma_remainder_within_lease(
    before: Submitter,
    after: Submitter,
    job: Job,
    packet: SubmittionPacket,
    now: u64,
    credited: nat,
)
    requires
        before.wf(),
        settled(before, after, job, packet, now, credited),
        packet.nounce_end < job.nounce_end,
        job.nounce_start <= packet.nounce_end,
    ensures
        after.unfinished_jobs@.len() == before.unfinished_jobs@.len() + 1,
        ({
            let t = after.unfinished_jobs@.last();
            &&& job.nounce_start <= t.nounce_start
            &&& t.nounce_start < t.nounce_end
            &&& t.nounce_end == job.nounce_end
            &&& t.size == t.nounce_end - t.nounce_start
            &&& forall|i: int|
                0 <= i < before.pending_jobs@.len() ==> (#[trigger] before.pending_jobs@[i]).number
                    < t.number
            &&& forall|i: int|
                0 <= i < before.unfinished_jobs@.len() ==> (#[trigger] before.unfinished_jobs@[i]).number
                    < t.number
        }),
{
}

/// Issuing a lease never moves either cursor back.
pub proof fn lemma_issue_cursors_monotonic(
    before: Submitter,
    after: Submitter,
    name: Seq<char>,
    now: u64,
    r: Option<Job>,
)
    requires
        lease_issued(before, after, name, now, r),
    ensures
        after.next_job_number >= before.next_job_number,
        after.next_nounce >= before.next_nounce,
{
}

/// Booking a submission keeps the nonce cursor and never moves the job-number cursor
/// back.
pub proof fn lemma_settle_cursors_monotonic(
    before: Submitter,
    after: Submitter,
    job: Job,
    packet: SubmittionPacket,
    now: u64,
    credited: nat,
)
    requires
        settled(before, after, job, packet, now, credited),
    ensures
        after.next_job_number >= before.next_job_number,
        after.next_nounce == before.next_nounce,
{
}

/// A fresh lease, returned in full with no solutions, leaves the nonce cursor where the
/// request put it, the pending leases as many as before the request, and the unfinished
/// queue as it was.
pub proof fn lemma_request_then_full_submit(
    s0: Submitter,
    s1: Submitter,
    s2: Submitter,
    s3: Submitter,
    name: Seq<char>,
    now: u64,
    job: Job,
    k: int,
    packet: SubmittionPacket,
    later: u64,
)
    requires
        s0.wf(),
        s0.swept_unfinished(now).len() == 0,
        s0.swept_pending(now) == s0.pending_jobs@,
        lease_issued(s0, s1, name, now, Some(job)),
        0 <= k < s1.pending_jobs@.len(),
        s1.pending_jobs@[k].number == job.number,
        forall|j: int| 0 <= j < k ==> (#[trigger] s1.pending_jobs@[j]).number != job.number,
        s2.pending_jobs@ == s1.pending_jobs@.remove(k),
        s2.next_nounce == s1.next_nounce,
        s2.next_job_number == s1.next_job_number,
        s2.unfinished_jobs@ == s1.unfinished_jobs@,
        packet.nounce_end == job.nounce_end,
        settled(s2, s3, s1.pending_jobs@[k].view_job(), packet, later, 0),
        s3.pending_jobs@ == s2.pending_jobs@,
    ensures
        k == s1.pending_jobs@.len() - 1,
        s3.next_nounce == s1.next_nounce,
        s3.pending_jobs@ == s0.pending_jobs@,
        s3.unfinished_jobs@ == s0.unfinished_jobs@,
{
    let n = s0.pending_jobs@.len();
    assert(s1.pending_jobs@[n as int].number == s0.next_job_number);
    if k < n {
        assert(s1.pending_jobs@[k] == s0.pending_jobs@[k]);
        assert(s0.pending_jobs@[k].wf_below(s0.next_job_number, s0.next_nounce));
    }
    assert(s2.pending_jobs@ =~= s0.pending_jobs@);
}

/// Per-student state: cursors over job numbers and nonces, leases, and machines.
#[derive(Debug)]
pub struct Submitter {
    pub student_number: String,
    pub next_job_number: u64,
    pub next_nounce: u64,
    pub pending_jobs: Vec<StoredJob>,
    pub unfinished_jobs: Vec<StoredJob>,
    pub accepted_shares_count: u64,
    pub machines: Vec<Machine>,
}

impl Submitter {
    /// Every held lease lies below the cursors.
    pub open spec fn leases_wf(&self) -> bool {
        &&& forall|i: int|
            0 <= i < self.pending_jobs@.len() ==> (#[trigger] self.pending_jobs@[i]).wf_below(
                self.next_job_number,
                self.next_nounce,
            )
        &&& forall|i: int|
            0 <= i < self.unfinished_jobs@.len() ==> (#[trigger] self.unfinished_jobs@[i]).wf_below(
                self.next_job_number,
                self.next_nounce,
            )
    }

    /// Machine records keep their invariant and are unique by name.
    pub open spec fn machines_wf(&self) -> bool {
        &&& forall|i: int| 0 <= i < self.machines@.len() ==> (#[trigger] self.machines@[i]).wf()
        &&& forall|i: int, j: int|
            0 <= i < j < self.machines@.len() ==> (#[trigger] self.machines@[i]).name@
                != (#[trigger] self.machines@[j]).name@
    }

    pub open spec fn wf(&self) -> bool {
        self.leases_wf() && self.machines_wf()
    }

    /// What a newly created submitter holds.
    pub open spec fn is_fresh(&self, student_number: Seq<char>) -> bool {
        &&& self.wf()
        &&& self.student_number@ == student_number
        &&& self.next_job_number == 0
        &&& self.next_nounce == 0
        &&& self.pending_jobs@.len() == 0
        &&& self.unfinished_jobs@.len() == 0
        &&& self.accepted_shares_count == 0
        &&& self.machines@.len() == 0
    }

    /// Sets the online flag of the named machine, creating the machine if needed.
    pub fn set_online(&mut self, name: &str, online: bool)
        ensures
            final(self).student_number == old(self).student_number,
            final(self).next_job_number == old(self).next_job_number,
            final(self).next_nounce == old(self).next_nounce,
            final(self).pending_jobs@ == old(self).pending_jobs@,
            final(self).unfinished_jobs@ == old(self).unfinished_jobs@,
            final(self).accepted_shares_count == old(self).accepted_shares_count,
            online_set(old(self).machines@, final(self).machines@, name@, online),
            old(self).wf() ==> final(self).wf(),
    {
        let m = self.get_machine(name);
        let ghost mid = self.machines@;
        self.machines[m].set_online(online);
        proof {
            assert(self.machines@ =~= mid.update(m as int, Machine { online, ..mid[m as int] }));
            assert(machine_located(old(self).machines@, mid, name@, m as int));
            if old(self).wf() {
                assert forall|i: int| 0 <= i < self.machines@.len() implies (#[trigger] self.machines@[i]).wf() by {
                    if i != m {
                        assert(self.machines@[i] == mid[i]);
                    }
                }
                assert forall|i: int, j: int|
                    0 <= i < j < self.machines@.len() implies (#[trigger] self.machines@[i]).name@
                        != (#[trigger] self.machines@[j]).name@ by {
                    assert(mid[i].name@ != mid[j].name@);
                }
            }
        }
    }

    /// A submitter with no leases, no machines and both cursors at zero.
    pub fn new(student_number: &str) -> (s: Submitter)
        ensures
            s.is_fresh(student_number@),
    {
        Submitter {
            student_number: student_number.to_string(),
            next_job_number: 0,
            next_nounce: 0,
            pending_jobs: Vec::new(),
            unfinished_jobs: Vec::new(),
            accepted_shares_count: 0,
            machines: Vec::new(),
        }
    }

    /// Index of the first machine with the given name; a new machine is appended when
    /// there is none.
    pub fn get_machine(&mut self, name: &str) -> (i: usize)
        ensures
            machine_located(old(self).machines@, final(self).machines@, name@, i as int),
            final(self).student_number == old(self).student_number,
            final(self).next_job_number == old(self).next_job_number,
            final(self).next_nounce == old(self).next_nounce,
            final(self).pending_jobs@ == old(self).pending_jobs@,
            final(self).unfinished_jobs@ == old(self).unfinished_jobs@,
            final(self).accepted_shares_count == old(self).accepted_shares_count,
            old(self).machines_wf() ==> final(self).machines_wf(),
    {
        let wanted = String::from_str(name);
        let mut i: usize = 0;
        while i < self.machines.len()
            invariant
                *self == *old(self),
                wanted@ == name@,
                i <= self.machines@.len(),
                forall|j: int| 0 <= j < i ==> (#[trigger] self.machines@[j]).name@ != name@,
            decreases self.machines@.len() - i,
        {
            if self.machines[i].name == wanted {
                return i;
            }
            i = i + 1;
        }
        let m = Machine::new(name);
        self.machines.push(m);
        i
    }

    /// Takes the first pending lease with the given number out of `pending_jobs`.
    pub fn pop_pending_job(&mut self, number: u64) -> (r: Result<Job, ()>)
        ensures
            r is Ok <==> exists|i: int|
                0 <= i < old(self).pending_jobs@.len() && (#[trigger] old(
                    self,
                ).pending_jobs@[i]).number == number,
            r is Err ==> *final(self) == *old(self),
            r matches Ok(j) ==> exists|i: int|
                0 <= i < old(self).pending_jobs@.len() && (#[trigger] old(
                    self,
                ).pending_jobs@[i]).number == number && (forall|k: int|
                    0 <= k < i ==> (#[trigger] old(self).pending_jobs@[k]).number != number)
                    && j == old(self).pending_jobs@[i].view_job()
                    && final(self).pending_jobs@ == old(self).pending_jobs@.remove(i),
            final(self).student_number == old(self).student_number,
            final(self).next_job_number == old(self).next_job_number,
            final(self).next_nounce == old(self).next_nounce,
            final(self).unfinished_jobs@ == old(self).unfinished_jobs@,
            final(self).accepted_shares_count == old(self).accepted_shares_count,
            final(self).machines@ == old(self).machines@,
    {
        let mut i: usize = 0;
        while i < self.pending_jobs.len()
            invariant
                i <= self.pending_jobs@.len(),
                *self == *old(self),
                forall|k: int| 0 <= k < i ==> (#[trigger] self.pending_jobs@[k]).number != number,
            decreases self.pending_jobs@.len() - i,
        {
            if self.pending_jobs[i].number == number {
                let stored = self.pending_jobs.remove(i);
                return Ok(stored.job());
            }
            i = i + 1;
        }
        Err(())
    }

    /// Mean of the machines' total rates, rounded down; zero without machines.
    pub fn user_hash_rate(&self) -> (r: u64)
        ensures
            self.machines@.len() == 0 ==> r == 0,
            self.machines@.len() > 0 ==> r == total_rate_sum(self.machines@)
                / (self.machines@.len() as int),
    {
        let n = self.machines.len();
        if n == 0 {
            return 0;
        }
        let mut sum: u128 = 0;
        let mut i: usize = 0;
        while i < n
            invariant
                n == self.machines@.len(),
                i <= n,
                sum == total_rate_sum(self.machines@.subrange(0, i as int)),
            decreases n - i,
        {
            proof {
                lemma_total_rate_bounds(self.machines@.subrange(0, i as int));
                assert(self.machines@.subrange(0, i + 1).drop_last() =~= self.machines@.subrange(
                    0,
                    i as int,
                ));
                assert(i * (u64::MAX as int) + u64::MAX <= u128::MAX) by (nonlinear_arith)
                    requires i < n, n <= usize::MAX;
            }
            sum = sum + self.machines[i].reported_total_hashrate as u128;
            i = i + 1;
        }
        proof {
            assert(self.machines@.subrange(0, n as int) =~= self.machines@);
            lemma_total_rate_bounds(self.machines@);
            let m = u64::MAX as int;
            let len = n as int;
            let total = sum as int;
            assert(total / len <= m) by (nonlinear_arith)
                requires total <= len * m, len > 0, m > 0;
        }
        (sum / (n as u128)) as u64
    }

    /// Leases kept by the aging sweep at time `now`.
    pub open spec fn swept_pending(&self, now: u64) -> Seq<StoredJob> {
        survivors(self.pending_jobs@, now)
    }

    /// The unfinished queue after the aging sweep at time `now`.
    pub open spec fn swept_unfinished(&self, now: u64) -> Seq<StoredJob> {
        self.unfinished_jobs@ + reclaimed(self.pending_jobs@, now)
    }

    /// Moves every lease that is stale at `now` from `pending_jobs` to `unfinished_jobs`.
    fn sweep_stale(&mut self, now: u64)
        ensures
            final(self).pending_jobs@ == old(self).swept_pending(now),
            final(self).unfinished_jobs@ == old(self).swept_unfinished(now),
            final(self).student_number == old(self).student_number,
            final(self).next_job_number == old(self).next_job_number,
            final(self).next_nounce == old(self).next_nounce,
            final(self).accepted_shares_count == old(self).accepted_shares_count,
            final(self).machines@ == old(self).machines@,
    {
        let mut keep: Vec<StoredJob> = Vec::new();
        let mut stale: Vec<StoredJob> = Vec::new();
        let mut i: usize = 0;
        while i < self.pending_jobs.len()
            invariant
                *self == *old(self),
                i <= self.pending_jobs@.len(),
                keep@ == survivors(self.pending_jobs@.subrange(0, i as int), now),
                stale@ == reclaimed(self.pending_jobs@.subrange(0, i as int), now),
            decreases self.pending_jobs@.len() - i,
        {
            let job = self.pending_jobs[i];
            assert(self.pending_jobs@.subrange(0, i + 1).drop_last() =~= self.pending_jobs@.subrange(
                0,
                i as int,
            ));
            if now > job.quote_time && now - job.quote_time > LEASE_TIMEOUT_MS {
                stale.insert(0, job);
                assert(stale@ =~= seq![job] + reclaimed(
                    self.pending_jobs@.subrange(0, i as int),
                    now,
                ));
            } else {
                keep.push(job);
            }
            i = i + 1;
        }
        assert(self.pending_jobs@.subrange(0, i as int) =~= self.pending_jobs@);
        self.pending_jobs = keep;
        self.unfinished_jobs.append(&mut stale);
    }

    /// Issues a lease: first reclaims stale leases, then re-issues the last unfinished
    /// range if there is one, else cuts a fresh range at the nonce cursor sized for the
    /// named machine. `None` only when the job numbers or the nonce space run out.
    pub fn next_job(&mut self, name: &str, now: u64) -> (r: Option<Job>)
        ensures
            lease_issued(*old(self), *final(self), name@, now, r),
    {
        let ghost old_pending = self.pending_jobs@;
        self.sweep_stale(now);
        proof {
            lemma_sweep_members(old_pending, now);
        }
        if let Some(job) = self.unfinished_jobs.pop() {
            let restamped = StoredJob { quote_time: now, ..job };
            self.pending_jobs.push(restamped);
            proof {
                if old(self).wf() {
                    assert forall|i: int| 0 <= i < self.pending_jobs@.len() implies (
                    #[trigger] self.pending_jobs@[i]).wf_below(
                        self.next_job_number,
                        self.next_nounce,
                    ) by {
                        if i < self.pending_jobs@.len() - 1 {
                            assert(survivors(old_pending, now).contains(self.pending_jobs@[i]));
                        } else {
                            assert(old(self).swept_unfinished(now).last() == job);
                            let u = old(self).swept_unfinished(now);
                            if u.len() - 1 >= old(self).unfinished_jobs@.len() {
                                let k = u.len() - 1 - old(self).unfinished_jobs@.len();
                                assert(reclaimed(old_pending, now)[k] == job);
                                assert(reclaimed(old_pending, now).contains(job));
                            }
                        }
                    }
                    assert forall|i: int| 0 <= i < self.unfinished_jobs@.len() implies (
                    #[trigger] self.unfinished_jobs@[i]).wf_below(
                        self.next_job_number,
                        self.next_nounce,
                    ) by {
                        if i >= old(self).unfinished_jobs@.len() {
                            let k = i - old(self).unfinished_jobs@.len();
                            assert(reclaimed(old_pending, now)[k] == self.unfinished_jobs@[i]);
                            assert(reclaimed(old_pending, now).contains(self.unfinished_jobs@[i]));
                        }
                    }
                }
            }
            return Some(job.job());
        }
        let m = self.get_machine(name);
        proof {
            lemma_quoted_size(old(self).machines@, name@, m as int);
            if m < old(self).machines@.len() {
                assert(self.machines@[m as int] == old(self).machines@[m as int]);
            }
        }
        let size = self.machines[m].calculated_job_size;
        let number = self.next_job_number;
        let start = self.next_nounce;
        if number == u64::MAX || start > u64::MAX - size {
            proof {
                if old(self).wf() {
                    assert forall|i: int| 0 <= i < self.pending_jobs@.len() implies (
                    #[trigger] self.pending_jobs@[i]).wf_below(
                        self.next_job_number,
                        self.next_nounce,
                    ) by {
                        assert(survivors(old_pending, now).contains(self.pending_jobs@[i]));
                    }
                }
            }
            return None;
        }
        let end = start + size;
        self.next_job_number = number + 1;
        self.next_nounce = end;
        let stored = StoredJob { number, size, nounce_start: start, nounce_end: end, quote_time: now };
        self.pending_jobs.push(stored);
        proof {
            if old(self).wf() {
                assert forall|i: int| 0 <= i < self.pending_jobs@.len() implies (
                #[trigger] self.pending_jobs@[i]).wf_below(
                    self.next_job_number,
                    self.next_nounce,
                ) by {
                    if i < self.pending_jobs@.len() - 1 {
                        assert(survivors(old_pending, now).contains(self.pending_jobs@[i]));
                    }
                }
            }
        }
        Some(stored.job())
    }

    /// Books a submission for the consumed lease `job`: queues the unreturned tail
    /// `[packet.nounce_end, job.nounce_end)` under a new number, credits the shares and
    /// records the reporting machine's rates.
    pub fn settle_job(&mut self, job: &Job, packet: &SubmittionPacket, now: u64, credited: u64)
        requires
            packet.nounce_end < job.nounce_end ==> old(self).next_job_number < u64::MAX,
        ensures
            settled(*old(self), *final(self), *job, *packet, now, credited as nat),
            final(self).pending_jobs@ == old(self).pending_jobs@,
            old(self).wf() && job.nounce_end <= old(self).next_nounce ==> final(self).wf(),
    {
        if packet.nounce_end < job.nounce_end {
            let number = self.next_job_number;
            self.next_job_number = number + 1;
            let nounce_start = packet.nounce_end;
            let nounce_end = job.nounce_end;
            self.unfinished_jobs.push(
                StoredJob {
                    number,
                    size: nounce_end - nounce_start,
                    nounce_start,
                    nounce_end,
                    quote_time: now,
                },
            );
        }
        self.accepted_shares_count = self.accepted_shares_count.saturating_add(credited);
        let m = self.get_machine(&packet.name);
        let ghost mid = self.machines@;
        self.machines[m].record_rates(packet.thread_hashes_per_second, packet.total_hashes_per_second);
        proof {
            assert(self.machines@ == mid.update(m as int, self.machines@[m as int]));
            if old(self).wf() && job.nounce_end <= old(self).next_nounce {
                assert forall|i: int| 0 <= i < self.machines@.len() implies (#[trigger] self.machines@[i]).wf() by {
                    if i != m {
                        assert(self.machines@[i] == mid[i]);
                    }
                }
                assert forall|i: int, j: int|
                    0 <= i < j < self.machines@.len() implies (#[trigger] self.machines@[i]).name@
                        != (#[trigger] self.machines@[j]).name@ by {
                    assert(mid[i].name@ != mid[j].name@);
                }
            }
        }
    }
}

} // verus!
