//! The pool: submitters, the hash log, the best solution, and the operations that
//! workers invoke.

use crate::hash::{
    canonical_hash, canonical_sha256, count_leading_zero_bits, hash_to_sha256_buffer, hex_decode,
    is_hex_text, leading_zero_bits, MINIMUN_ZERO_BIT_LENGTH, SHA256_LEN,
};
use crate::packets::{
    BootRequest, CommandResponse, Job, JobRequestPacket, JobResponsePacket, PoolStatusRequestPacket,
    PoolStatusResponsePacket, ShutdownRequest, Solution, SubmittionPacket, SubmittionResponsePacket,
};
use crate::submitter::{lease_issued, online_set, settled, Submitter};
use vstd::prelude::*;
use vstd::string::StringExecFns;

verus! {

/// The highest-difficulty solution the pool has seen.
#[derive(Debug, Clone)]
pub struct BestSolution {
    pub student_number: String,
    pub job_number: u64,
    pub leading_zero_bit_length: u64,
    pub nounce: String,
    pub hash: String,
}

/// Outcome of offering a hash to the dedup log.
#[derive(Debug, Clone, Copy, PartialEq, Eq, Structural)]
pub enum HashSubmittion {
    Accepted,
    AlreadyExists,
}

/// Why a submitted solution is not counted.
#[derive(Debug, Clone, Copy, PartialEq, Eq, Structural)]
pub enum SolutionError {
    /// Not 64 hex digits.
    MalformedHash,
    /// Fewer leading zero bits than `MINIMUN_ZERO_BIT_LENGTH`.
    BelowDifficulty,
    /// Not the SHA-256 of the student number followed by the nonce.
    HashMismatch,
}

/// A solution that passed validation and was new to the dedup log.
#[derive(Debug, Clone)]
pub struct AcceptedSolution {
    pub leading_zero_bits: u64,
    pub solution: Solution,
}

pub open spec fn views(hs: Seq<String>) -> Seq<Seq<char>> {
    hs.map_values(|h: String| h@)
}

pub open spec fn distinct(s: Seq<Seq<char>>) -> bool {
    forall|i: int, j: int| 0 <= i < j < s.len() ==> s[i] != s[j]
}

/// The texts in order of first occurrence, later repeats left out.
pub open spec fn dedup(s: Seq<Seq<char>>) -> Seq<Seq<char>>
    decreases s.len(),
{
    if s.len() == 0 {
        s
    } else if dedup(s.drop_last()).contains(s.last()) {
        dedup(s.drop_last())
    } else {
        dedup(s.drop_last()).push(s.last())
    }
}

pub open spec fn has_number(subs: Seq<Submitter>, student_number: Seq<char>) -> bool {
    exists|i: int| 0 <= i < subs.len() && (#[trigger] subs[i]).student_number@ == student_number
}

/// The submitters in order, each later one with a student number seen before left out.
pub open spec fn dedup_by_number(subs: Seq<Submitter>) -> Seq<Submitter>
    decreases subs.len(),
{
    if subs.len() == 0 {
        subs
    } else if has_number(dedup_by_number(subs.drop_last()), subs.last().student_number@) {
        dedup_by_number(subs.drop_last())
    } else {
        dedup_by_number(subs.drop_last()).push(subs.last())
    }
}

/// The verdict on a submitted hash text, given the hash that the preimage has.
pub open spec fn verdict(sha256: Seq<char>, expected: Seq<char>) -> Result<u64, SolutionError> {
    if !(is_hex_text(sha256) && sha256.len() == 2 * SHA256_LEN) {
        Err(SolutionError::MalformedHash)
    } else if leading_zero_bits(hex_decode(sha256)) < MINIMUN_ZERO_BIT_LENGTH {
        Err(SolutionError::BelowDifficulty)
    } else if sha256 != expected {
        Err(SolutionError::HashMismatch)
    } else {
        Ok(leading_zero_bits(hex_decode(sha256)) as u64)
    }
}

/// The verdict on a solution submitted by a student.
pub open spec fn solution_verdict(student_number: Seq<char>, sol: Solution) -> Result<
    u64,
    SolutionError,
> {
    verdict(sol.sha256@, canonical_hash(student_number, sol.nounce@))
}

pub proof fn lemma_leading_zero_bits_bound(b: Seq<u8>)
    ensures
        leading_zero_bits(b) <= 8 * b.len(),
    decreases b.len(),
{
    if b.len() > 0 {
        lemma_leading_zero_bits_bound(b.drop_first());
    }
}

/// Judges a solution against the hash that its preimage has.
pub fn validate_solution(solution: &Solution, expected: &String) -> (r: Result<u64, SolutionError>)
    ensures
        r == verdict(solution.sha256@, expected@),
{
    let buffer = match hash_to_sha256_buffer(&solution.sha256) {
        Ok(b) => b,
        Err(_) => {
            return Err(SolutionError::MalformedHash);
        },
    };
    if buffer.len() != SHA256_LEN {
        return Err(SolutionError::MalformedHash);
    }
    let k = count_leading_zero_bits(buffer.as_slice());
    if k < MINIMUN_ZERO_BIT_LENGTH {
        return Err(SolutionError::BelowDifficulty);
    }
    if solution.sha256 != *expected {
        return Err(SolutionError::HashMismatch);
    }
    Ok(k)
}

/// Whether a solution of difficulty `k` replaces the current best.
pub open spec fn improves(best: Option<BestSolution>, k: u64) -> bool {
    match best {
        None => true,
        Some(b) => k > b.leading_zero_bit_length,
    }
}

/// The hash log, the best solution and the accepted solutions after the solutions of one
/// submission are processed in order: each one that passes validation and is new to the
/// log is logged and accepted, and replaces the best when it is strictly harder.
pub open spec fn run_solutions(
    log: Seq<Seq<char>>,
    best: Option<BestSolution>,
    student_number: String,
    job_n: u64,
    sols: Seq<Solution>,
) -> (Seq<Seq<char>>, Option<BestSolution>, Seq<AcceptedSolution>)
    decreases sols.len(),
{
    if sols.len() == 0 {
        (log, best, Seq::empty())
    } else {
        let prev = run_solutions(log, best, student_number, job_n, sols.drop_last());
        let sol = sols.last();
        match solution_verdict(student_number@, sol) {
            Ok(k) => if prev.0.contains(sol.sha256@) {
                prev
            } else {
                let new_best = if improves(prev.1, k) {
                    Some(
                        BestSolution {
                            student_number,
                            job_number: job_n,
                            leading_zero_bit_length: k,
                            nounce: sol.nounce,
                            hash: sol.sha256,
                        },
                    )
                } else {
                    prev.1
                };
                (
                    prev.0.push(sol.sha256@),
                    new_best,
                    prev.2.push(AcceptedSolution { leading_zero_bits: k, solution: sol }),
                )
            },
            Err(_) => prev,
        }
    }
}

/// `k` is the first pending lease with the given number.
pub open spec fn lease_index(pending: Seq<crate::submitter::StoredJob>, number: u64, k: int) -> bool {
    &&& 0 <= k < pending.len()
    &&& pending[k].number == number
    &&& forall|j: int| 0 <= j < k ==> (#[trigger] pending[j]).number != number
}

/// What a submission does once its submitter is located at `i` in `before`.
///
/// It is rejected, with nothing else changed, when the submitter's job numbers are used
/// up or no pending lease has the packet's number. It is rejected with the lease
/// consumed when the packet's range start differs from the lease's. Otherwise the
/// lease is consumed, the solutions are run against the log and the best, the
/// submission is booked on the submitter, and it is accepted.
pub open spec fn submission_done(
    before: Seq<Submitter>,
    old_hashes: Seq<String>,
    old_best: Option<BestSolution>,
    after: ApplicationData,
    packet: SubmittionPacket,
    now: u64,
    r: SubmitOutcome,
) -> bool {
    let i = r.submitter as int;
    let s = before[i];
    let unchanged_pool = after.hashes@ == old_hashes && after.best == old_best
        && r.accepted@.len() == 0 && !r.best_changed;
    &&& 0 <= i < before.len()
    &&& after.submitters@.len() == before.len()
    &&& forall|j: int| 0 <= j < before.len() && j != i ==> after.submitters@[j] == before[j]
    &&& if s.next_job_number == u64::MAX || !(exists|k: int| lease_index(s.pending_jobs@, packet.job_n, k)) {
        &&& r.response == SubmittionResponsePacket::Rejected
        &&& after.submitters@ == before
        &&& unchanged_pool
    } else {
        exists|k: int| {
            &&& #[trigger] lease_index(s.pending_jobs@, packet.job_n, k)
            &&& after.submitters@[i].pending_jobs@ == s.pending_jobs@.remove(k)
            &&& if s.pending_jobs@[k].nounce_start != packet.nounce_start {
                &&& r.response == SubmittionResponsePacket::Rejected
                &&& unchanged_pool
                &&& after.submitters@[i].student_number == s.student_number
                &&& after.submitters@[i].next_job_number == s.next_job_number
                &&& after.submitters@[i].next_nounce == s.next_nounce
                &&& after.submitters@[i].unfinished_jobs@ == s.unfinished_jobs@
                &&& after.submitters@[i].accepted_shares_count == s.accepted_shares_count
                &&& after.submitters@[i].machines@ == s.machines@
            } else {
                let run = run_solutions(
                    views(old_hashes),
                    old_best,
                    packet.student_number,
                    packet.job_n,
                    packet.solutions@,
                );
                &&& r.response == SubmittionResponsePacket::Accepted
                &&& after.hash_log() == run.0
                &&& after.best == run.1
                &&& r.accepted@ == run.2
                &&& r.best_changed == (after.best != old_best)
                &&& settled(
                    s,
                    after.submitters@[i],
                    s.pending_jobs@[k].view_job(),
                    packet,
                    now,
                    run.2.len(),
                )
            }
        }
    }
}

/// Sum of the submitters' accepted shares.
pub open spec fn shares_sum(subs: Seq<Submitter>) -> int
    decreases subs.len(),
{
    if subs.len() == 0 {
        0
    } else {
        shares_sum(subs.drop_last()) + subs.last().accepted_shares_count
    }
}

/// Sum of the submitters' job-number cursors.
pub open spec fn job_numbers_sum(subs: Seq<Submitter>) -> int
    decreases subs.len(),
{
    if subs.len() == 0 {
        0
    } else {
        job_numbers_sum(subs.drop_last()) + subs.last().next_job_number
    }
}

/// Number of leases that the submitters hold, pending or unfinished.
pub open spec fn held_jobs_sum(subs: Seq<Submitter>) -> int
    decreases subs.len(),
{
    if subs.len() == 0 {
        0
    } else {
        held_jobs_sum(subs.drop_last()) + subs.last().pending_jobs@.len()
            + subs.last().unfinished_jobs@.len()
    }
}

/// `x`, or `u64::MAX` when it is larger.
pub open spec fn saturated(x: int) -> int {
    if x > u64::MAX { u64::MAX as int } else { x }
}

pub proof fn lemma_sums_nonneg(subs: Seq<Submitter>)
    ensures
        shares_sum(subs) >= 0,
        job_numbers_sum(subs) >= 0,
        held_jobs_sum(subs) >= 0,
    decreases subs.len(),
{
    if subs.len() > 0 {
        lemma_sums_nonneg(subs.drop_last());
    }
}

/// Once there is a best solution, processing a submission keeps one, of no lower
/// difficulty.
pub proof fn lemma_best_monotonic(
    log: Seq<Seq<char>>,
    best: Option<BestSolution>,
    student_number: String,
    job_n: u64,
    sols: Seq<Solution>,
)
    requires
        best is Some,
    ensures
        run_solutions(log, best, student_number, job_n, sols).1 is Some,
        run_solutions(log, best, student_number, job_n, sols).1.unwrap().leading_zero_bit_length
            >= best.unwrap().leading_zero_bit_length,
    decreases sols.len(),
{
    if sols.len() > 0 {
        lemma_best_monotonic(log, best, student_number, job_n, sols.drop_last());
    }
}

/// Processing a submission only appends to the hash log; a log without repeats stays
/// without repeats, and every appended hash is the hash text of a submitted solution
/// that passed validation: the canonical hash of the student number and its nonce, of
/// at least the minimum difficulty.
pub proof fn lemma_log_holds_validated_hashes_once(
    log: Seq<Seq<char>>,
    best: Option<BestSolution>,
    student_number: String,
    job_n: u64,
    sols: Seq<Solution>,
)
    requires
        distinct(log),
    ensures
        ({
            let out = run_solutions(log, best, student_number, job_n, sols).0;
            &&& distinct(out)
            &&& log.len() <= out.len()
            &&& out.subrange(0, log.len() as int) == log
            &&& forall|i: int|
                log.len() <= i < out.len() ==> exists|j: int|
                    0 <= j < sols.len() && (#[trigger] sols[j]).sha256@ == #[trigger] out[i]
                        && solution_verdict(student_number@, sols[j]) is Ok
                        && sols[j].sha256@ == canonical_hash(student_number@, sols[j].nounce@)
                        && leading_zero_bits(hex_decode(sols[j].sha256@))
                        >= MINIMUN_ZERO_BIT_LENGTH
        }),
    decreases sols.len(),
{
    if sols.len() > 0 {
        let init = sols.drop_last();
        lemma_log_holds_validated_hashes_once(log, best, student_number, job_n, init);
        let prev = run_solutions(log, best, student_number, job_n, init).0;
        let out = run_solutions(log, best, student_number, job_n, sols).0;
        assert forall|i: int| log.len() <= i < out.len() implies exists|j: int|
            0 <= j < sols.len() && (#[trigger] sols[j]).sha256@ == #[trigger] out[i]
                && solution_verdict(student_number@, sols[j]) is Ok
                && sols[j].sha256@ == canonical_hash(student_number@, sols[j].nounce@)
                && leading_zero_bits(hex_decode(sols[j].sha256@)) >= MINIMUN_ZERO_BIT_LENGTH by {
            if i < prev.len() {
                let j = choose|j: int|
                    0 <= j < init.len() && (#[trigger] init[j]).sha256@ == #[trigger] prev[i]
                        && solution_verdict(student_number@, init[j]) is Ok
                        && init[j].sha256@ == canonical_hash(student_number@, init[j].nounce@)
                        && leading_zero_bits(hex_decode(init[j].sha256@))
                        >= MINIMUN_ZERO_BIT_LENGTH;
                assert(sols[j] == init[j]);
            } else {
                assert(sols[sols.len() - 1] == sols.last());
            }
        }
        assert(out.subrange(0, log.len() as int) =~= log) by {
            assert(prev.subrange(0, log.len() as int) == log);
        }
    }
}

/// A solution whose hash is already in the log is not accepted again, and changes
/// neither the log nor the best solution.
pub proof fn lemma_repeat_not_credited(
    log: Seq<Seq<char>>,
    best: Option<BestSolution>,
    student_number: String,
    job_n: u64,
    sol: Solution,
)
    requires
        log.contains(sol.sha256@),
    ensures
        run_solutions(log, best, student_number, job_n, seq![sol]) == (
            log,
            best,
            Seq::<AcceptedSolution>::empty(),
        ),
{
    let one = seq![sol];
    assert(one.drop_last() =~= Seq::<Solution>::empty());
    assert(one.last() == sol);
    let prev = run_solutions(log, best, student_number, job_n, one.drop_last());
    assert(prev == (log, best, Seq::<AcceptedSolution>::empty()));
    assert(prev.0.contains(sol.sha256@));
}

/// `i` is the first submitter with the student number in `before`, and `after` is
/// `before`; or there is none, and `after` is `before` with a new submitter at `i`.
pub open spec fn submitter_located(
    before: Seq<Submitter>,
    after: Seq<Submitter>,
    student_number: Seq<char>,
    i: int,
) -> bool {
    &&& 0 <= i <= before.len()
    &&& i < after.len()
    &&& after[i].student_number@ == student_number
    &&& forall|j: int| 0 <= j < i ==> (#[trigger] before[j]).student_number@ != student_number
    &&& i < before.len() ==> after == before
    &&& i == before.len() ==> after == before.push(after[i]) && after[i].is_fresh(student_number)
}

/// `after` differs from `before` at most in its machines.
pub open spec fn same_but_machines(before: Submitter, after: Submitter) -> bool {
    &&& after.student_number == before.student_number
    &&& after.next_job_number == before.next_job_number
    &&& after.next_nounce == before.next_nounce
    &&& after.pending_jobs@ == before.pending_jobs@
    &&& after.unfinished_jobs@ == before.unfinished_jobs@
    &&& after.accepted_shares_count == before.accepted_shares_count
}

/// The result of a submission: the response, the submitter's index, the solutions
/// accepted, and whether the best solution changed.
#[derive(Debug)]
pub struct SubmitOutcome {
    pub response: SubmittionResponsePacket,
    pub submitter: usize,
    pub accepted: Vec<AcceptedSolution>,
    pub best_changed: bool,
}

/// The pool: submitters, the best solution, and the log of accepted hashes.
#[derive(Debug)]
pub struct ApplicationData {
    pub submitters: Vec<Submitter>,
    pub best: Option<BestSolution>,
    pub hashes: Vec<String>,
}

impl ApplicationData {
    pub open spec fn hash_log(&self) -> Seq<Seq<char>> {
        views(self.hashes@)
    }

    /// Submitters are unique by student number and well formed.
    pub open spec fn submitters_wf(&self) -> bool {
        &&& forall|i: int, j: int|
            0 <= i < j < self.submitters@.len() ==> (#[trigger] self.submitters@[i]).student_number@
                != (#[trigger] self.submitters@[j]).student_number@
        &&& forall|i: int| 0 <= i < self.submitters@.len() ==> (#[trigger] self.submitters@[i]).wf()
    }

    pub open spec fn wf(&self) -> bool {
        self.submitters_wf() && distinct(self.hash_log())
    }

    /// Adds a hash to the log unless it is there already.
    pub fn submit_hash(&mut self, hash: &String) -> (r: HashSubmittion)
        ensures
            (r == HashSubmittion::Accepted) == !old(self).hash_log().contains(hash@),
            r == HashSubmittion::Accepted ==> final(self).hash_log() == old(self).hash_log().push(
                hash@,
            ),
            r == HashSubmittion::AlreadyExists ==> final(self).hashes@ == old(self).hashes@,
            final(self).submitters@ == old(self).submitters@,
            final(self).best == old(self).best,
            distinct(old(self).hash_log()) ==> distinct(final(self).hash_log()),
    {
        let mut i: usize = 0;
        while i < self.hashes.len()
            invariant
                *self == *old(self),
                i <= self.hashes@.len(),
                forall|j: int| 0 <= j < i ==> (#[trigger] self.hashes@[j])@ != hash@,
            decreases self.hashes@.len() - i,
        {
            if self.hashes[i] == *hash {
                assert(self.hash_log()[i as int] == hash@);
                return HashSubmittion::AlreadyExists;
            }
            i = i + 1;
        }
        assert(!self.hash_log().contains(hash@)) by {
            if self.hash_log().contains(hash@) {
                let j = choose|j: int| 0 <= j < self.hash_log().len() && self.hash_log()[j] == hash@;
                assert(self.hashes@[j]@ == hash@);
            }
        }
        self.hashes.push(hash.clone());
        assert(self.hash_log() =~= old(self).hash_log().push(hash@));
        HashSubmittion::Accepted
    }

    /// Index of the submitter with the student number; a new one is appended when there
    /// is none.
    pub fn submitter_from(&mut self, student_number: &str) -> (i: usize)
        ensures
            submitter_located(old(self).submitters@, final(self).submitters@, student_number@, i as int),
            final(self).best == old(self).best,
            final(self).hashes@ == old(self).hashes@,
            old(self).wf() ==> final(self).wf(),
    {
        let wanted = String::from_str(student_number);
        let mut i: usize = 0;
        while i < self.submitters.len()
            invariant
                *self == *old(self),
                wanted@ == student_number@,
                i <= self.submitters@.len(),
                forall|j: int|
                    0 <= j < i ==> (#[trigger] self.submitters@[j]).student_number@ != student_number@,
            decreases self.submitters@.len() - i,
        {
            if self.submitters[i].student_number == wanted {
                return i;
            }
            i = i + 1;
        }
        let s = Submitter::new(student_number);
        self.submitters.push(s);
        i
    }

    /// The pool as loaded at startup: the first submitter of each student number, and
    /// the hash log without repeats.
    pub fn begin(best: Option<BestSolution>, loaded: Vec<Submitter>, hashes: Vec<String>) -> (r:
        ApplicationData)
        ensures
            r.best == best,
            r.submitters@ == dedup_by_number(loaded@),
            r.hash_log() == dedup(views(hashes@)),
            distinct(r.hash_log()),
    {
        let mut app = ApplicationData { submitters: Vec::new(), best, hashes: Vec::new() };
        let mut i: usize = 0;
        while i < hashes.len()
            invariant
                i <= hashes@.len(),
                app.best == best,
                app.submitters@.len() == 0,
                app.hash_log() == dedup(views(hashes@.subrange(0, i as int))),
                distinct(app.hash_log()),
            decreases hashes@.len() - i,
        {
            proof {
                assert(views(hashes@.subrange(0, i + 1)).drop_last() =~= views(
                    hashes@.subrange(0, i as int),
                ));
            }
            app.submit_hash(&hashes[i]);
            i = i + 1;
        }
        assert(hashes@.subrange(0, i as int) =~= hashes@);
        let ghost all = loaded@;
        let total = loaded.len();
        let mut rest = loaded;
        let mut k: usize = 0;
        while rest.len() > 0
            invariant
                k + rest@.len() == all.len(),
                all.len() == total,
                rest@ == all.subrange(k as int, all.len() as int),
                app.best == best,
                app.hash_log() == dedup(views(hashes@)),
                distinct(app.hash_log()),
                app.submitters@ == dedup_by_number(all.subrange(0, k as int)),
            decreases rest@.len(),
        {
            let s = rest.remove(0);
            let ghost prefix = all.subrange(0, k as int);
            assert(all.subrange(0, k + 1).drop_last() =~= prefix);
            assert(s == all[k as int]);
            let mut seen = false;
            let mut j: usize = 0;
            while j < app.submitters.len()
                invariant
                    j <= app.submitters@.len(),
                    seen == exists|t: int|
                        0 <= t < j && (#[trigger] app.submitters@[t]).student_number@ == s.student_number@,
                decreases app.submitters@.len() - j,
            {
                if app.submitters[j].student_number == s.student_number {
                    seen = true;
                }
                j = j + 1;
            }
            if !seen {
                app.submitters.push(s);
            }
            k = k + 1;
            assert(rest@ =~= all.subrange(k as int, all.len() as int));
        }
        assert(all.subrange(0, k as int) =~= all);
        app
    }

    /// Validates, deduplicates and logs the solutions of one submission in order, and
    /// keeps the best solution up to date.
    pub fn submit_solutions(
        &mut self,
        student_number: &String,
        job_n: u64,
        solutions: &Vec<Solution>,
    ) -> (r: (Vec<AcceptedSolution>, bool))
        ensures
            ({
                let run = run_solutions(
                    old(self).hash_log(),
                    old(self).best,
                    *student_number,
                    job_n,
                    solutions@,
                );
                &&& final(self).hash_log() == run.0
                &&& final(self).best == run.1
                &&& r.0@ == run.2
            }),
            r.1 == (final(self).best != old(self).best),
            final(self).submitters@ == old(self).submitters@,
            distinct(old(self).hash_log()) ==> distinct(final(self).hash_log()),
    {
        let mut accepted: Vec<AcceptedSolution> = Vec::new();
        let mut changed = false;
        let mut i: usize = 0;
        while i < solutions.len()
            invariant
                i <= solutions@.len(),
                ({
                    let run = run_solutions(
                        old(self).hash_log(),
                        old(self).best,
                        *student_number,
                        job_n,
                        solutions@.subrange(0, i as int),
                    );
                    &&& self.hash_log() == run.0
                    &&& self.best == run.1
                    &&& accepted@ == run.2
                }),
                changed == (self.best != old(self).best),
                old(self).best matches Some(b) ==> self.best matches Some(c)
                    && c.leading_zero_bit_length >= b.leading_zero_bit_length,
                self.submitters@ == old(self).submitters@,
                distinct(old(self).hash_log()) ==> distinct(self.hash_log()),
            decreases solutions@.len() - i,
        {
            let sol = &solutions[i];
            proof {
                assert(solutions@.subrange(0, i + 1).drop_last() =~= solutions@.subrange(0, i as int));
                assert(solutions@.subrange(0, i + 1).last() == *sol);
            }
            let expected = canonical_sha256(student_number, &sol.nounce);
            match validate_solution(sol, &expected) {
                Ok(k) => {
                    if self.submit_hash(&sol.sha256) == HashSubmittion::Accepted {
                        let copy = Solution {
                            sha256: sol.sha256.clone(),
                            nounce: sol.nounce.clone(),
                            time: sol.time,
                        };
                        accepted.push(AcceptedSolution { leading_zero_bits: k, solution: copy });
                        let better = match &self.best {
                            None => true,
                            Some(b) => k > b.leading_zero_bit_length,
                        };
                        if better {
                            self.best = Some(
                                BestSolution {
                                    student_number: student_number.clone(),
                                    job_number: job_n,
                                    leading_zero_bit_length: k,
                                    nounce: sol.nounce.clone(),
                                    hash: sol.sha256.clone(),
                                },
                            );
                            changed = true;
                        }
                    }
                },
                Err(_) => {},
            }
            i = i + 1;
        }
        assert(solutions@.subrange(0, i as int) =~= solutions@);
        (accepted, changed)
    }

    /// Handles a job submission: consumes the lease, checks its range, validates and logs
    /// the solutions, queues the unreturned tail, credits shares and records rates.
    pub fn job_submit(&mut self, packet: &SubmittionPacket, now: u64) -> (r: SubmitOutcome)
        ensures
            exists|mid: Seq<Submitter>|
                submitter_located(
                    old(self).submitters@,
                    mid,
                    packet.student_number@,
                    r.submitter as int,
                ) && submission_done(
                    mid,
                    old(self).hashes@,
                    old(self).best,
                    *final(self),
                    *packet,
                    now,
                    r,
                ),
            old(self).wf() ==> final(self).wf(),
    {
        let i = self.submitter_from(packet.student_number.as_str());
        let ghost mid = self.submitters@;
        let ghost mid_app = *self;
        let rejected = SubmitOutcome {
            response: SubmittionResponsePacket::Rejected,
            submitter: i,
            accepted: Vec::new(),
            best_changed: false,
        };
        if self.submitters[i].next_job_number == u64::MAX {
            assert(submission_done(mid, old(self).hashes@, old(self).best, *self, *packet, now, rejected));
            return rejected;
        }
        let popped = self.submitters[i].pop_pending_job(packet.job_n);
        let ghost s = mid[i as int];
        let job = match popped {
            Ok(j) => j,
            Err(_) => {
                proof {
                    assert(self.submitters@ =~= mid);
                    assert(!(exists|k: int| lease_index(s.pending_jobs@, packet.job_n, k)));
                    assert(submission_done(mid, old(self).hashes@, old(self).best, *self, *packet, now, rejected));
                }
                return rejected;
            },
        };
        let ghost k = choose|k: int|
            0 <= k < s.pending_jobs@.len() && (#[trigger] s.pending_jobs@[k]).number == packet.job_n
                && (forall|j: int| 0 <= j < k ==> (#[trigger] s.pending_jobs@[j]).number != packet.job_n)
                && job == s.pending_jobs@[k].view_job() && self.submitters@[i as int].pending_jobs@
                == s.pending_jobs@.remove(k);
        assert(lease_index(s.pending_jobs@, packet.job_n, k));
        proof {
            if mid_app.wf() {
                assert(s.wf());
                assert(s.pending_jobs@[k].wf_below(s.next_job_number, s.next_nounce));
                let t = self.submitters@[i as int];
                assert forall|q: int| 0 <= q < t.pending_jobs@.len() implies (
                #[trigger] t.pending_jobs@[q]).wf_below(t.next_job_number, t.next_nounce) by {
                    if q < k {
                        assert(t.pending_jobs@[q] == s.pending_jobs@[q]);
                    } else {
                        assert(t.pending_jobs@[q] == s.pending_jobs@[q + 1]);
                    }
                }
                assert(t.wf());
            }
        }
        if job.nounce_start != packet.nounce_start {
            proof {
                assert(submission_done(mid, old(self).hashes@, old(self).best, *self, *packet, now, rejected));
                if old(self).wf() {
                    assert forall|q: int| 0 <= q < self.submitters@.len() implies (
                    #[trigger] self.submitters@[q]).wf() by {
                        if q != i {
                            assert(self.submitters@[q] == mid[q]);
                        }
                    }
                }
            }
            return rejected;
        }
        let (accepted, best_changed) = self.submit_solutions(
            &packet.student_number,
            packet.job_n,
            &packet.solutions,
        );
        let credited = accepted.len() as u64;
        let ghost before_settle = self.submitters@;
        self.submitters[i].settle_job(&job, packet, now, credited);
        let r = SubmitOutcome {
            response: SubmittionResponsePacket::Accepted,
            submitter: i,
            accepted,
            best_changed,
        };
        proof {
            assert(self.submitters@ == before_settle.update(i as int, self.submitters@[i as int]));
            let after = *self;
            let pk = *packet;
            assert(lease_index(mid[r.submitter as int].pending_jobs@, pk.job_n, k));
            assert(after.submitters@[r.submitter as int].pending_jobs@ == mid[r.submitter as int].pending_jobs@.remove(k));
            assert(submission_done(mid, old(self).hashes@, old(self).best, *self, *packet, now, r));
            if old(self).wf() {
                assert forall|q: int| 0 <= q < self.submitters@.len() implies (
                #[trigger] self.submitters@[q]).wf() by {
                    if q != i {
                        assert(self.submitters@[q] == mid[q]);
                    }
                }
                assert forall|a: int, b: int|
                    0 <= a < b < self.submitters@.len() implies (#[trigger] self.submitters@[a]).student_number@
                        != (#[trigger] self.submitters@[b]).student_number@ by {
                    assert(mid[a].student_number@ != mid[b].student_number@);
                }
            }
        }
        r
    }

    /// Marks a machine online, creating its submitter and record as needed.
    pub fn boot(&mut self, request: &BootRequest) -> (r: CommandResponse)
        ensures
            r.ok && r.msg is None,
            exists|mid: Seq<Submitter>, i: int|
                submitter_located(old(self).submitters@, mid, request.student_number@, i)
                    && final(self).submitters@ == mid.update(i, final(self).submitters@[i])
                    && same_but_machines(mid[i], final(self).submitters@[i]) && online_set(
                    mid[i].machines@,
                    final(self).submitters@[i].machines@,
                    request.name@,
                    true,
                ),
            final(self).best == old(self).best,
            final(self).hashes@ == old(self).hashes@,
            old(self).wf() ==> final(self).wf(),
    {
        self.set_machine_online(request.student_number.as_str(), request.name.as_str(), true);
        CommandResponse { ok: true, msg: None }
    }

    /// Marks a machine offline, creating its submitter and record as needed.
    pub fn showdown(&mut self, request: &ShutdownRequest) -> (r: CommandResponse)
        ensures
            r.ok && r.msg is None,
            exists|mid: Seq<Submitter>, i: int|
                submitter_located(old(self).submitters@, mid, request.student_number@, i)
                    && final(self).submitters@ == mid.update(i, final(self).submitters@[i])
                    && same_but_machines(mid[i], final(self).submitters@[i]) && online_set(
                    mid[i].machines@,
                    final(self).submitters@[i].machines@,
                    request.name@,
                    false,
                ),
            final(self).best == old(self).best,
            final(self).hashes@ == old(self).hashes@,
            old(self).wf() ==> final(self).wf(),
    {
        self.set_machine_online(request.student_number.as_str(), request.name.as_str(), false);
        CommandResponse { ok: true, msg: None }
    }

    fn set_machine_online(&mut self, student_number: &str, name: &str, online: bool)
        ensures
            exists|mid: Seq<Submitter>, i: int|
                submitter_located(old(self).submitters@, mid, student_number@, i)
                    && final(self).submitters@ == mid.update(i, final(self).submitters@[i])
                    && same_but_machines(mid[i], final(self).submitters@[i]) && online_set(
                    mid[i].machines@,
                    final(self).submitters@[i].machines@,
                    name@,
                    online,
                ),
            final(self).best == old(self).best,
            final(self).hashes@ == old(self).hashes@,
            old(self).wf() ==> final(self).wf(),
    {
        let i = self.submitter_from(student_number);
        let ghost mid = self.submitters@;
        self.submitters[i].set_online(name, online);
        proof {
            assert(self.submitters@ == mid.update(i as int, self.submitters@[i as int]));
            assert(submitter_located(old(self).submitters@, mid, student_number@, i as int));
            if old(self).wf() {
                assert forall|q: int| 0 <= q < self.submitters@.len() implies (
                #[trigger] self.submitters@[q]).wf() by {
                    if q != i {
                        assert(self.submitters@[q] == mid[q]);
                    }
                }
                assert forall|a: int, b: int|
                    0 <= a < b < self.submitters@.len() implies (#[trigger] self.submitters@[a]).student_number@
                        != (#[trigger] self.submitters@[b]).student_number@ by {
                    assert(mid[a].student_number@ != mid[b].student_number@);
                }
            }
        }
    }

    /// Issues a lease to the named machine of a submitter, creating both as needed.
    pub fn job_request(&mut self, request: &JobRequestPacket, now: u64) -> (r: JobResponsePacket)
        ensures
            exists|mid: Seq<Submitter>, i: int, issued: Option<Job>|
                submitter_located(old(self).submitters@, mid, request.student_number@, i)
                    && final(self).submitters@ == mid.update(i, final(self).submitters@[i])
                    && lease_issued(mid[i], final(self).submitters@[i], request.name@, now, issued)
                    && match issued {
                    Some(job) => r == JobResponsePacket::Success(job),
                    None => r is Error,
                },
            final(self).best == old(self).best,
            final(self).hashes@ == old(self).hashes@,
            old(self).wf() ==> final(self).wf(),
    {
        let i = self.submitter_from(request.student_number.as_str());
        let ghost mid = self.submitters@;
        let issued = self.submitters[i].next_job(request.name.as_str(), now);
        proof {
            assert(self.submitters@ == mid.update(i as int, self.submitters@[i as int]));
            assert(submitter_located(old(self).submitters@, mid, request.student_number@, i as int));
            if old(self).wf() {
                assert forall|q: int| 0 <= q < self.submitters@.len() implies (
                #[trigger] self.submitters@[q]).wf() by {
                    if q != i {
                        assert(self.submitters@[q] == mid[q]);
                    }
                }
                assert forall|a: int, b: int|
                    0 <= a < b < self.submitters@.len() implies (#[trigger] self.submitters@[a]).student_number@
                        != (#[trigger] self.submitters@[b]).student_number@ by {
                    assert(mid[a].student_number@ != mid[b].student_number@);
                }
            }
        }
        match issued {
            Some(job) => JobResponsePacket::Success(job),
            None => JobResponsePacket::Error(String::from_str("no job can be issued: job numbers or nonces are used up")),
        }
    }

    /// Pool statistics for one submitter, created as needed. Pool-wide sums saturate at
    /// `u64::MAX`; completed jobs are job numbers issued less leases held, at least zero.
    pub fn pool_status(&mut self, request: &PoolStatusRequestPacket) -> (r: PoolStatusResponsePacket)
        ensures
            exists|i: int|
                submitter_located(
                    old(self).submitters@,
                    final(self).submitters@,
                    request.student_number@,
                    i,
                ) && {
                    let s = final(self).submitters@[i];
                    &&& s.machines@.len() == 0 ==> r.user_total_hash_rate == 0
                    &&& s.machines@.len() > 0 ==> r.user_total_hash_rate == crate::submitter::total_rate_sum(
                        s.machines@,
                    ) / (s.machines@.len() as int)
                    &&& r.user_total_shares == s.accepted_shares_count
                },
            r.pool_total_shares == saturated(shares_sum(final(self).submitters@)),
            r.pool_best_zero_length == match final(self).best {
                Some(b) => b.leading_zero_bit_length,
                None => 0,
            },
            ({
                let issued = saturated(job_numbers_sum(final(self).submitters@));
                let held = saturated(held_jobs_sum(final(self).submitters@));
                r.completed_jobs == if issued >= held { issued - held } else { 0 }
            }),
            final(self).best == old(self).best,
            final(self).hashes@ == old(self).hashes@,
            old(self).wf() ==> final(self).wf(),
    {
        let i = self.submitter_from(request.student_number.as_str());
        let user_total_hash_rate = self.submitters[i].user_hash_rate();
        let user_total_shares = self.submitters[i].accepted_shares_count;
        let mut shares: u64 = 0;
        let mut issued: u64 = 0;
        let mut held: u64 = 0;
        let mut j: usize = 0;
        while j < self.submitters.len()
            invariant
                j <= self.submitters@.len(),
                shares == saturated(shares_sum(self.submitters@.subrange(0, j as int))),
                issued == saturated(job_numbers_sum(self.submitters@.subrange(0, j as int))),
                held == saturated(held_jobs_sum(self.submitters@.subrange(0, j as int))),
            decreases self.submitters@.len() - j,
        {
            let ghost pre = self.submitters@.subrange(0, j as int);
            assert(self.submitters@.subrange(0, j + 1).drop_last() =~= pre);
            proof {
                lemma_sums_nonneg(pre);
            }
            let s = &self.submitters[j];
            shares = shares.saturating_add(s.accepted_shares_count);
            issued = issued.saturating_add(s.next_job_number);
            let leases = (s.pending_jobs.len() as u64).saturating_add(s.unfinished_jobs.len() as u64);
            held = held.saturating_add(leases);
            j = j + 1;
        }
        assert(self.submitters@.subrange(0, j as int) =~= self.submitters@);
        let pool_best_zero_length = match &self.best {
            Some(b) => b.leading_zero_bit_length,
            None => 0,
        };
        let completed_jobs = if issued >= held { issued - held } else { 0 };
        PoolStatusResponsePacket {
            user_total_hash_rate,
            user_total_shares,
            pool_total_shares: shares,
            pool_best_zero_length,
            completed_jobs,
        }
    }
}

} // verus!
