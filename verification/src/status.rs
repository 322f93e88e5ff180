//! Tri-state readiness values and the law by which a job's input statuses
//! are combined into one status for the whole input set.

use vstd::prelude::*;
use vstd::seq_lib::group_to_multiset_ensures;

verus! {

/// The status of a single job input.
#[derive(Copy, Clone, PartialEq, Eq, Structural, Debug)]
pub enum JobInputStatus {
    /// The input is ready and its value may be taken.
    Ready,
    /// The input is not ready yet, but should be awaited.
    Wait,
    /// The input is not ready and should not be awaited.
    Fail,
}

impl JobInputStatus {
    /// How two input statuses combine: `Fail` dominates, `Ready` is the
    /// identity, and anything else yields `Wait`.
    pub open spec fn spec_combine(self, rhs: JobInputStatus) -> JobInputStatus {
        match (self, rhs) {
            (JobInputStatus::Fail, _) => JobInputStatus::Fail,
            (_, JobInputStatus::Fail) => JobInputStatus::Fail,
            (JobInputStatus::Ready, JobInputStatus::Ready) => JobInputStatus::Ready,
            _ => JobInputStatus::Wait,
        }
    }

    /// Combine this status with another one.
    pub fn combine(self, rhs: JobInputStatus) -> (r: JobInputStatus)
        ensures
            r == self.spec_combine(rhs),
    {
        match (self, rhs) {
            (JobInputStatus::Fail, _) | (_, JobInputStatus::Fail) => JobInputStatus::Fail,
            (JobInputStatus::Ready, JobInputStatus::Ready) => JobInputStatus::Ready,
            _ => JobInputStatus::Wait,
        }
    }
}

/// The combined status of a whole input set, as a left fold of
/// [`JobInputStatus::spec_combine`] starting from the identity `Ready`.
pub open spec fn combine_all(s: Seq<JobInputStatus>) -> JobInputStatus
    decreases s.len(),
{
    if s.len() == 0 {
        JobInputStatus::Ready
    } else {
        combine_all(s.drop_last()).spec_combine(s.last())
    }
}

/// Whether some element of `s` is `Fail`.
pub open spec fn has_fail(s: Seq<JobInputStatus>) -> bool {
    exists|i: int| 0 <= i < s.len() && s[i] == JobInputStatus::Fail
}

/// Whether every element of `s` is `Ready`.
pub open spec fn all_ready(s: Seq<JobInputStatus>) -> bool {
    forall|i: int| 0 <= i < s.len() ==> s[i] == JobInputStatus::Ready
}

/// Combining is commutative.
pub proof fn lemma_combine_commutative(a: JobInputStatus, b: JobInputStatus)
    ensures
        a.spec_combine(b) == b.spec_combine(a),
{
}

/// Combining is associative.
pub proof fn lemma_combine_associative(a: JobInputStatus, b: JobInputStatus, c: JobInputStatus)
    ensures
        a.spec_combine(b).spec_combine(c) == a.spec_combine(b.spec_combine(c)),
{
}

/// `Ready` is the identity of combining: a job with zero inputs is trivially
/// ready.
pub proof fn lemma_combine_identity(a: JobInputStatus)
    ensures
        JobInputStatus::Ready.spec_combine(a) == a,
        a.spec_combine(JobInputStatus::Ready) == a,
{
}

/// The combined status of an input set is `Fail` if any element is `Fail`,
/// `Ready` iff all elements are `Ready`, and `Wait` otherwise.
pub proof fn lemma_combine_all_characterization(s: Seq<JobInputStatus>)
    ensures
        combine_all(s) == if has_fail(s) {
            JobInputStatus::Fail
        } else if all_ready(s) {
            JobInputStatus::Ready
        } else {
            JobInputStatus::Wait
        },
    decreases s.len(),
{
    if s.len() > 0 {
        let head = s.drop_last();
        lemma_combine_all_characterization(head);
        assert(has_fail(head) ==> has_fail(s));
        if !has_fail(head) && has_fail(s) {
            let i = choose|i: int| 0 <= i < s.len() && s[i] == JobInputStatus::Fail;
            if i < s.len() - 1 {
                assert(head[i] == s[i]);
            }
            assert(i == s.len() - 1);
        }
        assert(all_ready(s) ==> all_ready(head));
        if all_ready(head) && s.last() == JobInputStatus::Ready {
            assert(all_ready(s)) by {
                assert(forall|i: int| 0 <= i < s.len() - 1 ==> s[i] == head[i]);
            }
        }
    }
}

/// The combined status depends only on the multiset of statuses, not on
/// their order: two input sets with equal multisets combine to the same
/// status.
pub proof fn lemma_combine_all_multiset(s: Seq<JobInputStatus>, t: Seq<JobInputStatus>)
    requires
        s.to_multiset() == t.to_multiset(),
    ensures
        combine_all(s) == combine_all(t),
{
    broadcast use group_to_multiset_ensures;

    lemma_combine_all_characterization(s);
    lemma_combine_all_characterization(t);
    assert forall|a: JobInputStatus| s.contains(a) <==> t.contains(a) by {
        assert(s.contains(a) <==> s.to_multiset().count(a) > 0);
        assert(t.contains(a) <==> t.to_multiset().count(a) > 0);
    }
    assert(has_fail(s) <==> s.contains(JobInputStatus::Fail));
    assert(has_fail(t) <==> t.contains(JobInputStatus::Fail));
    if !all_ready(s) {
        let i = choose|i: int| 0 <= i < s.len() && s[i] != JobInputStatus::Ready;
        assert(s.contains(s[i]));
        assert(t.contains(s[i]));
        assert(!all_ready(t));
    }
    if !all_ready(t) {
        let i = choose|i: int| 0 <= i < t.len() && t[i] != JobInputStatus::Ready;
        assert(t.contains(t[i]));
        assert(s.contains(t[i]));
        assert(!all_ready(s));
    }
}

/// Combine a whole vector of input statuses, starting from the identity
/// `Ready`.
pub fn combine_statuses(statuses: &Vec<JobInputStatus>) -> (r: JobInputStatus)
    ensures
        r == combine_all(statuses@),
{
    let mut r = JobInputStatus::Ready;
    let mut i: usize = 0;
    while i < statuses.len()
        invariant
            0 <= i <= statuses@.len(),
            r == combine_all(statuses@.take(i as int)),
        decreases statuses@.len() - i,
    {
        r = r.combine(statuses[i]);
        assert(statuses@.take(i + 1 as int).drop_last() =~= statuses@.take(i as int));
        assert(statuses@.take(i + 1 as int).last() == statuses@[i as int]);
        i = i + 1;
    }
    assert(statuses@.take(statuses@.len() as int) =~= statuses@);
    r
}

} // verus!
