//! Priority admission: the order in which a queue pass offers permits, how
//! many jobs it starts, and the laws that bound both.
use vstd::prelude::*;
use crate::models::{rank, Job, JobView};
use crate::repository::job_views;
use crate::text::{lemma_text_less_asymmetric, lemma_text_less_irreflexive, lemma_text_less_transitive};
use crate::text::{text_less, text_lt};

verus! {

/// Whether job `a` runs before job `b`: it is more urgent, or equally
/// urgent and created earlier.
pub open spec fn runs_before(a: JobView, b: JobView) -> bool {
    rank(a.2) > rank(b.2) || (rank(a.2) == rank(b.2) && text_less(a.5, b.5))
}

/// Where `x` goes in `s`: before the first job that it runs before, else
/// at the end.
pub open spec fn insert_pos(s: Seq<JobView>, x: JobView) -> nat
    decreases s.len(),
{
    if s.len() == 0 {
        0
    } else if runs_before(x, s[0]) {
        0
    } else {
        1 + insert_pos(s.drop_first(), x)
    }
}

/// The jobs in run order: by priority, most urgent first; within a
/// priority by `created_at` ascending; jobs equal in both keep the order
/// given.
pub open spec fn by_priority(jobs: Seq<JobView>) -> Seq<JobView>
    decreases jobs.len(),
{
    if jobs.len() == 0 {
        seq![]
    } else {
        let s = by_priority(jobs.drop_last());
        s.insert(insert_pos(s, jobs.last()) as int, jobs.last())
    }
}

/// No job runs before one placed ahead of it.
pub open spec fn in_run_order(s: Seq<JobView>) -> bool {
    forall|i: int, j: int| 0 <= i < j < s.len() ==> !runs_before(#[trigger] s[j], #[trigger] s[i])
}

proof fn lemma_runs_before_order(a: JobView, b: JobView, c: JobView)
    ensures
        !runs_before(a, a),
        runs_before(a, b) ==> !runs_before(b, a),
        runs_before(a, b) && runs_before(b, c) ==> runs_before(a, c),
{
    lemma_text_less_irreflexive(a.5);
    lemma_text_less_asymmetric(a.5, b.5);
    if text_less(a.5, b.5) && text_less(b.5, c.5) {
        lemma_text_less_transitive(a.5, b.5, c.5);
    }
}

proof fn lemma_insert_pos(s: Seq<JobView>, x: JobView)
    ensures
        insert_pos(s, x) <= s.len(),
        forall|k: int| 0 <= k < insert_pos(s, x) ==> !runs_before(x, #[trigger] s[k]),
        insert_pos(s, x) < s.len() ==> runs_before(x, s[insert_pos(s, x) as int]),
    decreases s.len(),
{
    if s.len() > 0 && !runs_before(x, s[0]) {
        let t = s.drop_first();
        lemma_insert_pos(t, x);
        assert forall|k: int| 0 <= k < insert_pos(s, x) implies !runs_before(x, #[trigger] s[k]) by {
            if k > 0 {
                assert(s[k] == t[k - 1]);
            }
        }
        if insert_pos(s, x) < s.len() {
            assert(s[insert_pos(s, x) as int] == t[insert_pos(t, x) as int]);
        }
    }
}

/// The run order holds every job once in a row of the same length, and is
/// ordered: priorities never rise, and within a priority `created_at`
/// never falls.
pub proof fn lemma_by_priority_sorted(jobs: Seq<JobView>)
    ensures
        by_priority(jobs).len() == jobs.len(),
        in_run_order(by_priority(jobs)),
        forall|i: int, j: int|
            0 <= i < j < jobs.len() ==> rank((#[trigger] by_priority(jobs)[i]).2) >= rank(
                (#[trigger] by_priority(jobs)[j]).2,
            ) && (rank(by_priority(jobs)[i].2) == rank(by_priority(jobs)[j].2) ==> !text_less(
                by_priority(jobs)[j].5,
                by_priority(jobs)[i].5,
            )),
    decreases jobs.len(),
{
    if jobs.len() > 0 {
        lemma_by_priority_sorted(jobs.drop_last());
        let s = by_priority(jobs.drop_last());
        let x = jobs.last();
        let p = insert_pos(s, x) as int;
        lemma_insert_pos(s, x);
        let r = s.insert(p, x);
        assert(r == by_priority(jobs));
        assert forall|a: int, b: int| 0 <= a < b < r.len() implies !runs_before(
            #[trigger] r[b],
            #[trigger] r[a],
        ) by {
            if b < p {
                assert(r[a] == s[a] && r[b] == s[b]);
            } else if b == p {
                assert(r[a] == s[a]);
            } else if a < p {
                assert(r[a] == s[a] && r[b] == s[b - 1]);
            } else if a == p {
                assert(r[b] == s[b - 1]);
                lemma_runs_before_order(x, s[p], s[b - 1]);
                lemma_runs_before_order(s[b - 1], x, s[p]);
            } else {
                assert(r[a] == s[a - 1] && r[b] == s[b - 1]);
            }
        }
    }
    let r = by_priority(jobs);
    assert forall|i: int, j: int| 0 <= i < j < jobs.len() implies rank((#[trigger] r[i]).2) >= rank(
        (#[trigger] r[j]).2,
    ) && (rank(r[i].2) == rank(r[j].2) ==> !text_less(r[j].5, r[i].5)) by {
        assert(!runs_before(r[j], r[i]));
    }
}

/// How many jobs a pass starts: one per free permit, in order, until the
/// permits or the jobs run out.
pub open spec fn admitted(queued: nat, free: nat) -> nat {
    if queued <= free {
        queued
    } else {
        free
    }
}

/// The jobs a queue pass starts: the first `admitted` of the priority order.
pub open spec fn run_queue_plan(queued: Seq<JobView>, free: nat) -> Seq<JobView> {
    by_priority(queued).take(admitted(queued.len(), free) as int)
}

/// In one queue pass, `CRITICAL` jobs start before any job of a lower
/// priority: a started job below `CRITICAL` comes after every `CRITICAL`
/// job of the queue, all of which have started.
pub proof fn lemma_critical_first(queued: Seq<JobView>, free: nat, j: int)
    requires
        0 <= j < run_queue_plan(queued, free).len(),
        rank(run_queue_plan(queued, free)[j].2) < 3,
    ensures
        forall|i: int|
            0 <= i < queued.len() && rank((#[trigger] by_priority(queued)[i]).2) == 3 ==> i < j
                && run_queue_plan(queued, free)[i] == by_priority(queued)[i],
{
    lemma_by_priority_sorted(queued);
    let s = by_priority(queued);
    assert(run_queue_plan(queued, free)[j] == s[j]);
    assert forall|i: int| 0 <= i < queued.len() && rank((#[trigger] s[i]).2) == 3 implies i < j
        && run_queue_plan(queued, free)[i] == s[i] by {
        if i >= j {
            if i > j {
                assert(rank(s[j].2) >= rank(s[i].2));
            }
        }
    }
}

/// Permits bound the running jobs: when `in_use` of `capacity` permits are
/// held, a pass that starts one job per free permit leaves at most
/// `capacity` jobs running.
pub proof fn lemma_running_within_capacity(capacity: nat, in_use: nat, queued: nat)
    requires
        in_use <= capacity,
    ensures
        in_use + admitted(queued, (capacity - in_use) as nat) <= capacity,
{
}

/// Decides `runs_before`.
fn runs_first(a: &Job, b: &Job) -> (r: bool)
    ensures
        r == runs_before(a@, b@),
{
    let ra = a.priority.rank();
    let rb = b.priority.rank();
    ra > rb || (ra == rb && text_lt(a.created_at.as_str(), b.created_at.as_str()))
}

/// The job executor's decisions: the order of a queue pass and how many
/// jobs it starts.
pub struct JobExecutor;

impl JobExecutor {
    /// The jobs in run order: `CRITICAL`, `HIGH`, `NORMAL`, then `LOW`;
    /// within a priority by `created_at` ascending, and equal jobs in the
    /// order of `jobs`.
    pub fn order_by_priority(jobs: &Vec<Job>) -> (r: Vec<Job>)
        ensures
            job_views(r@) == by_priority(job_views(jobs@)),
    {
        let ghost v = job_views(jobs@);
        let mut r: Vec<Job> = Vec::new();
        let n = jobs.len();
        let mut i: usize = 0;
        proof {
            assert(v.take(0) =~= Seq::<JobView>::empty());
            assert(job_views(r@) =~= Seq::<JobView>::empty());
        }
        while i < n
            invariant
                n == jobs@.len(),
                i <= n,
                v == job_views(jobs@),
                job_views(r@) == by_priority(v.take(i as int)),
            decreases n - i,
        {
            let x = jobs[i].duplicate();
            let ghost rv = job_views(r@);
            let m = r.len();
            let mut k: usize = 0;
            proof {
                assert(rv.skip(0) =~= rv);
            }
            while k < m && !runs_first(&x, &r[k])
                invariant
                    m == r@.len(),
                    k <= m,
                    rv == job_views(r@),
                    insert_pos(rv, x@) == k + insert_pos(rv.skip(k as int), x@),
                decreases m - k,
            {
                proof {
                    assert(rv.skip(k as int)[0] == rv[k as int]);
                    assert(rv.skip(k as int).drop_first() =~= rv.skip(k + 1));
                }
                k += 1;
            }
            proof {
                if k < m {
                    assert(rv.skip(k as int)[0] == rv[k as int]);
                }
            }
            r.insert(k, x);
            proof {
                assert(v.take(i + 1).drop_last() =~= v.take(i as int));
                assert(v.take(i + 1).last() == v[i as int]);
                assert(job_views(r@) =~= rv.insert(k as int, v[i as int]));
            }
            i += 1;
        }
        proof {
            assert(v.take(n as int) =~= v);
        }
        r
    }

    /// How many jobs a queue pass starts with `free` permits for `queued` jobs.
    pub fn admission_count(queued: usize, free: usize) -> (r: usize)
        ensures
            r == admitted(queued as nat, free as nat),
    {
        if queued <= free {
            queued
        } else {
            free
        }
    }

    /// The decisions of one queue pass: the queued jobs in run order,
    /// cut after one job per free permit. The pass stops at the first job that
    /// gets no permit, so no job is started ahead of a more urgent one.
    pub fn plan_run_queue(queued: &Vec<Job>, free: usize) -> (r: Vec<Job>)
        ensures
            job_views(r@) == run_queue_plan(job_views(queued@), free as nat),
    {
        let mut r = Self::order_by_priority(queued);
        proof {
            lemma_by_priority_sorted(job_views(queued@));
        }
        let count = Self::admission_count(queued.len(), free);
        let ghost full = r@;
        proof {
            assert(job_views(full).len() == full.len());
        }
        r.truncate(count);
        proof {
            assert(r@ =~= full.take(count as int));
            assert(job_views(r@) =~= job_views(full).take(count as int));
        }
        r
    }
}

} // verus!
