//! The in-memory store of jobs, hosts, logs, configuration and display
//! status, with the guarded status writes and the merging host upsert that
//! keep the model's invariants.
use vstd::prelude::*;
use crate::lifecycle::{
    can_transition, lemma_status_words_distinct, is_terminal, is_terminal_status, may_start, next_status, outcome_status,
    outcome_event, startable, transition_allowed,
};
use crate::models::{
    banners_merged, copy_opt_text, fresh_uuid, now_rfc3339, opt_text, ports_merged, DisplayStatus,
    Host, HostStatus, Job, JobView, Log, ScanConfig,
};
use crate::lifecycle::event_host_found;
use crate::text::{text_eq, text_of};

verus! {

/// What `chrono` reads from an RFC 3339 text: its instant in whole seconds
/// since the Unix epoch, or nothing when the text is no RFC 3339 time.
pub uninterp spec fn rfc3339_seconds(s: Seq<char>) -> Option<i64>;

/// Relies on `chrono::DateTime::parse_from_rfc3339` and
/// `DateTime::timestamp`: the result depends on the text alone.
#[verifier::external_body]
fn parse_rfc3339_seconds(s: &str) -> (r: Option<i64>)
    ensures
        r == rfc3339_seconds(s@),
{
    match chrono::DateTime::parse_from_rfc3339(s) {
        Ok(t) => Some(t.timestamp()),
        Err(_) => None,
    }
}

/// Whether a log record survives a clean-up at `cutoff` (epoch seconds):
/// it is no older than the cutoff, or its time cannot be read.
pub open spec fn log_kept(l: Log, cutoff: int) -> bool {
    match rfc3339_seconds(l.created_at@) {
        Some(t) => t >= cutoff,
        None => true,
    }
}

/// The records that survive a clean-up at `cutoff`, in order.
pub open spec fn logs_kept(logs: Seq<Log>, cutoff: int) -> Seq<Log>
    decreases logs.len(),
{
    if logs.len() == 0 {
        seq![]
    } else if log_kept(logs[0], cutoff) {
        seq![logs[0]] + logs_kept(logs.drop_first(), cutoff)
    } else {
        logs_kept(logs.drop_first(), cutoff)
    }
}

proof fn lemma_logs_kept_len(logs: Seq<Log>, cutoff: int)
    ensures
        logs_kept(logs, cutoff).len() <= logs.len(),
    decreases logs.len(),
{
    if logs.len() > 0 {
        lemma_logs_kept_len(logs.drop_first(), cutoff);
    }
}

/// Why a store operation did not take effect.
#[derive(Clone, Copy, Debug, PartialEq, Eq, Structural)]
pub enum RepositoryError {
    /// A job with this id is already stored.
    DuplicateId,
    /// No job with this id is stored.
    NotFound,
    /// The write is not permitted in the job's current status.
    Rejected,
}

pub open spec fn job_views(jobs: Seq<Job>) -> Seq<JobView> {
    jobs.map_values(|j: Job| j@)
}

/// The index of the job with id `id`, if any.
pub open spec fn has_job(jobs: Seq<JobView>, id: Seq<char>) -> bool {
    exists|i: int| 0 <= i < jobs.len() && (#[trigger] jobs[i]).0 == id
}

pub open spec fn ids_unique(jobs: Seq<JobView>) -> bool {
    forall|i: int, j: int| 0 <= i < j < jobs.len() ==> (#[trigger] jobs[i]).0 != (#[trigger] jobs[j]).0
}

/// The jobs of `jobs` in status `s`, in store order.
pub open spec fn with_status(jobs: Seq<JobView>, s: Seq<char>) -> Seq<JobView>
    decreases jobs.len(),
{
    if jobs.len() == 0 {
        seq![]
    } else {
        let rest = with_status(jobs.drop_last(), s);
        if jobs.last().3 == s {
            rest.push(jobs.last())
        } else {
            rest
        }
    }
}

/// Whether a job is `scheduled` with a due time no later than `now`.
pub open spec fn is_due(j: JobView, now: i64) -> bool {
    j.3 == "scheduled"@ && j.6 is Some && j.6->0 <= now
}

/// The due scheduled jobs of `jobs`, in store order.
pub open spec fn due(jobs: Seq<JobView>, now: i64) -> Seq<JobView>
    decreases jobs.len(),
{
    if jobs.len() == 0 {
        seq![]
    } else {
        let rest = due(jobs.drop_last(), now);
        if is_due(jobs.last(), now) {
            rest.push(jobs.last())
        } else {
            rest
        }
    }
}

/// `j` with status `s`.
pub open spec fn with_new_status(j: JobView, s: Seq<char>) -> JobView {
    (j.0, j.1, j.2, s, j.4, j.5, j.6, j.7)
}

/// `j` with results `r`.
pub open spec fn with_results(j: JobView, r: Option<Seq<char>>) -> JobView {
    (j.0, j.1, j.2, j.3, r, j.5, j.6, j.7)
}

/// The store. Jobs keep their order of creation; no two share an id.
pub struct InMemoryRepository {
    jobs: Vec<Job>,
    hosts: Vec<Host>,
    logs: Vec<Log>,
    config: ScanConfig,
    display_status: DisplayStatus,
}

impl InMemoryRepository {
    pub closed spec fn jobs(&self) -> Seq<JobView> {
        job_views(self.jobs@)
    }

    pub closed spec fn hosts(&self) -> Seq<Host> {
        self.hosts@
    }

    pub closed spec fn logs(&self) -> Seq<Log> {
        self.logs@
    }

    pub closed spec fn config(&self) -> ScanConfig {
        self.config
    }

    pub closed spec fn display(&self) -> DisplayStatus {
        self.display_status
    }

    /// Job ids unique; one host per IP, each with sorted, unique ports and
    /// unique banners.
    pub open spec fn wf(&self) -> bool {
        &&& ids_unique(self.jobs())
        &&& ips_unique(self.hosts())
        &&& forall|i: int| 0 <= i < self.hosts().len() ==> (#[trigger] self.hosts()[i]).wf()
    }

    /// Only the jobs may differ between `self` and `o`.
    pub open spec fn only_jobs_differ(&self, o: &Self) -> bool {
        &&& self.hosts() == o.hosts()
        &&& self.logs() == o.logs()
        &&& self.config() == o.config()
        &&& self.display() == o.display()
    }

    /// Only the hosts may differ between `self` and `o`.
    pub open spec fn only_hosts_differ(&self, o: &Self) -> bool {
        &&& self.jobs() == o.jobs()
        &&& self.logs() == o.logs()
        &&& self.config() == o.config()
        &&& self.display() == o.display()
    }

    /// Only the logs may differ between `self` and `o`.
    pub open spec fn only_logs_differ(&self, o: &Self) -> bool {
        &&& self.jobs() == o.jobs()
        &&& self.hosts() == o.hosts()
        &&& self.config() == o.config()
        &&& self.display() == o.display()
    }

    /// An empty store with no options set and the display `idle`.
    pub fn new() -> (r: InMemoryRepository)
        ensures
            r.wf(),
            r.jobs().len() == 0,
            r.hosts().len() == 0,
            r.logs().len() == 0,
            r.config().target_network is None && r.config().port_range is None,
            r.display().status@ == "idle"@,
    {
        InMemoryRepository {
            jobs: Vec::new(),
            hosts: Vec::new(),
            logs: Vec::new(),
            config: ScanConfig::new(),
            display_status: DisplayStatus::new(),
        }
    }

    /// The position of the job with id `id`.
    fn find_job(&self, id: &str) -> (r: Option<usize>)
        requires
            self.wf(),
        ensures
            r is None <==> !has_job(self.jobs(), id@),
            r is Some ==> r->0 < self.jobs().len() && self.jobs()[r->0 as int].0 == id@,
    {
        let n = self.jobs.len();
        let mut i: usize = 0;
        while i < n
            invariant
                n == self.jobs@.len(),
                i <= n,
                forall|k: int| 0 <= k < i ==> (#[trigger] self.jobs()[k]).0 != id@,
            decreases n - i,
        {
            if text_eq(self.jobs[i].id.as_str(), id) {
                proof {
                    assert(self.jobs()[i as int].0 == id@);
                }
                return Some(i);
            }
            i += 1;
        }
        None
    }

    /// Stores a new job; an id already present is refused.
    pub fn create_job(&mut self, job: Job) -> (r: Result<(), RepositoryError>)
        requires
            old(self).wf(),
        ensures
            final(self).only_jobs_differ(old(self)),
            final(self).wf(),
            r is Err <==> has_job(old(self).jobs(), job@.0),
            r is Err ==> r == Err::<(), RepositoryError>(RepositoryError::DuplicateId)
                && final(self).jobs() == old(self).jobs(),
            r is Ok ==> final(self).jobs() == old(self).jobs().push(job@),
    {
        if self.find_job(job.id.as_str()).is_some() {
            return Err(RepositoryError::DuplicateId);
        }
        let ghost before = self.jobs();
        self.jobs.push(job);
        proof {
            assert(self.jobs() =~= before.push(job@));
        }
        Ok(())
    }

    /// The job with id `id`, if stored.
    pub fn get_job(&self, id: &str) -> (r: Option<Job>)
        requires
            self.wf(),
        ensures
            r is Some <==> has_job(self.jobs(), id@),
            r is Some ==> exists|i: int|
                0 <= i < self.jobs().len() && self.jobs()[i].0 == id@ && r->0@ == self.jobs()[i],
    {
        match self.find_job(id) {
            Some(i) => Some(self.jobs[i].duplicate()),
            None => None,
        }
    }

    /// All jobs, most recently created first.
    pub fn list_jobs(&self) -> (r: Vec<Job>)
        ensures
            job_views(r@) == self.jobs().reverse(),
    {
        let n = self.jobs.len();
        let mut r: Vec<Job> = Vec::new();
        let mut i: usize = n;
        while i > 0
            invariant
                n == self.jobs@.len(),
                i <= n,
                job_views(r@) == self.jobs().subrange(i as int, n as int).reverse(),
            decreases i,
        {
            i -= 1;
            let ghost before = job_views(r@);
            r.push(self.jobs[i].duplicate());
            proof {
                assert(job_views(r@) =~= before.push(self.jobs()[i as int]));
                assert(self.jobs().subrange(i as int, n as int).reverse() =~= self.jobs().subrange(
                    i + 1,
                    n as int,
                ).reverse().push(self.jobs()[i as int]));
            }
        }
        proof {
            assert(self.jobs().subrange(0, n as int) =~= self.jobs());
        }
        r
    }

    /// The jobs in status `s`, in store order.
    fn jobs_in(&self, s: &str) -> (r: Vec<Job>)
        ensures
            job_views(r@) == with_status(self.jobs(), s@),
    {
        let n = self.jobs.len();
        let mut r: Vec<Job> = Vec::new();
        let mut i: usize = 0;
        while i < n
            invariant
                n == self.jobs@.len(),
                i <= n,
                job_views(r@) == with_status(self.jobs().take(i as int), s@),
            decreases n - i,
        {
            let ghost before = job_views(r@);
            proof {
                assert(self.jobs().take(i + 1).drop_last() =~= self.jobs().take(i as int));
            }
            if text_eq(self.jobs[i].status.as_str(), s) {
                r.push(self.jobs[i].duplicate());
                proof {
                    assert(job_views(r@) =~= before.push(self.jobs()[i as int]));
                }
            }
            i += 1;
        }
        proof {
            assert(self.jobs().take(n as int) =~= self.jobs());
        }
        r
    }

    /// The jobs in `running`, in store order.
    pub fn get_running_jobs(&self) -> (r: Vec<Job>)
        ensures
            job_views(r@) == with_status(self.jobs(), "running"@),
    {
        self.jobs_in("running")
    }

    /// The jobs in `queued`, in store order (the order of creation).
    pub fn get_queued_jobs(&self) -> (r: Vec<Job>)
        ensures
            job_views(r@) == with_status(self.jobs(), "queued"@),
    {
        self.jobs_in("queued")
    }

    /// The `scheduled` jobs whose due time is no later than `now` (epoch seconds).
    pub fn get_scheduled_jobs_due(&self, now: i64) -> (r: Vec<Job>)
        ensures
            job_views(r@) == due(self.jobs(), now),
    {
        let n = self.jobs.len();
        let mut r: Vec<Job> = Vec::new();
        let mut i: usize = 0;
        while i < n
            invariant
                n == self.jobs@.len(),
                i <= n,
                job_views(r@) == due(self.jobs().take(i as int), now),
            decreases n - i,
        {
            let ghost before = job_views(r@);
            proof {
                assert(self.jobs().take(i + 1).drop_last() =~= self.jobs().take(i as int));
            }
            let hit = match self.jobs[i].scheduled_at {
                Some(t) => t <= now && text_eq(self.jobs[i].status.as_str(), "scheduled"),
                None => false,
            };
            if hit {
                r.push(self.jobs[i].duplicate());
                proof {
                    assert(job_views(r@) =~= before.push(self.jobs()[i as int]));
                }
            }
            i += 1;
        }
        proof {
            assert(self.jobs().take(n as int) =~= self.jobs());
        }
        r
    }

    /// Writes `status` to the job with id `id`. Only a permitted transition
    /// takes effect, so a terminal status is never left.
    pub fn update_job_status(&mut self, id: &str, status: &str) -> (r: Result<(), RepositoryError>)
        requires
            old(self).wf(),
        ensures
            final(self).only_jobs_differ(old(self)),
            final(self).wf(),
            !has_job(old(self).jobs(), id@) ==> r == Err::<(), RepositoryError>(RepositoryError::NotFound)
                && final(self).jobs() == old(self).jobs(),
            has_job(old(self).jobs(), id@) ==> exists|i: int|
                0 <= i < old(self).jobs().len() && old(self).jobs()[i].0 == id@ && final(self).jobs()
                    == old(self).jobs().update(
                    i,
                    with_new_status(old(self).jobs()[i], next_status(old(self).jobs()[i].3, status@)),
                ) && (r is Ok <==> transition_allowed(old(self).jobs()[i].3, status@)) && (r is Err
                    ==> r == Err::<(), RepositoryError>(RepositoryError::Rejected)),
    {
        match self.find_job(id) {
            None => Err(RepositoryError::NotFound),
            Some(i) => {
                if can_transition(self.jobs[i].status.as_str(), status) {
                    self.set_status(i, status);
                    Ok(())
                } else {
                    proof {
                        assert(self.jobs() =~= self.jobs().update(
                            i as int,
                            with_new_status(self.jobs()[i as int], self.jobs()[i as int].3),
                        ));
                    }
                    Err(RepositoryError::Rejected)
                }
            },
        }
    }

    /// Sets the status of the job at `i`, keeping everything else.
    fn set_status(&mut self, i: usize, status: &str)
        requires
            old(self).wf(),
            i < old(self).jobs().len(),
        ensures
            final(self).only_jobs_differ(old(self)),
            final(self).wf(),
            final(self).jobs() == old(self).jobs().update(
                i as int,
                with_new_status(old(self).jobs()[i as int], status@),
            ),
            final(self).hosts == old(self).hosts,
            final(self).jobs@.len() == old(self).jobs@.len(),
    {
        let ghost before = self.jobs();
        let j = Job {
            id: text_of(self.jobs[i].id.as_str()),
            job_type: text_of(self.jobs[i].job_type.as_str()),
            priority: self.jobs[i].priority,
            status: text_of(status),
            results: copy_opt_text(&self.jobs[i].results),
            created_at: text_of(self.jobs[i].created_at.as_str()),
            scheduled_at: self.jobs[i].scheduled_at,
            target: copy_opt_text(&self.jobs[i].target),
        };
        self.jobs.set(i, j);
        proof {
            assert(self.jobs() =~= before.update(i as int, with_new_status(before[i as int], status@)));
            assert forall|a: int, b: int| 0 <= a < b < self.jobs().len() implies (
            #[trigger] self.jobs()[a]).0 != (#[trigger] self.jobs()[b]).0 by {
                assert(self.jobs()[a].0 == before[a].0);
                assert(self.jobs()[b].0 == before[b].0);
            }
        }
    }

    /// Sets the results of the job at `i`, keeping everything else.
    fn set_results(&mut self, i: usize, results: Option<String>)
        requires
            old(self).wf(),
            i < old(self).jobs().len(),
        ensures
            final(self).only_jobs_differ(old(self)),
            final(self).wf(),
            final(self).jobs() == old(self).jobs().update(
                i as int,
                with_results(old(self).jobs()[i as int], opt_text(results)),
            ),
            final(self).hosts == old(self).hosts,
            final(self).jobs@.len() == old(self).jobs@.len(),
    {
        let ghost before = self.jobs();
        let j = Job {
            id: text_of(self.jobs[i].id.as_str()),
            job_type: text_of(self.jobs[i].job_type.as_str()),
            priority: self.jobs[i].priority,
            status: text_of(self.jobs[i].status.as_str()),
            results,
            created_at: text_of(self.jobs[i].created_at.as_str()),
            scheduled_at: self.jobs[i].scheduled_at,
            target: copy_opt_text(&self.jobs[i].target),
        };
        self.jobs.set(i, j);
        proof {
            assert(self.jobs() =~= before.update(
                i as int,
                with_results(before[i as int], opt_text(results)),
            ));
            assert forall|a: int, b: int| 0 <= a < b < self.jobs().len() implies (
            #[trigger] self.jobs()[a]).0 != (#[trigger] self.jobs()[b]).0 by {
                assert(self.jobs()[a].0 == before[a].0);
                assert(self.jobs()[b].0 == before[b].0);
            }
        }
    }

    /// Writes the results of a finished job: accepted only while the job is
    /// in a terminal status and has no results yet, so results are written
    /// at most once.
    pub fn update_job_results(&mut self, id: &str, results: Option<String>) -> (r: Result<
        (),
        RepositoryError,
    >)
        requires
            old(self).wf(),
        ensures
            final(self).only_jobs_differ(old(self)),
            final(self).wf(),
            !has_job(old(self).jobs(), id@) ==> r == Err::<(), RepositoryError>(RepositoryError::NotFound)
                && final(self).jobs() == old(self).jobs(),
            has_job(old(self).jobs(), id@) ==> exists|i: int|
                0 <= i < old(self).jobs().len() && old(self).jobs()[i].0 == id@ && {
                    let j = old(self).jobs()[i];
                    let ok = is_terminal(j.3) && j.4 is None;
                    &&& r is Ok <==> ok
                    &&& ok ==> final(self).jobs() == old(self).jobs().update(
                        i,
                        with_results(j, opt_text(results)),
                    )
                    &&& !ok ==> r == Err::<(), RepositoryError>(RepositoryError::Rejected)
                        && final(self).jobs() == old(self).jobs()
                },
    {
        match self.find_job(id) {
            None => Err(RepositoryError::NotFound),
            Some(i) => {
                if is_terminal_status(self.jobs[i].status.as_str()) && self.jobs[i].results.is_none() {
                    self.set_results(i, results);
                    Ok(())
                } else {
                    Err(RepositoryError::Rejected)
                }
            },
        }
    }

    /// The executor's admission step: re-reads the job and, when it is still
    /// `queued` or `scheduled`, moves it to `running` and hands it back.
    pub fn begin_job(&mut self, id: &str) -> (r: Option<Job>)
        requires
            old(self).wf(),
        ensures
            final(self).only_jobs_differ(old(self)),
            final(self).wf(),
            r is None ==> final(self).jobs() == old(self).jobs(),
            r is None <==> !exists|i: int|
                0 <= i < old(self).jobs().len() && old(self).jobs()[i].0 == id@ && startable(
                    old(self).jobs()[i].3,
                ),
            r is Some ==> exists|i: int|
                0 <= i < old(self).jobs().len() && old(self).jobs()[i].0 == id@ && {
                    let started = with_new_status(old(self).jobs()[i], "running"@);
                    &&& r->0@ == started
                    &&& final(self).jobs() == old(self).jobs().update(i, started)
                },
    {
        match self.find_job(id) {
            None => None,
            Some(i) => {
                if may_start(self.jobs[i].status.as_str()) {
                    let ghost before = self.jobs();
                    self.set_status(i, "running");
                    let started = self.jobs[i].duplicate();
                    proof {
                        assert(started@ == self.jobs()[i as int]);
                        assert(before[i as int].0 == id@);
                    }
                    Some(started)
                } else {
                    proof {
                        assert forall|k: int|
                            0 <= k < self.jobs().len() && self.jobs()[k].0 == id@ implies !startable(
                            self.jobs()[k].3,
                        ) by {
                            if k != i {
                                assert(self.jobs()[k].0 != self.jobs()[i as int].0);
                            }
                        }
                    }
                    None
                }
            },
        }
    }

    /// The executor's closing step: records a runner's outcome. A `running`
    /// job becomes `completed` (results: the payload) or `failed` (results:
    /// the message); a job that was cancelled meanwhile keeps its status and
    /// gets no results. Returns the event that announces the recorded
    /// outcome, or `None` when nothing was recorded.
    pub fn finish_job(&mut self, id: &str, outcome: Result<String, String>) -> (event: Option<String>)
        requires
            old(self).wf(),
        ensures
            final(self).only_jobs_differ(old(self)),
            final(self).wf(),
            event is Some <==> exists|i: int|
                0 <= i < old(self).jobs().len() && old(self).jobs()[i].0 == id@ && old(self).jobs()[i].3
                    == "running"@,
            event is Some && outcome is Ok ==> event->0@ == "job_completed:"@ + id@,
            event is Some && outcome is Err ==> event->0@ == "job_failed:"@ + id@ + ":"@ + outcome->Err_0@,
            !has_job(old(self).jobs(), id@) ==> final(self).jobs() == old(self).jobs(),
            has_job(old(self).jobs(), id@) ==> exists|i: int|
                0 <= i < old(self).jobs().len() && old(self).jobs()[i].0 == id@ && {
                    let j = old(self).jobs()[i];
                    let text = match outcome {
                        Ok(p) => p@,
                        Err(m) => m@,
                    };
                    &&& j.3 == "running"@ ==> final(self).jobs() == old(self).jobs().update(
                        i,
                        with_results(with_new_status(j, outcome_status(outcome is Ok)), Some(text)),
                    )
                    &&& j.3 != "running"@ ==> final(self).jobs() == old(self).jobs()
                },
    {
        let event = outcome_event(id, &outcome);
        match self.find_job(id) {
            None => None,
            Some(i) => {
                if text_eq(self.jobs[i].status.as_str(), "running") {
                    let text = match outcome {
                        Ok(p) => {
                            self.set_status(i, "completed");
                            p
                        },
                        Err(m) => {
                            self.set_status(i, "failed");
                            m
                        },
                    };
                    self.set_results(i, Some(text));
                    Some(event)
                } else {
                    proof {
                        assert forall|k: int|
                            0 <= k < self.jobs().len() && self.jobs()[k].0 == id@ implies self.jobs()[k].3
                            != "running"@ by {
                            if k != i {
                                assert(self.jobs()[k].0 != self.jobs()[i as int].0);
                            }
                        }
                    }
                    None
                }
            },
        }
    }

    /// Crash recovery: every job left in `running` goes back to `queued`.
    /// The first `free` of them (one per free permit) are handed back, in
    /// store order, to be started at once; the rest wait for the next queue
    /// pass.
    pub fn recover_running_jobs(&mut self, free: usize) -> (r: Vec<Job>)
        requires
            old(self).wf(),
        ensures
            final(self).only_jobs_differ(old(self)),
            final(self).wf(),
            with_status(final(self).jobs(), "running"@).len() == 0,
            final(self).jobs().len() == old(self).jobs().len(),
            forall|k: int|
                0 <= k < old(self).jobs().len() ==> #[trigger] final(self).jobs()[k] == if old(
                    self,
                ).jobs()[k].3 == "running"@ {
                    with_new_status(old(self).jobs()[k], "queued"@)
                } else {
                    old(self).jobs()[k]
                },
            job_views(r@) == resumed(with_status(old(self).jobs(), "running"@), free as nat),
    {
        let n = self.jobs.len();
        let ghost start = *self;
        let ghost orig = self.jobs();
        let mut r: Vec<Job> = Vec::new();
        let mut i: usize = 0;
        proof {
            lemma_status_words_distinct();
        }
        while i < n
            invariant
                n == self.jobs@.len(),
                n == orig.len(),
                i <= n,
                self.only_jobs_differ(&start),
                self.wf(),
                "running"@ != "queued"@,
                forall|k: int|
                    0 <= k < n ==> #[trigger] self.jobs()[k] == if k < i && orig[k].3 == "running"@ {
                        with_new_status(orig[k], "queued"@)
                    } else {
                        orig[k]
                    },
                job_views(r@) == resumed(with_status(orig.take(i as int), "running"@), free as nat),
            decreases n - i,
        {
            proof {
                assert(orig.take(i + 1).drop_last() =~= orig.take(i as int));
            }
            proof {
                assert(self.jobs()[i as int] == orig[i as int]);
            }
            if text_eq(self.jobs[i].status.as_str(), "running") {
                let ghost before = job_views(r@);
                let ghost prev = with_status(orig.take(i as int), "running"@);
                if r.len() < free {
                    let started = self.jobs[i].duplicate();
                    r.push(started);
                    proof {
                        assert(job_views(r@) =~= before.push(orig[i as int]));
                        lemma_resumed_push(prev, orig[i as int], free as nat);
                    }
                } else {
                    proof {
                        lemma_resumed_push(prev, orig[i as int], free as nat);
                    }
                }
                self.set_status(i, "queued");
            }
            i += 1;
        }
        proof {
            assert(orig.take(n as int) =~= orig);
            lemma_none_running(self.jobs());
        }
        r
    }
}

impl InMemoryRepository {
    fn find_host(&self, ip: &str) -> (r: Option<usize>)
        ensures
            r is None <==> !has_host(self.hosts(), ip@),
            r is Some ==> r->0 < self.hosts().len() && self.hosts()[r->0 as int].ip@ == ip@,
    {
        let n = self.hosts.len();
        let mut i: usize = 0;
        while i < n
            invariant
                n == self.hosts@.len(),
                i <= n,
                forall|k: int| 0 <= k < i ==> (#[trigger] self.hosts()[k]).ip@ != ip@,
            decreases n - i,
        {
            if text_eq(self.hosts[i].ip.as_str(), ip) {
                return Some(i);
            }
            i += 1;
        }
        None
    }

    /// Inserts a host, or merges it into the stored host of the same IP:
    /// ports and banners are united, `last_seen` refreshed. One host per IP,
    /// sorted unique ports and unique banners hold before and after.
    pub fn upsert_host(&mut self, host: Host)
        requires
            old(self).wf(),
            host.wf(),
        ensures
            final(self).only_hosts_differ(old(self)),
            final(self).wf(),
            final(self).jobs() == old(self).jobs(),
            host_ips(final(self).hosts()) == host_ips(old(self).hosts()).insert(host.ip@),
            !has_host(old(self).hosts(), host.ip@) ==> final(self).hosts() == old(self).hosts().push(host),
            has_host(old(self).hosts(), host.ip@) ==> exists|i: int|
                0 <= i < old(self).hosts().len() && old(self).hosts()[i].ip@ == host.ip@ && {
                    let was = old(self).hosts()[i];
                    let now = final(self).hosts()[i];
                    &&& final(self).hosts() == old(self).hosts().update(i, now)
                    &&& now.same_details(&was)
                    &&& now.last_seen@ == host.last_seen@
                    &&& ports_merged(was.port_views(), host.port_views(), now.port_views())
                    &&& now.banner_views() == banners_merged(was.banner_views(), host.banner_views())
                },
    {
        let ghost before = self.hosts();
        match self.find_host(host.ip.as_str()) {
            None => {
                self.hosts.push(host);
                proof {
                    let after = self.hosts();
                    assert(after == before.push(host));
                    assert forall|a: int, b: int| 0 <= a < b < after.len() implies (#[trigger] after[a]).ip@
                        != (#[trigger] after[b]).ip@ by {
                        if b == before.len() {
                            assert(after[a] == before[a]);
                        }
                    }
                    assert forall|a: int| 0 <= a < after.len() implies (#[trigger] after[a]).wf() by {
                        if a < before.len() {
                            assert(after[a] == before[a]);
                        }
                    }
                    assert(host_ips(after) =~= host_ips(before).insert(host.ip@)) by {
                        assert forall|x: Seq<char>| has_host(after, x) <==> (has_host(before, x) || x == host.ip@) by {
                            if has_host(after, x) {
                                let k = choose|k: int| 0 <= k < after.len() && (#[trigger] after[k]).ip@ == x;
                                if k < before.len() {
                                    assert(before[k] == after[k]);
                                }
                            }
                            if has_host(before, x) {
                                let k = choose|k: int| 0 <= k < before.len() && (#[trigger] before[k]).ip@ == x;
                                assert(after[k] == before[k]);
                            }
                            if x == host.ip@ {
                                assert(after[before.len() as int].ip@ == x);
                            }
                        }
                    }
                }
            },
            Some(i) => {
                let mut merged = self.hosts.remove(i);
                proof {
                    assert(merged == before[i as int]);
                    assert(merged.wf());
                }
                merged.merge_from(&host);
                self.hosts.insert(i, merged);
                proof {
                    let after = self.hosts();
                    assert(after =~= before.update(i as int, merged));
                    assert(merged.ip == before[i as int].ip);
                    assert forall|a: int, b: int| 0 <= a < b < after.len() implies (#[trigger] after[a]).ip@
                        != (#[trigger] after[b]).ip@ by {
                        assert(after[a].ip == before[a].ip);
                        assert(after[b].ip == before[b].ip);
                    }
                    assert forall|a: int| 0 <= a < after.len() implies (#[trigger] after[a]).wf() by {
                        if a != i {
                            assert(after[a] == before[a]);
                        }
                    }
                    assert(host_ips(after) =~= host_ips(before).insert(host.ip@)) by {
                        assert forall|x: Seq<char>| has_host(after, x) <==> (has_host(before, x) || x == host.ip@) by {
                            if has_host(after, x) {
                                let k = choose|k: int| 0 <= k < after.len() && (#[trigger] after[k]).ip@ == x;
                                assert(before[k].ip == after[k].ip);
                            }
                            if has_host(before, x) {
                                let k = choose|k: int| 0 <= k < before.len() && (#[trigger] before[k]).ip@ == x;
                                assert(after[k].ip == before[k].ip);
                            }
                            if x == host.ip@ {
                                assert(after[i as int].ip@ == x);
                            }
                        }
                    }
                }
            },
        }
    }

    /// The discovery runner's record of an alive address: upserts a fresh
    /// host for `ip` (no ports, no banners, status unknown, seen now) and
    /// returns the `host_found:<ip>` event. A known address keeps its
    /// ports, banners and details; only `last_seen` is refreshed.
    pub fn record_alive_host(&mut self, ip: String) -> (event: String)
        requires
            old(self).wf(),
        ensures
            final(self).wf(),
            final(self).only_hosts_differ(old(self)),
            host_ips(final(self).hosts()) == host_ips(old(self).hosts()).insert(ip@),
            event@ == "host_found:"@ + ip@,
            !has_host(old(self).hosts(), ip@) ==> {
                let h = final(self).hosts().last();
                &&& final(self).hosts() == old(self).hosts().push(h)
                &&& h.ip@ == ip@
                &&& h.ports@.len() == 0
                &&& h.banners@.len() == 0
                &&& h.status == HostStatus::Unknown
                &&& h.first_seen@ == h.last_seen@
            },
            has_host(old(self).hosts(), ip@) ==> exists|i: int|
                0 <= i < old(self).hosts().len() && old(self).hosts()[i].ip@ == ip@ && {
                    let was = old(self).hosts()[i];
                    let now = final(self).hosts()[i];
                    &&& final(self).hosts() == old(self).hosts().update(i, now)
                    &&& now.same_details(&was)
                    &&& ports_merged(was.port_views(), Seq::empty(), now.port_views())
                    &&& now.banner_views() == was.banner_views()
                },
    {
        let event = event_host_found(ip.as_str());
        let fresh = Host::new(ip);
        proof {
            assert(fresh.port_views() =~= Seq::empty());
            assert(fresh.banner_views() =~= Seq::empty());
        }
        self.upsert_host(fresh);
        event
    }

    /// The record of a whole discovery: a fresh host for each address of
    /// `found`, in turn. Returns the `host_found:<ip>` events in the same
    /// order.
    pub fn record_alive_hosts(&mut self, found: &Vec<String>) -> (events: Vec<String>)
        requires
            old(self).wf(),
        ensures
            final(self).wf(),
            final(self).only_hosts_differ(old(self)),
            host_ips(final(self).hosts()) == ips_after_discovery(
                host_ips(old(self).hosts()),
                found@.map_values(|s: String| s@),
            ),
            events@.len() == found@.len(),
            forall|k: int| 0 <= k < found@.len() ==> (#[trigger] events@[k])@ == "host_found:"@ + found@[k]@,
    {
        let ghost start = *self;
        let ghost views = found@.map_values(|s: String| s@);
        let mut events: Vec<String> = Vec::new();
        let n = found.len();
        let mut i: usize = 0;
        proof {
            assert(views.take(0) =~= Seq::<Seq<char>>::empty());
        }
        while i < n
            invariant
                n == found@.len(),
                i <= n,
                views == found@.map_values(|s: String| s@),
                self.wf(),
                self.only_hosts_differ(&start),
                host_ips(self.hosts()) == ips_after_discovery(host_ips(start.hosts()), views.take(i as int)),
                events@.len() == i,
                forall|k: int| 0 <= k < i ==> (#[trigger] events@[k])@ == "host_found:"@ + found@[k]@,
            decreases n - i,
        {
            proof {
                assert(views.take(i + 1).drop_last() =~= views.take(i as int));
                assert(views.take(i + 1).last() == found@[i as int]@);
            }
            let event = self.record_alive_host(text_of(found[i].as_str()));
            events.push(event);
            i += 1;
        }
        proof {
            assert(views.take(n as int) =~= views);
        }
        events
    }

    /// The stored host with address `ip`, if any.
    pub fn get_host(&self, ip: &str) -> (r: Option<&Host>)
        ensures
            r is Some <==> has_host(self.hosts(), ip@),
            r is Some ==> exists|i: int|
                0 <= i < self.hosts().len() && self.hosts()[i].ip@ == ip@ && *r->0 == self.hosts()[i],
    {
        match self.find_host(ip) {
            Some(i) => Some(&self.hosts[i]),
            None => None,
        }
    }

    /// All stored hosts.
    pub fn list_hosts(&self) -> (r: &Vec<Host>)
        ensures
            r@ == self.hosts(),
    {
        &self.hosts
    }

    /// The scan options.
    pub fn get_config(&self) -> (r: &ScanConfig)
        ensures
            *r == self.config(),
    {
        &self.config
    }

    /// Replaces the scan options.
    pub fn update_config(&mut self, config: ScanConfig)
        requires
            old(self).wf(),
        ensures
            final(self).wf(),
            final(self).config() == config,
            final(self).jobs() == old(self).jobs(),
            final(self).hosts() == old(self).hosts(),
            final(self).logs() == old(self).logs(),
            final(self).display() == old(self).display(),
    {
        self.config = config;
    }

    /// The display status.
    pub fn get_display_status(&self) -> (r: &DisplayStatus)
        ensures
            *r == self.display(),
    {
        &self.display_status
    }

    /// Replaces the display status.
    pub fn update_display_status(&mut self, status: DisplayStatus)
        requires
            old(self).wf(),
        ensures
            final(self).wf(),
            final(self).display() == status,
            final(self).jobs() == old(self).jobs(),
            final(self).hosts() == old(self).hosts(),
            final(self).logs() == old(self).logs(),
            final(self).config() == old(self).config(),
    {
        self.display_status = status;
    }

    /// Appends a log record with a fresh id, stamped with the current time.
    pub fn add_log(
        &mut self,
        severity: &str,
        service: &str,
        module: Option<&str>,
        job_id: Option<&str>,
        content: &str,
    )
        requires
            old(self).wf(),
        ensures
            final(self).only_logs_differ(old(self)),
            final(self).wf(),
            final(self).jobs() == old(self).jobs(),
            final(self).hosts() == old(self).hosts(),
            final(self).logs().len() == old(self).logs().len() + 1,
            final(self).logs().drop_last() == old(self).logs(),
            ({
                let l = final(self).logs().last();
                &&& l.severity@ == severity@
                &&& l.service@ == service@
                &&& l.content@ == content@
                &&& opt_text(l.module) == match module {
                    Some(m) => Some(m@),
                    None => None::<Seq<char>>,
                }
                &&& opt_text(l.job_id) == match job_id {
                    Some(j) => Some(j@),
                    None => None::<Seq<char>>,
                }
            }),
    {
        let module = match module {
            Some(m) => Some(text_of(m)),
            None => None,
        };
        let job_id = match job_id {
            Some(j) => Some(text_of(j)),
            None => None,
        };
        let l = Log::new(fresh_uuid(), now_rfc3339(), text_of(severity), text_of(service), module, job_id, text_of(content));
        let ghost before = self.logs();
        self.logs.push(l);
        proof {
            assert(self.logs().drop_last() =~= before);
        }
    }

    /// The log records of job `job_id`, oldest first.
    pub fn get_logs_by_job_id(&self, job_id: &str) -> (r: Vec<Log>)
        ensures
            r@.len() == logs_of_job(self.logs(), job_id@).len(),
            forall|k: int|
                0 <= k < r@.len() ==> (#[trigger] r@[k]).id@ == logs_of_job(self.logs(), job_id@)[k].id@
                    && r@[k].content@ == logs_of_job(self.logs(), job_id@)[k].content@
                    && opt_text(r@[k].job_id) == Some(job_id@),
    {
        let n = self.logs.len();
        let mut r: Vec<Log> = Vec::new();
        let mut i: usize = 0;
        while i < n
            invariant
                n == self.logs@.len(),
                i <= n,
                r@.len() == logs_of_job(self.logs().take(i as int), job_id@).len(),
                forall|k: int|
                    0 <= k < r@.len() ==> (#[trigger] r@[k]).id@ == logs_of_job(self.logs().take(i as int), job_id@)[k].id@
                        && r@[k].content@ == logs_of_job(self.logs().take(i as int), job_id@)[k].content@
                        && opt_text(r@[k].job_id) == Some(job_id@),
            decreases n - i,
        {
            proof {
                assert(self.logs().take(i + 1).drop_last() =~= self.logs().take(i as int));
                assert(self.logs().take(i + 1).last() == self.logs@[i as int]);
            }
            let hit = match &self.logs[i].job_id {
                Some(j) => text_eq(j.as_str(), job_id),
                None => false,
            };
            if hit {
                r.push(self.logs[i].duplicate());
            }
            i += 1;
        }
        proof {
            assert(self.logs().take(n as int) =~= self.logs());
        }
        r
    }

    /// The first log record of job `job_id`, if any.
    pub fn get_log(&self, job_id: &str) -> (r: Option<Log>)
        ensures
            r is None <==> logs_of_job(self.logs(), job_id@).len() == 0,
            r is Some ==> {
                let l = logs_of_job(self.logs(), job_id@)[0];
                &&& r->0.id@ == l.id@
                &&& r->0.content@ == l.content@
                &&& opt_text(r->0.job_id) == Some(job_id@)
            },
    {
        let found = self.get_logs_by_job_id(job_id);
        if found.len() == 0 {
            None
        } else {
            proof {
                assert(found@[0].id@ == logs_of_job(self.logs(), job_id@)[0].id@);
            }
            Some(found[0].duplicate())
        }
    }

    /// Deletes the log records older than `days` days before `now` (epoch
    /// seconds); a record whose time cannot be read is kept. Returns how
    /// many were deleted.
    pub fn cleanup_old_logs(&mut self, days: i64, now: i64) -> (r: u64)
        requires
            old(self).wf(),
        ensures
            final(self).wf(),
            final(self).only_logs_differ(old(self)),
            final(self).logs() == logs_kept(old(self).logs(), now - days * 86400),
            r == old(self).logs().len() - final(self).logs().len(),
    {
        let cutoff: i128 = now as i128 - days as i128 * 86400;
        let ghost start = *self;
        let ghost orig = self.logs@;
        let n = self.logs.len();
        let mut i: usize = n;
        proof {
            assert(orig.skip(n as int) =~= Seq::<Log>::empty());
            assert(orig.take(n as int) =~= orig);
            assert(self.logs@ =~= orig.take(n as int) + logs_kept(orig.skip(n as int), cutoff as int));
        }
        while i > 0
            invariant
                i <= n,
                n == orig.len(),
                cutoff == now - days * 86400,
                self.wf(),
                self.only_logs_differ(&start),
                orig == start.logs(),
                self.logs@ == orig.take(i as int) + logs_kept(orig.skip(i as int), cutoff as int),
            decreases i,
        {
            i -= 1;
            let ghost rest = logs_kept(orig.skip(i + 1), cutoff as int);
            proof {
                assert(orig.skip(i as int).drop_first() =~= orig.skip(i + 1));
                assert(orig.skip(i as int)[0] == orig[i as int]);
                assert(self.logs@[i as int] == orig[i as int]);
            }
            let keep = match parse_rfc3339_seconds(self.logs[i].created_at.as_str()) {
                Some(t) => t as i128 >= cutoff,
                None => true,
            };
            if keep {
                proof {
                    assert(self.logs@ =~= orig.take(i as int) + logs_kept(orig.skip(i as int), cutoff as int));
                }
            } else {
                self.logs.remove(i);
                proof {
                    assert(self.logs@ =~= orig.take(i as int) + logs_kept(orig.skip(i as int), cutoff as int));
                }
            }
        }
        proof {
            assert(orig.take(0) + logs_kept(orig.skip(0), cutoff as int) =~= logs_kept(orig, cutoff as int));
            lemma_logs_kept_len(orig, cutoff as int);
        }
        (n - self.logs.len()) as u64
    }

    /// All log records, oldest first.
    pub fn get_logs(&self) -> (r: &Vec<Log>)
        ensures
            r@ == self.logs(),
    {
        &self.logs
    }
}

/// The log records that belong to job `job_id`, in order.
pub open spec fn logs_of_job(logs: Seq<Log>, job_id: Seq<char>) -> Seq<Log>
    decreases logs.len(),
{
    if logs.len() == 0 {
        seq![]
    } else if opt_text(logs.last().job_id) == Some(job_id) {
        logs_of_job(logs.drop_last(), job_id).push(logs.last())
    } else {
        logs_of_job(logs.drop_last(), job_id)
    }
}

/// Whether a host with address `ip` is stored.
pub open spec fn has_host(hosts: Seq<Host>, ip: Seq<char>) -> bool {
    exists|i: int| 0 <= i < hosts.len() && (#[trigger] hosts[i]).ip@ == ip
}

/// The addresses of the stored hosts.
pub open spec fn host_ips(hosts: Seq<Host>) -> Set<Seq<char>> {
    Set::new(|ip: Seq<char>| has_host(hosts, ip))
}

pub open spec fn ips_unique(hosts: Seq<Host>) -> bool {
    forall|i: int, j: int| 0 <= i < j < hosts.len() ==> (#[trigger] hosts[i]).ip@ != (#[trigger] hosts[j]).ip@
}

/// The addresses known after discoveries that found `found` in turn.
pub open spec fn ips_after_discovery(before: Set<Seq<char>>, found: Seq<Seq<char>>) -> Set<Seq<char>>
    decreases found.len(),
{
    if found.len() == 0 {
        before
    } else {
        ips_after_discovery(before, found.drop_last()).insert(found.last())
    }
}

proof fn lemma_discovery_contains(before: Set<Seq<char>>, found: Seq<Seq<char>>)
    ensures
        ips_after_discovery(before, found) == before.union(found.to_set()),
    decreases found.len(),
{
    if found.len() > 0 {
        lemma_discovery_contains(before, found.drop_last());
        assert(found.to_set() =~= found.drop_last().to_set().insert(found.last())) by {
            assert forall|x: Seq<char>| found.to_set().contains(x) <==> found.drop_last().to_set().insert(found.last()).contains(x) by {
                if found.to_set().contains(x) {
                    let k = choose|k: int| 0 <= k < found.len() && found[k] == x;
                    if k < found.len() - 1 {
                        assert(found.drop_last()[k] == x);
                    }
                }
                if found.drop_last().to_set().contains(x) {
                    let k = choose|k: int| 0 <= k < found.drop_last().len() && found.drop_last()[k] == x;
                    assert(found[k] == x);
                }
                if x == found.last() {
                    assert(found[found.len() - 1] == x);
                }
            }
        }
        assert(ips_after_discovery(before, found) =~= before.union(found.to_set()));
    } else {
        assert(found.to_set() =~= Set::<Seq<char>>::empty());
        assert(before.union(found.to_set()) =~= before);
    }
}

/// Running the same discovery twice leaves the same set of host addresses
/// as running it once.
pub proof fn lemma_discovery_idempotent(before: Set<Seq<char>>, found: Seq<Seq<char>>)
    ensures
        ips_after_discovery(ips_after_discovery(before, found), found) == ips_after_discovery(
            before,
            found,
        ),
{
    lemma_discovery_contains(before, found);
    lemma_discovery_contains(ips_after_discovery(before, found), found);
    assert(before.union(found.to_set()).union(found.to_set()) =~= before.union(found.to_set()));
}

/// The jobs that crash recovery starts at once: the first `free` of the
/// running ones.
pub open spec fn resumed(running: Seq<JobView>, free: nat) -> Seq<JobView> {
    if running.len() <= free {
        running
    } else {
        running.take(free as int)
    }
}

proof fn lemma_resumed_push(running: Seq<JobView>, j: JobView, free: nat)
    ensures
        resumed(running.push(j), free) == if running.len() < free {
            resumed(running, free).push(j)
        } else {
            resumed(running, free)
        },
{
    if running.len() < free {
        assert(resumed(running, free) == running);
    } else {
        assert(running.push(j).take(free as int) =~= running.take(free as int));
    }
}

proof fn lemma_none_running(jobs: Seq<JobView>)
    requires
        forall|k: int| 0 <= k < jobs.len() ==> (#[trigger] jobs[k]).3 != "running"@,
    ensures
        with_status(jobs, "running"@).len() == 0,
    decreases jobs.len(),
{
    if jobs.len() > 0 {
        lemma_none_running(jobs.drop_last());
    }
}

} // verus!
