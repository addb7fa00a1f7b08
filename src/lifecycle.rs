//! The job state machine, the event message grammar, and the choice of
//! runner for a job type.
use vstd::prelude::*;
use crate::models::Job;
use crate::text::{push_decimal, push_signed, push_text, signed_decimal, decimal, text_eq, text_of};

verus! {

/// `completed`, `failed` and `cancelled` are terminal: no transition leaves them.
pub open spec fn is_terminal(s: Seq<char>) -> bool {
    s == "completed"@ || s == "failed"@ || s == "cancelled"@
}

/// The permitted status transitions.
///
/// `queued` starts running or is cancelled; a `scheduled` job falls due
/// (`queued`) or is started directly; a `running` job ends in `completed`,
/// `failed` or `cancelled`, or is put back to `queued` when it is resumed
/// after a restart.
pub open spec fn transition_allowed(from: Seq<char>, to: Seq<char>) -> bool {
    ||| from == "queued"@ && (to == "running"@ || to == "cancelled"@)
    ||| from == "scheduled"@ && (to == "queued"@ || to == "running"@)
    ||| from == "running"@ && (to == "completed"@ || to == "failed"@ || to == "cancelled"@
        || to == "queued"@)
}

/// The status after a write of `to` to a job in `from`: a permitted
/// transition takes effect, any other write leaves the status as it was.
pub open spec fn next_status(from: Seq<char>, to: Seq<char>) -> Seq<char> {
    if transition_allowed(from, to) {
        to
    } else {
        from
    }
}

/// The status after a series of writes, applied in order.
pub open spec fn status_after_writes(from: Seq<char>, writes: Seq<Seq<char>>) -> Seq<char>
    decreases writes.len(),
{
    if writes.len() == 0 {
        from
    } else {
        next_status(status_after_writes(from, writes.drop_last()), writes.last())
    }
}

/// Whether a job in `s` may be admitted into `running`.
pub open spec fn startable(s: Seq<char>) -> bool {
    s == "queued"@ || s == "scheduled"@
}

/// Whether a job in `s` may be cancelled.
pub open spec fn cancellable(s: Seq<char>) -> bool {
    s == "queued"@ || s == "running"@
}

/// The six status words are pairwise different.
pub proof fn lemma_status_words_distinct()
    ensures
        "queued"@ != "running"@,
        "queued"@ != "scheduled"@,
        "queued"@ != "completed"@,
        "queued"@ != "failed"@,
        "queued"@ != "cancelled"@,
        "running"@ != "scheduled"@,
        "running"@ != "completed"@,
        "running"@ != "failed"@,
        "running"@ != "cancelled"@,
        "scheduled"@ != "completed"@,
        "scheduled"@ != "failed"@,
        "scheduled"@ != "cancelled"@,
        "completed"@ != "failed"@,
        "completed"@ != "cancelled"@,
        "failed"@ != "cancelled"@,
{
    reveal_strlit("queued");
    reveal_strlit("running");
    reveal_strlit("scheduled");
    reveal_strlit("completed");
    reveal_strlit("failed");
    reveal_strlit("cancelled");
    assert("queued"@[0] != "running"@[0]);
    assert("scheduled"@[0] != "completed"@[0]);
    assert("scheduled"@[0] != "cancelled"@[0]);
    assert("completed"@[2] != "cancelled"@[2]);
}

/// A terminal status admits no transition: once a job is `completed`,
/// `failed` or `cancelled`, no write changes its status.
pub proof fn lemma_terminal_is_final(from: Seq<char>, to: Seq<char>)
    requires
        is_terminal(from),
    ensures
        !transition_allowed(from, to),
        next_status(from, to) == from,
{
    lemma_status_words_distinct();
}

/// Whatever series of status writes reaches a job in a terminal status, its
/// status stays what it was.
pub proof fn lemma_terminal_never_changes(from: Seq<char>, writes: Seq<Seq<char>>)
    requires
        is_terminal(from),
    ensures
        status_after_writes(from, writes) == from,
    decreases writes.len(),
{
    if writes.len() > 0 {
        lemma_terminal_never_changes(from, writes.drop_last());
        lemma_terminal_is_final(from, writes.last());
    }
}

/// A job that crash recovery puts back to `queued` runs at most once more
/// per admission: it is startable, once admitted (`running`) it is not, so
/// a second admission is refused; and the outcome of its run, `completed`
/// or `failed`, is terminal, so no later write changes it.
pub proof fn lemma_resumed_job_runs_once(ok: bool, writes: Seq<Seq<char>>)
    ensures
        startable("queued"@),
        transition_allowed("queued"@, "running"@),
        !startable("running"@),
        next_status("running"@, outcome_status(ok)) == outcome_status(ok),
        is_terminal(outcome_status(ok)),
        status_after_writes(outcome_status(ok), writes) == outcome_status(ok),
{
    lemma_status_words_distinct();
    lemma_terminal_never_changes(outcome_status(ok), writes);
}

/// `completed` and `failed` are reached from `running` only.
pub proof fn lemma_outcomes_only_from_running(from: Seq<char>, to: Seq<char>)
    requires
        to == "completed"@ || to == "failed"@,
        transition_allowed(from, to),
    ensures
        from == "running"@,
{
    lemma_status_words_distinct();
}

pub fn is_terminal_status(s: &str) -> (r: bool)
    ensures
        r == is_terminal(s@),
{
    text_eq(s, "completed") || text_eq(s, "failed") || text_eq(s, "cancelled")
}

/// Decides `transition_allowed`.
pub fn can_transition(from: &str, to: &str) -> (r: bool)
    ensures
        r == transition_allowed(from@, to@),
{
    proof {
        lemma_status_words_distinct();
    }
    if text_eq(from, "queued") {
        text_eq(to, "running") || text_eq(to, "cancelled")
    } else if text_eq(from, "scheduled") {
        text_eq(to, "queued") || text_eq(to, "running")
    } else if text_eq(from, "running") {
        text_eq(to, "completed") || text_eq(to, "failed") || text_eq(to, "cancelled") || text_eq(
            to,
            "queued",
        )
    } else {
        false
    }
}

/// Whether a job read back in status `s` may be started.
pub fn may_start(s: &str) -> (r: bool)
    ensures
        r == startable(s@),
{
    text_eq(s, "queued") || text_eq(s, "scheduled")
}

/// Whether a cancel request on a job in status `s` is accepted.
pub fn may_cancel(s: &str) -> (r: bool)
    ensures
        r == cancellable(s@),
{
    text_eq(s, "queued") || text_eq(s, "running")
}

/// Admission check of the executor on the job as read back from the store:
/// it must still exist and be `queued` or `scheduled`.
pub fn admission_check(stored: &Option<Job>) -> (r: bool)
    ensures
        r == (stored is Some && startable(stored->0.status@)),
{
    match stored {
        Some(job) => may_start(job.status.as_str()),
        None => false,
    }
}

/// The runner a job type selects.
#[derive(Clone, Copy, Debug, PartialEq, Eq, Structural)]
pub enum JobKind {
    Discovery,
    PortScan,
    NmapScan,
    Export,
    Unknown,
}

pub open spec fn kind_of(t: Seq<char>) -> JobKind {
    if t == "discovery"@ {
        JobKind::Discovery
    } else if t == "port-scan"@ {
        JobKind::PortScan
    } else if t == "nmap-scan"@ {
        JobKind::NmapScan
    } else if t == "export"@ {
        JobKind::Export
    } else {
        JobKind::Unknown
    }
}

pub fn job_kind(t: &str) -> (k: JobKind)
    ensures
        k == kind_of(t@),
{
    if text_eq(t, "discovery") {
        JobKind::Discovery
    } else if text_eq(t, "port-scan") {
        JobKind::PortScan
    } else if text_eq(t, "nmap-scan") {
        JobKind::NmapScan
    } else if text_eq(t, "export") {
        JobKind::Export
    } else {
        JobKind::Unknown
    }
}

/// The failure message of a job whose type has no runner.
pub fn unknown_type_error(t: &str) -> (r: String)
    ensures
        r@ == "Unknown job type: "@ + t@,
{
    let mut r = text_of("Unknown job type: ");
    push_text(&mut r, t);
    r
}

/// The failure message of a port scan with no hosts in the store.
pub fn no_hosts_error() -> (r: String)
    ensures
        r@ == "No hosts available to scan. Run discovery first."@,
{
    text_of("No hosts available to scan. Run discovery first.")
}

/// The terminal status that a runner's outcome leads to.
pub open spec fn outcome_status(ok: bool) -> Seq<char> {
    if ok {
        "completed"@
    } else {
        "failed"@
    }
}

/// `job_queued:<id>:<type>`
pub fn event_job_queued(id: &str, job_type: &str) -> (r: String)
    ensures
        r@ == "job_queued:"@ + id@ + ":"@ + job_type@,
{
    let mut r = text_of("job_queued:");
    push_text(&mut r, id);
    push_text(&mut r, ":");
    push_text(&mut r, job_type);
    r
}

/// `job_scheduled:<id>:<type>:<epoch>`
pub fn event_job_scheduled(id: &str, job_type: &str, epoch: i64) -> (r: String)
    ensures
        r@ == "job_scheduled:"@ + id@ + ":"@ + job_type@ + ":"@ + signed_decimal(epoch as int),
{
    let mut r = text_of("job_scheduled:");
    push_text(&mut r, id);
    push_text(&mut r, ":");
    push_text(&mut r, job_type);
    push_text(&mut r, ":");
    push_signed(&mut r, epoch);
    r
}

/// `job_running:<id>`
pub fn event_job_running(id: &str) -> (r: String)
    ensures
        r@ == "job_running:"@ + id@,
{
    let mut r = text_of("job_running:");
    push_text(&mut r, id);
    r
}

/// `job_completed:<id>`
pub fn event_job_completed(id: &str) -> (r: String)
    ensures
        r@ == "job_completed:"@ + id@,
{
    let mut r = text_of("job_completed:");
    push_text(&mut r, id);
    r
}

/// `job_failed:<id>:<msg>`
pub fn event_job_failed(id: &str, msg: &str) -> (r: String)
    ensures
        r@ == "job_failed:"@ + id@ + ":"@ + msg@,
{
    let mut r = text_of("job_failed:");
    push_text(&mut r, id);
    push_text(&mut r, ":");
    push_text(&mut r, msg);
    r
}

/// `job_cancelled:<id>`
pub fn event_job_cancelled(id: &str) -> (r: String)
    ensures
        r@ == "job_cancelled:"@ + id@,
{
    let mut r = text_of("job_cancelled:");
    push_text(&mut r, id);
    r
}

/// `host_found:<ip>`
pub fn event_host_found(ip: &str) -> (r: String)
    ensures
        r@ == "host_found:"@ + ip@,
{
    let mut r = text_of("host_found:");
    push_text(&mut r, ip);
    r
}

/// `scan_progress:<job_id>:<ip>:<open_count>`
pub fn event_scan_progress(job_id: &str, ip: &str, open_count: u64) -> (r: String)
    ensures
        r@ == "scan_progress:"@ + job_id@ + ":"@ + ip@ + ":"@ + decimal(open_count as nat),
{
    let mut r = text_of("scan_progress:");
    push_text(&mut r, job_id);
    push_text(&mut r, ":");
    push_text(&mut r, ip);
    push_text(&mut r, ":");
    push_decimal(&mut r, open_count);
    r
}

/// `display_updated:<text>`
pub fn event_display_updated(text: &str) -> (r: String)
    ensures
        r@ == "display_updated:"@ + text@,
{
    let mut r = text_of("display_updated:");
    push_text(&mut r, text);
    r
}

/// `log:<message>`
pub fn event_log(message: &str) -> (r: String)
    ensures
        r@ == "log:"@ + message@,
{
    let mut r = text_of("log:");
    push_text(&mut r, message);
    r
}

/// The event that announces a runner's outcome: `job_completed:<id>` on
/// success, `job_failed:<id>:<msg>` on failure.
pub fn outcome_event(id: &str, outcome: &Result<String, String>) -> (r: String)
    ensures
        outcome is Ok ==> r@ == "job_completed:"@ + id@,
        outcome is Err ==> r@ == "job_failed:"@ + id@ + ":"@ + outcome->Err_0@,
{
    match outcome {
        Ok(_) => event_job_completed(id),
        Err(msg) => event_job_failed(id, msg.as_str()),
    }
}

} // verus!
