use decebalus::{Host, InMemoryRepository, Job, JobExecutor, JobPriority, RepositoryError};

fn job(id: &str, priority: JobPriority, status: &str) -> Job {
    Job {
        id: id.into(),
        job_type: "discovery".into(),
        priority,
        status: status.into(),
        results: None,
        created_at: "t".into(),
        scheduled_at: None,
        target: None,
    }
}

fn ids(jobs: &[Job]) -> Vec<String> {
    jobs.iter().map(|j| j.id.clone()).collect()
}

#[test]
fn create_job_refuses_duplicate_id() {
    let mut repo = InMemoryRepository::new();
    assert_eq!(repo.create_job(job("a", JobPriority::LOW, "queued")), Ok(()));
    assert_eq!(
        repo.create_job(job("a", JobPriority::HIGH, "queued")),
        Err(RepositoryError::DuplicateId)
    );
    assert_eq!(repo.list_jobs().len(), 1);
    assert_eq!(repo.get_job("a").unwrap().priority, JobPriority::LOW);
}

#[test]
fn list_jobs_most_recent_first() {
    let mut repo = InMemoryRepository::new();
    for id in ["a", "b", "c"] {
        repo.create_job(job(id, JobPriority::NORMAL, "queued")).unwrap();
    }
    assert_eq!(ids(&repo.list_jobs()), vec!["c", "b", "a"]);
    assert!(repo.get_job("zz").is_none());
}

#[test]
fn status_reads_filter_by_status() {
    let mut repo = InMemoryRepository::new();
    repo.create_job(job("q1", JobPriority::NORMAL, "queued")).unwrap();
    repo.create_job(job("r1", JobPriority::NORMAL, "running")).unwrap();
    repo.create_job(job("q2", JobPriority::NORMAL, "queued")).unwrap();
    assert_eq!(ids(&repo.get_queued_jobs()), vec!["q1", "q2"]);
    assert_eq!(ids(&repo.get_running_jobs()), vec!["r1"]);
}

#[test]
fn terminal_status_is_never_left() {
    let mut repo = InMemoryRepository::new();
    repo.create_job(job("a", JobPriority::NORMAL, "queued")).unwrap();
    assert_eq!(repo.update_job_status("a", "running"), Ok(()));
    assert_eq!(repo.update_job_status("a", "cancelled"), Ok(()));
    for s in ["completed", "failed", "queued", "running", "scheduled"] {
        assert_eq!(repo.update_job_status("a", s), Err(RepositoryError::Rejected));
        assert_eq!(repo.get_job("a").unwrap().status, "cancelled");
    }
    assert_eq!(repo.update_job_status("nope", "running"), Err(RepositoryError::NotFound));
}

#[test]
fn results_written_once_at_terminal_status() {
    let mut repo = InMemoryRepository::new();
    repo.create_job(job("a", JobPriority::NORMAL, "running")).unwrap();
    assert_eq!(repo.update_job_results("a", Some("early".into())), Err(RepositoryError::Rejected));
    repo.update_job_status("a", "completed").unwrap();
    assert_eq!(repo.update_job_results("a", Some("done".into())), Ok(()));
    assert_eq!(repo.update_job_results("a", Some("again".into())), Err(RepositoryError::Rejected));
    assert_eq!(repo.get_job("a").unwrap().results.as_deref(), Some("done"));
}

#[test]
fn scenario_job_executor_runs_discovery_successfully() {
    let mut repo = InMemoryRepository::new();
    let mut j = job("job1", JobPriority::NORMAL, "queued");
    j.created_at = "now".into();
    repo.create_job(j).unwrap();

    let started = repo.begin_job("job1").unwrap();
    assert_eq!(started.status, "running");
    assert!(repo.begin_job("job1").is_none());

    let event = repo.finish_job("job1", Ok("{\"hosts_found\":2}".into()));
    assert_eq!(event.as_deref(), Some("job_completed:job1"));
    let updated = repo.get_job("job1").unwrap();
    assert_eq!(updated.status, "completed");
    assert!(updated.results.as_ref().unwrap().contains("\"hosts_found\""));
}

#[test]
fn executor_records_failure_message() {
    let mut repo = InMemoryRepository::new();
    repo.create_job(job("p", JobPriority::NORMAL, "queued")).unwrap();
    repo.begin_job("p").unwrap();
    let msg = decebalus::lifecycle::no_hosts_error();
    let event = repo.finish_job("p", Err(msg));
    assert_eq!(
        event.as_deref(),
        Some("job_failed:p:No hosts available to scan. Run discovery first.")
    );
    let updated = repo.get_job("p").unwrap();
    assert_eq!(updated.status, "failed");
    assert_eq!(
        updated.results.as_deref(),
        Some("No hosts available to scan. Run discovery first.")
    );
}

#[test]
fn cancel_during_run_is_kept() {
    let mut repo = InMemoryRepository::new();
    repo.create_job(job("c", JobPriority::NORMAL, "queued")).unwrap();
    repo.begin_job("c").unwrap();
    repo.update_job_status("c", "cancelled").unwrap();
    assert_eq!(repo.finish_job("c", Ok("payload".into())), None);
    let j = repo.get_job("c").unwrap();
    assert_eq!(j.status, "cancelled");
    assert!(j.results.is_none());
}

#[test]
fn executor_skips_job_no_longer_startable() {
    let mut repo = InMemoryRepository::new();
    repo.create_job(job("d", JobPriority::NORMAL, "completed")).unwrap();
    assert!(repo.begin_job("d").is_none());
    assert!(repo.begin_job("missing").is_none());
}

#[test]
fn priority_ordering_single_permit() {
    let mut repo = InMemoryRepository::new();
    repo.create_job(job("jobB", JobPriority::LOW, "queued")).unwrap();
    repo.create_job(job("jobA", JobPriority::CRITICAL, "queued")).unwrap();

    let plan = JobExecutor::plan_run_queue(&repo.get_queued_jobs(), 1);
    assert_eq!(ids(&plan), vec!["jobA"]);

    repo.begin_job("jobA").unwrap();
    repo.finish_job("jobA", Ok("{}".into()));
    assert_eq!(repo.get_job("jobA").unwrap().status, "completed");
    assert_eq!(repo.get_job("jobB").unwrap().status, "queued");

    let next = JobExecutor::plan_run_queue(&repo.get_queued_jobs(), 1);
    assert_eq!(ids(&next), vec!["jobB"]);
}

#[test]
fn order_by_priority_is_stable_within_band() {
    let jobs = vec![
        job("n1", JobPriority::NORMAL, "queued"),
        job("l1", JobPriority::LOW, "queued"),
        job("c1", JobPriority::CRITICAL, "queued"),
        job("h1", JobPriority::HIGH, "queued"),
        job("n2", JobPriority::NORMAL, "queued"),
        job("c2", JobPriority::CRITICAL, "queued"),
    ];
    let ordered = JobExecutor::order_by_priority(&jobs);
    assert_eq!(ids(&ordered), vec!["c1", "c2", "h1", "n1", "n2", "l1"]);
}

#[test]
fn run_queue_starts_at_most_free_permits() {
    let jobs: Vec<Job> =
        (0..7).map(|i| job(&format!("j{}", i), JobPriority::NORMAL, "queued")).collect();
    assert_eq!(JobExecutor::plan_run_queue(&jobs, 5).len(), 5);
    assert_eq!(JobExecutor::plan_run_queue(&jobs, 0).len(), 0);
    assert_eq!(JobExecutor::plan_run_queue(&jobs[..2].to_vec(), 5).len(), 2);
    assert_eq!(JobExecutor::admission_count(7, 5), 5);
    assert_eq!(JobExecutor::admission_count(3, 5), 3);
}

#[test]
fn scenario_resume_incomplete_jobs_requeues_and_runs() {
    let mut repo = InMemoryRepository::new();
    repo.create_job(job("jobR", JobPriority::NORMAL, "running")).unwrap();

    let started = repo.recover_running_jobs(5);
    assert_eq!(ids(&started), vec!["jobR"]);
    for j in &started {
        repo.begin_job(&j.id).unwrap();
        repo.finish_job(&j.id, Ok("{\"hosts_found\":2}".into()));
    }

    let updated = repo.get_job("jobR").unwrap();
    assert_eq!(updated.status, "completed");
    assert!(updated.results.is_some());
}

#[test]
fn scenario_run_queue_spawns_jobs() {
    let mut repo = InMemoryRepository::new();
    repo.create_job(job("jobA", JobPriority::CRITICAL, "queued")).unwrap();
    repo.create_job(job("jobB", JobPriority::LOW, "queued")).unwrap();

    let plan = JobExecutor::plan_run_queue(&repo.get_queued_jobs(), 5);
    assert_eq!(ids(&plan), vec!["jobA", "jobB"]);
    for j in &plan {
        repo.begin_job(&j.id).unwrap();
        repo.finish_job(&j.id, Ok("{}".into()));
    }

    let a = repo.get_job("jobA").unwrap();
    let b = repo.get_job("jobB").unwrap();
    assert_eq!(a.status, "completed");
    assert_eq!(b.status, "completed");
}

#[test]
fn crash_recovery_requeues_every_running_job() {
    let mut repo = InMemoryRepository::new();
    repo.create_job(job("jobR", JobPriority::NORMAL, "running")).unwrap();
    repo.create_job(job("done", JobPriority::NORMAL, "completed")).unwrap();
    repo.create_job(job("jobS", JobPriority::NORMAL, "running")).unwrap();

    let now = repo.recover_running_jobs(1);
    assert_eq!(ids(&now), vec!["jobR"]);
    assert!(repo.get_running_jobs().is_empty());
    assert_eq!(repo.get_job("jobR").unwrap().status, "queued");
    assert_eq!(repo.get_job("jobS").unwrap().status, "queued");
    assert_eq!(repo.get_job("done").unwrap().status, "completed");

    repo.begin_job("jobR").unwrap();
    repo.finish_job("jobR", Ok("{}".into()));
    let updated = repo.get_job("jobR").unwrap();
    assert_eq!(updated.status, "completed");
    assert!(updated.results.is_some());
}

#[test]
fn scheduled_job_promoted_when_due() {
    let mut repo = InMemoryRepository::new();
    let mut s = job("sched", JobPriority::NORMAL, "scheduled");
    s.scheduled_at = Some(1_000);
    repo.create_job(s).unwrap();

    assert!(repo.get_scheduled_jobs_due(999).is_empty());
    let due = repo.get_scheduled_jobs_due(1_000);
    assert_eq!(ids(&due), vec!["sched"]);

    repo.begin_job("sched").unwrap();
    repo.finish_job("sched", Ok("{}".into()));
    assert_eq!(repo.get_job("sched").unwrap().status, "completed");
    assert!(repo.get_scheduled_jobs_due(2_000).is_empty());
}

#[test]
fn upsert_merges_by_ip() {
    let mut repo = InMemoryRepository::new();
    let mut a = Host::new("10.0.0.1".into());
    a.add_port(80, "http", "open");
    a.add_banner("nginx".into());
    repo.upsert_host(a);

    let mut b = Host::new("10.0.0.1".into());
    b.add_port(22, "ssh", "open");
    b.add_port(80, "http", "open");
    b.add_banner("nginx".into());
    repo.upsert_host(b);

    assert_eq!(repo.list_hosts().len(), 1);
    let h = repo.get_host("10.0.0.1").unwrap();
    let ports: Vec<u16> = h.ports.iter().map(|p| p.number).collect();
    assert_eq!(ports, vec![22, 80]);
    assert_eq!(h.banners, vec!["nginx".to_string()]);
    assert!(repo.get_host("10.0.0.2").is_none());
}

#[test]
fn rediscovery_keeps_same_hosts() {
    let mut repo = InMemoryRepository::new();
    let found = ["10.0.0.5", "10.0.0.9"];
    for ip in found {
        assert_eq!(repo.record_alive_host(ip.to_string()), format!("host_found:{}", ip));
    }
    let first: Vec<String> = repo.list_hosts().iter().map(|h| h.ip.clone()).collect();
    for ip in found {
        repo.record_alive_host(ip.to_string());
    }
    let second: Vec<String> = repo.list_hosts().iter().map(|h| h.ip.clone()).collect();
    assert_eq!(first, second);
    assert!(repo.list_hosts().iter().all(|h| h.ports.is_empty() && h.banners.is_empty()));
}

#[test]
fn logs_are_appended() {
    let mut repo = InMemoryRepository::new();
    repo.add_log("INFO", "scanner", Some("job_executor"), Some("j1"), "Starting job execution");
    repo.add_log("WARN", "db", None, None, "slow");
    let logs = repo.get_logs();
    assert_eq!(logs.len(), 2);
    assert_eq!(logs[0].content, "Starting job execution");
    assert_eq!(logs[0].job_id.as_deref(), Some("j1"));
    assert_eq!(logs[1].severity, "WARN");
    assert!(logs[1].module.is_none());
    assert_ne!(logs[0].id, logs[1].id);
}

#[test]
fn config_and_display_are_replaced() {
    let mut repo = InMemoryRepository::new();
    assert!(repo.get_config().target_network.is_none());
    repo.update_config(decebalus::ScanConfig {
        target_network: Some("10.1.0.0/16".into()),
        port_range: Some(vec![22, 80]),
    });
    assert_eq!(repo.get_config().target_network.as_deref(), Some("10.1.0.0/16"));
    assert_eq!(repo.get_display_status().status, "idle");
    let mut d = decebalus::DisplayStatus::new();
    d.update("busy".into());
    repo.update_display_status(d);
    assert_eq!(repo.get_display_status().status, "busy");
}

#[test]
fn logs_by_job_id_filters() {
    let mut repo = InMemoryRepository::new();
    repo.add_log("INFO", "scanner", None, Some("j1"), "one");
    repo.add_log("INFO", "scanner", None, Some("j2"), "two");
    repo.add_log("INFO", "scanner", None, Some("j1"), "three");
    repo.add_log("INFO", "scanner", None, None, "four");
    let logs = repo.get_logs_by_job_id("j1");
    let contents: Vec<String> = logs.iter().map(|l| l.content.clone()).collect();
    assert_eq!(contents, vec!["one", "three"]);
    assert!(repo.get_logs_by_job_id("j9").is_empty());
}

#[test]
fn request_becomes_queued_or_scheduled_job() {
    let now = decebalus::CreateJobRequest {
        job_type: "export".into(),
        target: None,
        scheduled_at: None,
    }
    .to_job(JobPriority::HIGH);
    assert_eq!(now.status, "queued");
    assert_eq!(now.priority, JobPriority::HIGH);
    assert_eq!(now.job_type, "export");
    assert!(now.target.is_none());

    let later = decebalus::CreateJobRequest {
        job_type: "discovery".into(),
        target: Some("127.0.0.1/32".into()),
        scheduled_at: Some(1_900_000_000),
    }
    .to_job(JobPriority::NORMAL);
    assert_eq!(later.status, "scheduled");
    assert_eq!(later.scheduled_at, Some(1_900_000_000));
    assert_eq!(later.target.as_deref(), Some("127.0.0.1/32"));
    assert_ne!(now.id, later.id);
}

#[test]
fn discovery_on_tiny_cidr_records_its_host() {
    let mut repo = InMemoryRepository::new();
    let job = decebalus::CreateJobRequest {
        job_type: "discovery".into(),
        target: Some("127.0.0.1/32".into()),
        scheduled_at: None,
    }
    .to_job(JobPriority::NORMAL);
    let id = job.id.clone();
    repo.create_job(job).unwrap();

    let started = repo.begin_job(&id).unwrap();
    let target = decebalus::NetworkScanner::discovery_target(&started.target, repo.get_config());
    assert_eq!(target, "127.0.0.1/32");
    let range = decebalus::NetworkScanner::parse_network(&target).unwrap();
    assert_eq!(range.count, 1);
    let ip = decebalus::text::ipv4_string(range.address(0));
    assert_eq!(repo.record_alive_host(ip), "host_found:127.0.0.1");

    repo.finish_job(&id, Ok("{\"hosts_found\":1}".into()));
    assert_eq!(repo.get_job(&id).unwrap().status, "completed");
    assert!(repo.get_host("127.0.0.1").is_some());
}

#[test]
fn ties_within_priority_run_oldest_first() {
    let mut newer = job("newer", JobPriority::NORMAL, "queued");
    newer.created_at = "2".into();
    let mut older = job("older", JobPriority::NORMAL, "queued");
    older.created_at = "1".into();
    let mut low = job("low", JobPriority::LOW, "queued");
    low.created_at = "0".into();
    let plan = JobExecutor::plan_run_queue(&vec![low, newer, older], 2);
    assert_eq!(ids(&plan), vec!["older", "newer"]);
}

#[test]
fn requests_are_stamped_in_creation_order() {
    let req = decebalus::CreateJobRequest { job_type: "export".into(), target: None, scheduled_at: None };
    let a = req.to_job(JobPriority::NORMAL);
    let b = req.to_job(JobPriority::NORMAL);
    assert!(chrono::DateTime::parse_from_rfc3339(&a.created_at).is_ok());
    let plan = JobExecutor::plan_run_queue(&vec![b.clone(), a.clone()], 2);
    if a.created_at < b.created_at {
        assert_eq!(ids(&plan), vec![a.id.clone(), b.id.clone()]);
    }
}

#[test]
fn whole_discovery_recorded_twice_keeps_hosts() {
    let mut repo = InMemoryRepository::new();
    let found = vec!["10.0.0.5".to_string(), "10.0.0.9".to_string(), "10.0.0.5".to_string()];
    let events = repo.record_alive_hosts(&found);
    assert_eq!(events, vec!["host_found:10.0.0.5", "host_found:10.0.0.9", "host_found:10.0.0.5"]);
    let first: Vec<String> = repo.list_hosts().iter().map(|h| h.ip.clone()).collect();
    assert_eq!(first, vec!["10.0.0.5", "10.0.0.9"]);
    repo.record_alive_hosts(&found);
    let second: Vec<String> = repo.list_hosts().iter().map(|h| h.ip.clone()).collect();
    assert_eq!(first, second);
}

#[test]
fn get_log_finds_first_of_job() {
    let mut repo = InMemoryRepository::new();
    repo.add_log("INFO", "scanner", None, Some("j1"), "first");
    repo.add_log("INFO", "scanner", None, Some("j1"), "second");
    assert_eq!(repo.get_log("j1").unwrap().content, "first");
    assert!(repo.get_log("j2").is_none());
}

#[test]
fn cleanup_drops_only_old_readable_logs() {
    let mut repo = InMemoryRepository::new();
    repo.add_log("INFO", "scanner", None, None, "fresh");
    let now = chrono::Utc::now().timestamp();
    assert_eq!(repo.cleanup_old_logs(1, now), 0);
    assert_eq!(repo.get_logs().len(), 1);
    assert_eq!(repo.cleanup_old_logs(-1, now), 1);
    assert!(repo.get_logs().is_empty());
}
