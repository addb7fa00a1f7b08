use decebalus::{
    default_job_type, CreateJobRequest, DisplayStatus, Host, HostStatus, Job, JobPriority, Log,
};

#[test]
fn display_new_initializes_correctly() {
    let ds = DisplayStatus::new();

    assert_eq!(ds.status, "idle");
    assert_eq!(ds.last_update, "never");
}

#[test]
fn update_changes_status_and_timestamp() {
    let mut ds = DisplayStatus::new();

    let old_update = ds.last_update.clone();

    ds.update("running".into());

    assert_eq!(ds.status, "running");
    assert!(ds.last_update != old_update);

    assert!(chrono::DateTime::parse_from_rfc3339(&ds.last_update).is_ok());
}

#[test]
fn default_matches_new() {
    let d1 = DisplayStatus::new();
    let d2 = DisplayStatus::default();

    assert_eq!(d1.status, d2.status);
    assert_eq!(d1.last_update, d2.last_update);
}

#[test]
fn host_new_initializes_correctly() {
    let h = Host::new("192.168.1.10".into());

    assert_eq!(h.ip, "192.168.1.10");
    assert_eq!(h.status, HostStatus::Unknown);
    assert!(h.ports.is_empty());
    assert!(h.services.is_empty());
    assert!(h.vulnerabilities.is_empty());
    assert!(h.banners.is_empty());

    assert!(chrono::DateTime::parse_from_rfc3339(&h.first_seen).is_ok());
    assert!(chrono::DateTime::parse_from_rfc3339(&h.last_seen).is_ok());
}

#[test]
fn add_port_adds_new_port() {
    let mut h = Host::new("10.0.0.1".into());

    h.add_port(22, "tcp", "open");

    assert_eq!(h.ports.len(), 1);
    let p = &h.ports[0];
    assert_eq!(p.number, 22);
    assert_eq!(p.protocol, "tcp");
    assert_eq!(p.status, "open");
}

#[test]
fn add_port_updates_existing_port() {
    let mut h = Host::new("10.0.0.1".into());

    h.add_port(22, "tcp", "open");
    h.add_port(22, "tcp", "closed");

    assert_eq!(h.ports.len(), 1);
    assert_eq!(h.ports[0].status, "closed");
}

#[test]
fn add_port_sorts_ports() {
    let mut h = Host::new("10.0.0.1".into());

    h.add_port(443, "tcp", "open");
    h.add_port(22, "tcp", "open");
    h.add_port(80, "tcp", "open");

    let ordered: Vec<u16> = h.ports.iter().map(|p| p.number).collect();
    assert_eq!(ordered, vec![22, 80, 443]);
}

#[test]
fn add_port_orders_same_number_by_protocol() {
    let mut h = Host::new("10.0.0.1".into());

    h.add_port(53, "udp", "open");
    h.add_port(53, "tcp", "open");
    h.add_port(53, "udp", "filtered");

    let keys: Vec<(u16, String, String)> =
        h.ports.iter().map(|p| (p.number, p.protocol.clone(), p.status.clone())).collect();
    assert_eq!(
        keys,
        vec![
            (53, "tcp".to_string(), "open".to_string()),
            (53, "udp".to_string(), "filtered".to_string()),
        ]
    );
}

#[test]
fn add_banner_adds_only_once() {
    let mut h = Host::new("10.0.0.1".into());

    h.add_banner("Apache".into());
    h.add_banner("Apache".into());

    assert_eq!(h.banners.len(), 1);
    assert_eq!(h.banners[0], "Apache");
}

#[test]
fn add_banner_keeps_insertion_order() {
    let mut h = Host::new("10.0.0.1".into());

    h.add_banner("b".into());
    h.add_banner("a".into());
    h.add_banner("b".into());

    assert_eq!(h.banners, vec!["b".to_string(), "a".to_string()]);
}

#[test]
fn merge_unites_ports_and_banners() {
    let mut stored = Host::new("10.0.0.1".into());
    stored.add_port(80, "http", "open");
    stored.add_port(22, "ssh", "closed");
    stored.add_banner("SSH-2.0".into());

    let mut seen = Host::new("10.0.0.1".into());
    seen.add_port(22, "ssh", "open");
    seen.add_port(443, "https", "open");
    seen.add_banner("SSH-2.0".into());
    seen.add_banner("nginx".into());
    seen.last_seen = "2030-01-01T00:00:00+00:00".into();

    stored.merge_from(&seen);

    let ports: Vec<(u16, String)> =
        stored.ports.iter().map(|p| (p.number, p.status.clone())).collect();
    assert_eq!(
        ports,
        vec![(22, "open".to_string()), (80, "open".to_string()), (443, "open".to_string())]
    );
    assert_eq!(stored.banners, vec!["SSH-2.0".to_string(), "nginx".to_string()]);
    assert_eq!(stored.last_seen, "2030-01-01T00:00:00+00:00");
}

#[test]
fn default_uses_correct_ip() {
    let h = Host::default();
    assert_eq!(h.ip, "0.0.0.0");
}

#[test]
fn host_status_labels() {
    assert_eq!(HostStatus::Up.label(), "Host Status Up");
    assert_eq!(HostStatus::Down.label(), "Host Status Down");
    assert_eq!(HostStatus::Unknown.label(), "Host Status Unknown");
}

#[test]
fn job_new_initializes_correctly() {
    let job = Job::new("scan".into());

    assert_eq!(job.job_type, "scan");
    assert_eq!(job.status, "queued");
    assert_eq!(job.priority, JobPriority::NORMAL);
    assert!(job.results.is_none());
    assert!(job.created_at.is_empty());
    assert!(job.scheduled_at.is_none());
    assert!(job.target.is_none());

    assert!(!job.id.is_empty());
}

#[test]
fn uuid_is_unique() {
    let job1 = Job::new("scan".into());
    let job2 = Job::new("scan".into());

    assert_ne!(job1.id, job2.id);
}

#[test]
fn job_id_is_hyphenated_uuid() {
    let job = Job::new("scan".into());
    assert_eq!(job.id.chars().count(), 36);
    assert!(uuid::Uuid::parse_str(&job.id).is_ok());
}

#[test]
fn status_checks_work() {
    let mut job = Job::new("scan".into());

    assert!(job.is_queued());
    assert!(!job.is_running());
    assert!(!job.is_completed());
    assert!(!job.is_cancelled());
    assert!(!job.is_scheduled());

    job.status = "running".into();
    assert!(job.is_running());

    job.status = "completed".into();
    assert!(job.is_completed());

    job.status = "cancelled".into();
    assert!(job.is_cancelled());

    job.status = "scheduled".into();
    assert!(job.is_scheduled());
}

#[test]
fn results_can_be_stored() {
    let mut job = Job::new("scan".into());
    job.results = Some("OK".to_string());

    assert_eq!(job.results.unwrap(), "OK");
}

#[test]
fn duplicate_copies_every_field() {
    let job = Job {
        id: "j".into(),
        job_type: "export".into(),
        priority: JobPriority::HIGH,
        status: "failed".into(),
        results: Some("boom".into()),
        created_at: "t0".into(),
        scheduled_at: Some(-5),
        target: Some("10.0.0.0/8".into()),
    };
    let d = job.duplicate();
    assert_eq!(d.id, "j");
    assert_eq!(d.job_type, "export");
    assert_eq!(d.priority, JobPriority::HIGH);
    assert_eq!(d.status, "failed");
    assert_eq!(d.results.as_deref(), Some("boom"));
    assert_eq!(d.created_at, "t0");
    assert_eq!(d.scheduled_at, Some(-5));
    assert_eq!(d.target.as_deref(), Some("10.0.0.0/8"));
}

#[test]
fn priority_ranks_are_ordered() {
    assert_eq!(JobPriority::LOW.rank(), 0);
    assert_eq!(JobPriority::NORMAL.rank(), 1);
    assert_eq!(JobPriority::HIGH.rank(), 2);
    assert_eq!(JobPriority::CRITICAL.rank(), 3);
}

#[test]
fn log_new_initializes_correctly() {
    let log = Log::new(
        "id123".into(),
        "2025-11-20T12:00:00Z".into(),
        "INFO".into(),
        "scanner".into(),
        Some("network".into()),
        Some("job42".into()),
        "Scan completed".into(),
    );

    assert_eq!(log.id, "id123");
    assert_eq!(log.created_at, "2025-11-20T12:00:00Z");
    assert_eq!(log.severity, "INFO");
    assert_eq!(log.service, "scanner");
    assert_eq!(log.module.unwrap(), "network");
    assert_eq!(log.job_id.unwrap(), "job42");
    assert_eq!(log.content, "Scan completed");
}

#[test]
fn optional_fields_can_be_none() {
    let log = Log::new(
        "id123".into(),
        "2025-11-20T12:00:00Z".into(),
        "WARN".into(),
        "database".into(),
        None,
        None,
        "Something happened".into(),
    );

    assert!(log.module.is_none());
    assert!(log.job_id.is_none());
}

#[test]
fn default_job_type_is_discovery() {
    assert_eq!(default_job_type(), "discovery");
}

#[test]
fn discovery_request_needs_valid_target() {
    let missing = CreateJobRequest { job_type: "discovery".into(), target: None, scheduled_at: None };
    assert!(missing.validate().is_err());

    let bad = CreateJobRequest {
        job_type: "discovery".into(),
        target: Some("10.0.0.0/33".into()),
        scheduled_at: None,
    };
    assert_eq!(bad.validate(), Err("Invalid CIDR notation: 10.0.0.0/33".to_string()));

    let good = CreateJobRequest {
        job_type: "discovery".into(),
        target: Some("10.0.0.0/24".into()),
        scheduled_at: None,
    };
    assert!(good.validate().is_ok());

    let other = CreateJobRequest { job_type: "port-scan".into(), target: None, scheduled_at: None };
    assert!(other.validate().is_ok());
}

#[test]
fn update_last_seen_takes_given_time() {
    let mut h = Host::new("10.0.0.1".into());
    h.add_port(22, "ssh", "open");
    h.update_last_seen("2031-05-05T00:00:00+00:00".into());
    assert_eq!(h.last_seen, "2031-05-05T00:00:00+00:00");
    assert_eq!(h.ports.len(), 1);
}
