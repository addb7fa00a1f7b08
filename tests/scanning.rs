use decebalus::lifecycle::{
    can_transition, event_host_found, event_job_cancelled, event_job_queued, event_job_running,
    event_job_scheduled, event_log, event_scan_progress, event_display_updated, is_terminal_status,
    job_kind, may_cancel, unknown_type_error,
};
use decebalus::text::{ipv4_string, text_lt};
use decebalus::{port_scan_targets, BannerProbe, Host, JobKind, NetworkScanner, PortScanner, ScanConfig};

#[test]
fn banner_normalization() {
    let raw = "HTTP/1.1 200 OK\r\nServer: X\r\n\r\nhello\r\nworld\r\nextra\r\nmore\r\n";
    assert_eq!(PortScanner::prettify_banner(raw), "HTTP/1.1 200 OK | Server: X | hello | world");
}

#[test]
fn banner_normalization_trims_and_handles_empty() {
    assert_eq!(PortScanner::prettify_banner(""), "");
    assert_eq!(PortScanner::prettify_banner(" \r\n\t\n"), "");
    assert_eq!(PortScanner::prettify_banner("  SSH-2.0-OpenSSH_9.6  "), "SSH-2.0-OpenSSH_9.6");
    assert_eq!(PortScanner::prettify_banner("a\rb\nc"), "ab | c");
}

#[test]
fn tiny_cidr_has_its_one_host() {
    let r = NetworkScanner::parse_network("127.0.0.1/32").unwrap();
    assert_eq!(r.count, 1);
    assert_eq!(ipv4_string(r.address(0)), "127.0.0.1");
}

#[test]
fn slash_24_excludes_network_and_broadcast() {
    let r = NetworkScanner::parse_network("192.168.1.77/24").unwrap();
    assert_eq!(r.count, 254);
    assert_eq!(ipv4_string(r.address(0)), "192.168.1.1");
    assert_eq!(ipv4_string(r.address(253)), "192.168.1.254");
}

#[test]
fn slash_31_and_30_conventions() {
    let r31 = NetworkScanner::parse_network("10.0.0.7/31").unwrap();
    assert_eq!(r31.count, 2);
    assert_eq!(ipv4_string(r31.address(0)), "10.0.0.6");
    let r30 = NetworkScanner::parse_network("10.0.0.7/30").unwrap();
    assert_eq!(r30.count, 2);
    assert_eq!(ipv4_string(r30.address(0)), "10.0.0.5");
    let r16 = NetworkScanner::parse_network("172.16.200.1/16").unwrap();
    assert_eq!(r16.count, 65534);
    assert_eq!(ipv4_string(r16.address(0)), "172.16.0.1");
}

#[test]
fn invalid_cidr_is_refused() {
    assert_eq!(
        NetworkScanner::parse_network("not-a-network"),
        Err("Invalid CIDR notation: not-a-network".to_string())
    );
    assert!(NetworkScanner::parse_network("10.0.0.0/40").is_err());
}

#[test]
fn discovery_target_fallbacks() {
    let none = ScanConfig::new();
    assert_eq!(NetworkScanner::discovery_target(&None, &none), "192.168.68.0/24");
    let cfg = ScanConfig { target_network: Some("10.9.0.0/24".into()), port_range: None };
    assert_eq!(NetworkScanner::discovery_target(&None, &cfg), "10.9.0.0/24");
    assert_eq!(NetworkScanner::discovery_target(&Some("127.0.0.1/32".into()), &cfg), "127.0.0.1/32");
}

#[test]
fn probe_and_common_ports() {
    assert_eq!(NetworkScanner::probe_ports(), vec![80, 443, 22, 21, 445, 3389]);
    let common = PortScanner::common_ports();
    assert_eq!(common.len(), 28);
    assert_eq!(&common[..4], &[80, 443, 8080, 8443]);
    assert_eq!(*common.last().unwrap(), 9200);
    assert_eq!(PortScanner::port_range(&ScanConfig::new()), common);
    let cfg = ScanConfig { target_network: None, port_range: Some(vec![2222, 80]) };
    assert_eq!(PortScanner::port_range(&cfg), vec![2222, 80]);
}

#[test]
fn protocol_inference_table() {
    let cases = [
        (80, "http"), (8080, "http"), (8443, "http"), (443, "https"), (22, "ssh"), (21, "ftp"),
        (20, "ftp"), (25, "smtp"), (465, "smtp"), (587, "smtp"), (110, "pop3"), (995, "pop3"),
        (143, "imap"), (993, "imap"), (3306, "mysql"), (5432, "postgresql"), (1433, "mssql"),
        (27017, "mongodb"), (139, "smb"), (445, "smb"), (135, "smb"), (3389, "rdp"), (53, "dns"),
        (161, "snmp"), (1521, "oracle"), (6379, "redis"), (9200, "elasticsearch"), (23, "unknown"),
        (8000, "unknown"),
    ];
    for (port, name) in cases {
        assert_eq!(PortScanner::infer_protocol(port), name, "port {}", port);
    }
}

#[test]
fn banner_probe_choice() {
    assert_eq!(PortScanner::banner_probe(80), BannerProbe::HttpHead);
    assert_eq!(PortScanner::banner_probe(8000), BannerProbe::HttpHead);
    assert_eq!(PortScanner::banner_probe(21), BannerProbe::FtpHelp);
    assert_eq!(PortScanner::banner_probe(22), BannerProbe::ReadOnly);
}

#[test]
fn scanned_host_records_open_ports_sorted() {
    let h = PortScanner::scanned_host(
        "10.0.0.3".into(),
        &vec![443, 22, 443],
        &vec!["SSH-2.0".to_string(), "SSH-2.0".to_string()],
    );
    let ports: Vec<(u16, String, String)> =
        h.ports.iter().map(|p| (p.number, p.protocol.clone(), p.status.clone())).collect();
    assert_eq!(
        ports,
        vec![
            (22, "ssh".to_string(), "open".to_string()),
            (443, "https".to_string(), "open".to_string()),
        ]
    );
    assert_eq!(h.banners, vec!["SSH-2.0".to_string()]);
}

#[test]
fn port_scan_without_hosts_fails() {
    assert_eq!(
        port_scan_targets(&vec![]),
        Err("No hosts available to scan. Run discovery first.".to_string())
    );
    let hosts = vec![Host::new("10.0.0.1".into()), Host::new("10.0.0.2".into())];
    assert_eq!(port_scan_targets(&hosts), Ok(vec!["10.0.0.1".to_string(), "10.0.0.2".to_string()]));
}

#[test]
fn event_grammar() {
    assert_eq!(event_job_queued("a1", "discovery"), "job_queued:a1:discovery");
    assert_eq!(event_job_scheduled("a1", "export", -42), "job_scheduled:a1:export:-42");
    assert_eq!(event_job_scheduled("a1", "export", 1700000000), "job_scheduled:a1:export:1700000000");
    assert_eq!(event_job_running("a1"), "job_running:a1");
    assert_eq!(event_job_cancelled("a1"), "job_cancelled:a1");
    assert_eq!(event_host_found("10.0.0.1"), "host_found:10.0.0.1");
    assert_eq!(event_scan_progress("a1", "10.0.0.1", 12), "scan_progress:a1:10.0.0.1:12");
    assert_eq!(event_display_updated("hi"), "display_updated:hi");
    assert_eq!(event_log("started"), "log:started");
}

#[test]
fn job_kinds_and_unknown_type() {
    assert_eq!(job_kind("discovery"), JobKind::Discovery);
    assert_eq!(job_kind("port-scan"), JobKind::PortScan);
    assert_eq!(job_kind("nmap-scan"), JobKind::NmapScan);
    assert_eq!(job_kind("export"), JobKind::Export);
    assert_eq!(job_kind("scan"), JobKind::Unknown);
    assert_eq!(unknown_type_error("scan"), "Unknown job type: scan");
}

#[test]
fn transitions_and_cancel_rules() {
    assert!(can_transition("queued", "running"));
    assert!(can_transition("scheduled", "running"));
    assert!(can_transition("running", "queued"));
    assert!(!can_transition("queued", "completed"));
    assert!(!can_transition("completed", "running"));
    assert!(is_terminal_status("failed"));
    assert!(!is_terminal_status("running"));
    assert!(may_cancel("queued") && may_cancel("running"));
    assert!(!may_cancel("scheduled") && !may_cancel("completed"));
}

#[test]
fn text_order_and_addresses() {
    assert!(text_lt("http", "https"));
    assert!(!text_lt("https", "http"));
    assert!(text_lt("a", "b"));
    assert!(!text_lt("x", "x"));
    assert_eq!(ipv4_string(0), "0.0.0.0");
    assert_eq!(ipv4_string(u32::MAX), "255.255.255.255");
}

#[test]
fn scanned_host_skips_empty_banners() {
    let h = PortScanner::scanned_host("10.0.0.4".into(), &vec![], &vec![String::new(), "x".to_string()]);
    assert!(h.ports.is_empty());
    assert_eq!(h.banners, vec!["x".to_string()]);
}
