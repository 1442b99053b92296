//! The engine core: target expansion, monitoring statistics, the
//! concurrency limiter, and result ordering.

use nettools::expand::expand_targets;
use nettools::limiter::Limiter;
use nettools::monitor::{monitor_init_hosts, monitor_tick, HostStats, MonitorState};
use nettools::ports::{assemble_port_scan, classify_port, ConnectOutcome, PortResult};
use nettools::ip_octets_value;
use nettools::scanner::{assemble_scan_result, ip_sort_key, PingResult};

fn ip_value(s: &str) -> u32 {
    s.split('.').fold(0u32, |acc, o| (acc << 8) | o.parse::<u32>().unwrap())
}

#[test]
fn cidr_block_capped_at_256_ascending() {
    let ips = expand_targets("192.168.0.0/24");
    assert_eq!(ips.len(), 256);
    assert_eq!(ips[0], "192.168.0.0");
    assert_eq!(ips[255], "192.168.0.255");
    for w in ips.windows(2) {
        assert!(ip_value(&w[0]) < ip_value(&w[1]));
    }
    let big = expand_targets("10.0.0.0/16");
    assert_eq!(big.len(), 256);
    assert_eq!(big[0], "10.0.0.0");
    assert_eq!(big[255], "10.0.0.255");
}

#[test]
fn cidr_small_blocks_exact_size() {
    assert_eq!(expand_targets("10.0.0.0/25").len(), 128);
    assert_eq!(expand_targets("10.0.0.0/30").len(), 4);
    assert_eq!(expand_targets("10.0.0.1/32"), vec!["10.0.0.1".to_string()]);
    assert_eq!(expand_targets("10.0.0.7/31").len(), 2);
}

#[test]
fn cidr_uses_network_address() {
    let ips = expand_targets("192.168.1.77/30");
    assert_eq!(
        ips,
        vec!["192.168.1.76", "192.168.1.77", "192.168.1.78", "192.168.1.79"]
    );
}

#[test]
fn malformed_cidr_expands_to_nothing() {
    assert!(expand_targets("abc/24").is_empty());
    assert!(expand_targets("192.168.1.0/33").is_empty());
    assert!(expand_targets("1.2.3/24").is_empty());
}

#[test]
fn short_range_inclusive_ascending() {
    let ips = expand_targets("192.168.1.1-254");
    assert_eq!(ips.len(), 254);
    assert_eq!(ips[0], "192.168.1.1");
    assert_eq!(ips[253], "192.168.1.254");
    for w in ips.windows(2) {
        assert!(ip_value(&w[0]) < ip_value(&w[1]));
    }
}

#[test]
fn reversed_short_range_is_empty() {
    assert!(expand_targets("192.168.1.200-100").is_empty());
}

#[test]
fn full_range_capped_and_reversed_empty() {
    let ips = expand_targets("10.0.0.250-10.0.1.5");
    assert_eq!(ips.len(), 12);
    assert_eq!(ips[0], "10.0.0.250");
    assert_eq!(ips[11], "10.0.1.5");
    let capped = expand_targets("10.0.0.0-10.0.9.9");
    assert_eq!(capped.len(), 256);
    assert!(expand_targets("10.0.0.9-10.0.0.1").is_empty());
}

#[test]
fn single_host_passes_through_trimmed() {
    assert_eq!(expand_targets("  myhost  "), vec!["myhost".to_string()]);
    assert_eq!(expand_targets("10.1.2.3"), vec!["10.1.2.3".to_string()]);
}

#[test]
fn monitor_init_dedups_and_sorts() {
    let got = monitor_init_hosts("10.0.0.1, 10.0.0.1, 10.0.0.2".to_string()).unwrap();
    assert_eq!(got, vec!["10.0.0.1".to_string(), "10.0.0.2".to_string()]);
}

#[test]
fn monitor_init_caps_at_100() {
    let got = monitor_init_hosts("10.0.0.0/24".to_string()).unwrap();
    assert_eq!(got.len(), 100);
}

#[test]
fn add_result_three_probes() {
    let mut s = HostStats::new("10.0.0.1".to_string(), None);
    s.add_result(true, Some(10_000));
    s.add_result(false, None);
    s.add_result(true, Some(30_000));
    assert_eq!(s.total_sent, 3);
    assert_eq!(s.total_received, 2);
    // 1 lost of 3 sent, in hundredths of a percent
    assert_eq!(s.packet_loss, 3333);
    assert_eq!(s.min_rtt, Some(10_000));
    assert_eq!(s.max_rtt, Some(30_000));
    assert_eq!(s.avg_rtt, Some(20_000));
    assert_eq!(s.status, "online");
    assert_eq!(s.current_rtt, Some(30_000));
}

#[test]
fn history_is_a_sliding_window_of_60() {
    let mut s = HostStats::new("10.0.0.1".to_string(), None);
    for i in 0..100u32 {
        s.add_result_at(true, Some(i * 1000), i as u64);
    }
    assert_eq!(s.history.len(), 60);
    // the oldest surviving entry is the 41st call's data
    assert_eq!(s.history[0].timestamp, 40);
    assert_eq!(s.history[0].rtt_us, Some(40_000));
    assert_eq!(s.history[59].timestamp, 99);
    assert_eq!(s.total_sent, 100);
}

#[test]
fn failure_flips_status_offline() {
    let mut s = HostStats::new("10.0.0.1".to_string(), None);
    s.add_result_at(true, Some(5_000), 1);
    s.add_result_at(false, None, 2);
    assert_eq!(s.status, "offline");
    assert_eq!(s.current_rtt, None);
    assert_eq!(s.min_rtt, Some(5_000));
    assert_eq!(s.packet_loss, 5000);
}

#[test]
fn tick_creates_and_updates() {
    let first = monitor_tick(
        "10.0.0.9".to_string(),
        None,
        Some("printer.local".to_string()),
        true,
        Some(2_000),
    );
    assert_eq!(first.ip, "10.0.0.9");
    assert_eq!(first.hostname, Some("printer.local".to_string()));
    assert_eq!(first.total_sent, 1);
    assert_eq!(first.status, "online");
    let second = monitor_tick("10.0.0.9".to_string(), Some(first), None, false, None);
    assert_eq!(second.total_sent, 2);
    assert_eq!(second.status, "offline");
}

#[test]
fn registry_keys_are_unique() {
    let mut m = MonitorState::new();
    m.put_host(HostStats::new("10.0.0.1".to_string(), None));
    m.put_host(HostStats::new("10.0.0.2".to_string(), None));
    let mut again = HostStats::new("10.0.0.1".to_string(), None);
    again.add_result_at(true, Some(1_000), 7);
    m.put_host(again);
    assert_eq!(m.hosts.len(), 2);
    let at = m.find_host("10.0.0.1").unwrap();
    assert_eq!(m.hosts[at].total_sent, 1);
    assert!(m.find_host("10.9.9.9").is_none());
}

#[test]
fn limiter_never_exceeds_capacity() {
    let mut l = Limiter::for_targets(50, 200);
    assert_eq!(l.capacity, 50);
    let mut granted = 0usize;
    // launch 200 probes; whenever the limiter is full, one in-flight
    // probe completes and releases its slot before the next acquire
    for _ in 0..200 {
        if !l.try_acquire() {
            l.release();
            assert!(l.try_acquire());
        }
        granted += 1;
        assert!(l.in_flight <= l.capacity);
        assert!(l.high_water <= l.capacity);
    }
    assert_eq!(granted, 200);
    assert_eq!(l.high_water, 50);
}

#[test]
fn limiter_shrinks_to_target_count() {
    let mut l = Limiter::for_targets(50, 3);
    assert_eq!(l.capacity, 3);
    assert!(l.try_acquire());
    assert!(l.try_acquire());
    assert!(l.try_acquire());
    assert!(!l.try_acquire());
    assert_eq!(l.high_water, 3);
    l.release();
    assert_eq!(l.in_flight, 2);
}

fn ping(ip: &str, status: &str) -> PingResult {
    PingResult {
        ip: ip.to_string(),
        hostname: None,
        status: status.to_string(),
        rtt_us: None,
        ttl: None,
    }
}

#[test]
fn scan_results_sorted_by_address_value() {
    // completion order deliberately scrambled
    let results = vec![
        ping("192.168.1.20", "online"),
        ping("192.168.1.3", "offline"),
        ping("192.168.1.100", "online"),
        ping("192.168.1.1", "timeout"),
    ];
    let scan = assemble_scan_result(results, 4, false, 12);
    let ips: Vec<&str> = scan.results.iter().map(|r| r.ip.as_str()).collect();
    assert_eq!(ips, vec!["192.168.1.1", "192.168.1.3", "192.168.1.20", "192.168.1.100"]);
    assert_eq!(scan.total_hosts, 4);
    assert_eq!(scan.responding_hosts, 2);
    assert_eq!(scan.duration_ms, 12);
}

#[test]
fn scan_filter_keeps_only_responders() {
    let results = vec![
        ping("10.0.0.2", "offline"),
        ping("10.0.0.1", "online"),
        ping("10.0.0.3", "timeout"),
    ];
    let scan = assemble_scan_result(results, 3, true, 1);
    assert_eq!(scan.results.len(), 1);
    assert_eq!(scan.results[0].ip, "10.0.0.1");
    assert_eq!(scan.responding_hosts, 1);
}

#[test]
fn ip_sort_key_is_numeric_value() {
    assert_eq!(ip_sort_key("192.168.1.10"), ip_value("192.168.1.10"));
    assert_eq!(ip_sort_key("192.168.1.10"), ip_octets_value(192, 168, 1, 10));
    assert!(ip_sort_key("192.168.1.2") < ip_sort_key("192.168.1.10"));
}

#[test]
fn port_classification() {
    let open = classify_port(80, ConnectOutcome::Connected);
    assert_eq!(open.status, "open");
    assert_eq!(open.service, Some("HTTP".to_string()));
    let filtered = classify_port(8081, ConnectOutcome::TimedOut);
    assert_eq!(filtered.status, "filtered");
    assert_eq!(filtered.service, None);
    let closed = classify_port(22, ConnectOutcome::Failed);
    assert_eq!(closed.status, "closed");
    assert_eq!(closed.service, Some("SSH".to_string()));
    assert!(open.banner.is_none());
}

#[test]
fn port_scan_sorted_and_counted() {
    let results: Vec<PortResult> = vec![
        classify_port(443, ConnectOutcome::Connected),
        classify_port(22, ConnectOutcome::Failed),
        classify_port(80, ConnectOutcome::Connected),
        classify_port(8080, ConnectOutcome::TimedOut),
    ];
    let scan = assemble_port_scan("host".to_string(), results, 5);
    let ports: Vec<u16> = scan.results.iter().map(|r| r.port).collect();
    assert_eq!(ports, vec![22, 80, 443, 8080]);
    assert_eq!(scan.open_ports, 2);
    assert_eq!(scan.target, "host");
}
