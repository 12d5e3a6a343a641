use traefik_log_monitor::log_entry::TraefikLogEntry;
use traefik_log_monitor::statistics::{permille_of, IpStats, PathCounter, StatsCollector};

fn entry(host: Option<&str>, addr: Option<&str>, path: Option<&str>) -> TraefikLogEntry {
    TraefikLogEntry {
        client_host: host.map(|s| s.to_string()),
        client_addr: addr.map(|s| s.to_string()),
        request_path: path.map(|s| s.to_string()),
        request_method: None,
        request_protocol: None,
        origin_status: None,
        downstream_status: None,
    }
}

#[test]
fn test_ip_stats_add_request() {
    let mut stats = IpStats::new();
    stats.add_request("/api/users");
    stats.add_request("/api/users");
    stats.add_request("/api/products");

    assert_eq!(stats.request_count, 3);
    assert_eq!(stats.paths.get("/api/users"), Some(&2));
    assert_eq!(stats.paths.get("/api/products"), Some(&1));
}

#[test]
fn test_ip_stats_top_paths() {
    let mut stats = IpStats::new();
    stats.add_request("/path1");
    stats.add_request("/path2");
    stats.add_request("/path2");
    stats.add_request("/path3");
    stats.add_request("/path3");
    stats.add_request("/path3");

    let top = stats.top_paths(2);
    assert_eq!(top.len(), 2);
    assert_eq!(top[0], ("/path3".to_string(), 3));
    assert_eq!(top[1], ("/path2".to_string(), 2));
}

#[test]
fn test_stats_collector_percentage() {
    let mut collector = StatsCollector::new();

    let entry1 = TraefikLogEntry {
        client_host: Some("192.168.1.1".to_string()),
        client_addr: None,
        request_path: Some("/api/test".to_string()),
        request_method: None,
        request_protocol: None,
        origin_status: None,
        downstream_status: None,
    };

    let entry2 = TraefikLogEntry {
        client_host: Some("192.168.1.2".to_string()),
        client_addr: None,
        request_path: Some("/api/test".to_string()),
        request_method: None,
        request_protocol: None,
        origin_status: None,
        downstream_status: None,
    };

    // 3 requests from the first client, 1 from the second
    collector.add_entry(&entry1);
    collector.add_entry(&entry1);
    collector.add_entry(&entry1);
    collector.add_entry(&entry2);

    assert_eq!(collector.total_requests(), 4);
    assert_eq!(collector.unique_ips(), 2);

    let top_ips = collector.get_top_ips(10);
    assert_eq!(top_ips.len(), 2);
    assert_eq!(top_ips[0].0, "192.168.1.1");
    assert_eq!(top_ips[0].1.request_count, 3);
    assert!((top_ips[0].2 as f64 / 10.0 - 75.0).abs() < 0.01); // 75%
}

#[test]
fn shares_of_three_and_one_are_75_and_25_in_that_order() {
    let mut collector = StatsCollector::new();
    let busy = entry(Some("10.1.1.1"), None, Some("/x"));
    let quiet = entry(Some("10.1.1.2"), None, Some("/y"));
    collector.add_entry(&quiet);
    collector.add_entry(&busy);
    collector.add_entry(&busy);
    collector.add_entry(&busy);

    let top = collector.get_top_ips(10);
    assert_eq!(top.len(), 2);
    assert_eq!(top[0].0, "10.1.1.1");
    assert_eq!(top[0].2, 750);
    assert_eq!(top[1].0, "10.1.1.2");
    assert_eq!(top[1].1.request_count, 1);
    assert_eq!(top[1].2, 250);
}

#[test]
fn end_to_end_two_clients_three_requests() {
    let mut collector = StatsCollector::new();
    collector.add_entry(&entry(Some("1.1.1.1"), None, Some("/a")));
    collector.add_entry(&entry(Some("1.1.1.1"), None, Some("/a")));
    collector.add_entry(&entry(Some("2.2.2.2"), None, Some("/b")));

    assert_eq!(collector.unique_ips(), 2);
    assert_eq!(collector.total_requests(), 3);
    let top = collector.get_top_ips(1);
    assert_eq!(top.len(), 1);
    assert_eq!(top[0].0, "1.1.1.1");
    assert_eq!(top[0].1.request_count, 2);
    assert_eq!(top[0].2, 667);
    assert_eq!(top[0].1.top_paths(3), vec![("/a".to_string(), 2)]);
}

#[test]
fn empty_collector_ranks_nothing() {
    let collector = StatsCollector::new();
    assert_eq!(collector.total_requests(), 0);
    assert_eq!(collector.unique_ips(), 0);
    assert!(collector.get_top_ips(10).is_empty());
    assert!(collector.get_top_ips(0).is_empty());
    assert_eq!(permille_of(0, 0), 0);
}

#[test]
fn record_without_identifier_is_passed_over() {
    let mut collector = StatsCollector::new();
    collector.add_entry(&entry(None, None, Some("/a")));
    collector.add_entry(&entry(Some(""), None, Some("/a")));
    assert_eq!(collector.total_requests(), 0);
    assert_eq!(collector.unique_ips(), 0);
}

#[test]
fn total_is_the_sum_of_the_request_counts() {
    let mut collector = StatsCollector::new();
    let hosts = ["a", "b", "a", "c", "b", "a", "d", "a"];
    for (seen, host) in hosts.iter().enumerate() {
        collector.add_entry(&entry(Some(host), None, None));
        let sum: usize = collector
            .get_top_ips(usize::MAX)
            .iter()
            .map(|e| e.1.request_count)
            .sum();
        assert_eq!(collector.total_requests(), seen + 1);
        assert_eq!(sum, seen + 1);
    }
    assert_eq!(collector.unique_ips(), 4);
}

#[test]
fn each_identified_record_raises_the_total_by_one() {
    let mut collector = StatsCollector::new();
    collector.add_entry(&entry(Some("h"), None, Some("/")));
    let before = collector.total_requests();
    let records = [
        entry(None, Some("10.0.0.1:1"), Some("/a")),
        entry(Some("h"), None, None),
        entry(None, Some("10.0.0.2"), Some("/b")),
    ];
    for r in records.iter() {
        collector.add_entry(r);
    }
    assert_eq!(collector.total_requests(), before + records.len());
}

#[test]
fn equal_counts_are_ranked_by_identifier() {
    let mut collector = StatsCollector::new();
    for host in ["delta", "alpha", "charlie", "bravo", "alpha-2"] {
        collector.add_entry(&entry(Some(host), None, None));
    }
    collector.add_entry(&entry(Some("charlie"), None, None));
    let names: Vec<String> = collector.get_top_ips(10).into_iter().map(|e| e.0).collect();
    assert_eq!(names, vec!["charlie", "alpha", "alpha-2", "bravo", "delta"]);
    let first_three: Vec<String> = collector.get_top_ips(3).into_iter().map(|e| e.0).collect();
    assert_eq!(first_three, vec!["charlie", "alpha", "alpha-2"]);
}

#[test]
fn ranking_does_not_depend_on_the_order_of_arrival() {
    let mut forward = IpStats::new();
    let mut backward = IpStats::new();
    let paths = ["/b", "/a", "/c", "/a", "/d", "/c", "/e"];
    for p in paths.iter() {
        forward.add_request(p);
    }
    for p in paths.iter().rev() {
        backward.add_request(p);
    }
    assert_eq!(forward.top_paths(4), backward.top_paths(4));
    assert_eq!(
        forward.top_paths(4),
        vec![
            ("/a".to_string(), 2),
            ("/c".to_string(), 2),
            ("/b".to_string(), 1),
            ("/d".to_string(), 1),
        ]
    );
}

#[test]
fn top_paths_gives_fewer_when_fewer_are_held() {
    let mut stats = IpStats::new();
    assert!(stats.top_paths(3).is_empty());
    stats.add_request("/only");
    assert_eq!(stats.top_paths(3), vec![("/only".to_string(), 1)]);
    assert!(stats.top_paths(0).is_empty());
}

#[test]
fn path_counter_counts_and_finds() {
    let mut counter = PathCounter::new();
    assert_eq!(counter.len(), 0);
    assert_eq!(counter.get("/"), None);
    counter.record("/");
    counter.record("/x");
    counter.record("/");
    assert_eq!(counter.len(), 2);
    assert_eq!(counter.get("/"), Some(&2));
    assert_eq!(counter.get("/x"), Some(&1));
    assert_eq!(counter.get("/y"), None);
    assert_eq!(counter.top(1), vec![("/".to_string(), 2)]);
}

#[test]
fn shares_round_to_the_nearest_tenth() {
    assert_eq!(permille_of(2, 3), 667);
    assert_eq!(permille_of(1, 3), 333);
    assert_eq!(permille_of(1, 1), 1000);
    assert_eq!(permille_of(0, 5), 0);
    assert_eq!(permille_of(1, 2000), 1);
    assert_eq!(permille_of(1, 2001), 0);
    assert_eq!(permille_of(1, 16), 63);
    assert_eq!(permille_of(usize::MAX, usize::MAX), 1000);
}
