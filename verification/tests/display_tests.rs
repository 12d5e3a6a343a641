use traefik_log_monitor::display::DisplayFormatter;
use traefik_log_monitor::log_entry::TraefikLogEntry;
use traefik_log_monitor::statistics::StatsCollector;

const TOP: &str = "╔════════════════════════════════════════════════════════════════╗\n";
const BOTTOM: &str = "╚════════════════════════════════════════════════════════════════╝\n";
const RULE: &str = "────────────────────────────────────────────────────────────────\n";

fn request(host: &str, path: &str) -> TraefikLogEntry {
    TraefikLogEntry {
        client_addr: None,
        client_host: Some(host.to_string()),
        request_path: Some(path.to_string()),
        request_method: None,
        request_protocol: None,
        origin_status: None,
        downstream_status: None,
    }
}

#[test]
fn test_format_number() {
    assert_eq!(DisplayFormatter::format_number(0), "0");
    assert_eq!(DisplayFormatter::format_number(123), "123");
    assert_eq!(DisplayFormatter::format_number(1234), "1,234");
    assert_eq!(DisplayFormatter::format_number(1234567), "1,234,567");
}

#[test]
fn test_truncate_path() {
    assert_eq!(DisplayFormatter::truncate_path("/api/users", 20), "/api/users");
    assert_eq!(
        DisplayFormatter::truncate_path("/very/long/path/that/exceeds/maximum", 20),
        "/very/long/path/t..."
    );
}

#[test]
fn test_render_empty_stats() {
    let stats = StatsCollector::new();
    let output = DisplayFormatter::render_stats(&stats, 10);
    assert!(output.contains("Waiting for log entries"));
    assert!(output.contains("Total Requests: 0"));
}

#[test]
fn format_number_keeps_zeros_inside_groups() {
    assert_eq!(DisplayFormatter::format_number(999), "999");
    assert_eq!(DisplayFormatter::format_number(1000), "1,000");
    assert_eq!(DisplayFormatter::format_number(1_000_007), "1,000,007");
    assert_eq!(DisplayFormatter::format_number(10_020_300), "10,020,300");
    assert_eq!(
        DisplayFormatter::format_number(18_446_744_073_709_551_615),
        "18,446,744,073,709,551,615"
    );
}

#[test]
fn truncation_keeps_seventeen_characters_of_twenty() {
    let path = "/0123456789/0123456789/0123456789/abc";
    assert_eq!(path.chars().count(), 37);
    let cut = DisplayFormatter::truncate_path(path, 20);
    assert_eq!(cut, "/0123456789/01234...");
    assert_eq!(cut.chars().count(), 20);
}

#[test]
fn truncation_leaves_a_path_that_just_fits() {
    let path = "/exactly/twenty/char";
    assert_eq!(path.len(), 20);
    assert_eq!(DisplayFormatter::truncate_path(path, 20), path);
    assert_eq!(DisplayFormatter::truncate_path("", 0), "");
    assert_eq!(DisplayFormatter::truncate_path("abcd", 3), "...");
}

#[test]
fn truncation_counts_characters() {
    assert_eq!(DisplayFormatter::truncate_path("/ünïcödé/päth", 13), "/ünïcödé/päth");
    assert_eq!(DisplayFormatter::truncate_path("/ünïcödé/päth", 8), "/ünïc...");
}

#[test]
fn empty_report_in_full() {
    let stats = StatsCollector::new();
    let expected = format!(
        "{}║        Traefik Access Log Monitor - Top  5 IPs                ║\n{}\n\
         Total Requests: 0 | Unique IPs: 0\n\
         Showing top 5 IPs | Type a number and press Enter to change\n\n\
         ⏳ Waiting for log entries...\n\
         \nMonitoring access.log for new requests.\n\
         Press Ctrl+C to exit.\n",
        TOP, BOTTOM
    );
    assert_eq!(DisplayFormatter::render_stats(&stats, 5), expected);
}

#[test]
fn report_with_two_clients_in_full() {
    let mut stats = StatsCollector::new();
    stats.add_entry(&request("1.1.1.1", "/a"));
    stats.add_entry(&request("1.1.1.1", "/a"));
    stats.add_entry(&request("2.2.2.2", "/b"));
    let expected = format!(
        "{}║        Traefik Access Log Monitor - Top 10 IPs                ║\n{}\n\
         Total Requests: 3 | Unique IPs: 2\n\
         Showing top 10 IPs | Type a number and press Enter to change\n\n\
         Top IPs by Request Count:\n\
         {}\n\
         1. 1.1.1.1\n   Requests: 2 (66.7%)\n   Top Paths:\n   • /a (2)\n\n\
         2. 2.2.2.2\n   Requests: 1 (33.3%)\n   Top Paths:\n   • /b (1)\n\n\
         {}Press Ctrl+C to exit.\n",
        TOP, BOTTOM, RULE, RULE
    );
    assert_eq!(DisplayFormatter::render_stats(&stats, 10), expected);
}

#[test]
fn report_shows_three_paths_and_cuts_long_ones() {
    let long = "/a/very/long/path/that/goes/on/and/on/until/it/no/longer/fits/the/line";
    let mut stats = StatsCollector::new();
    for _ in 0..1200 {
        stats.add_entry(&request("10.0.0.7", long));
    }
    for path in ["/b", "/b", "/c", "/d"] {
        stats.add_entry(&request("10.0.0.7", path));
    }
    stats.add_entry(&request("10.0.0.8", "/z"));
    let output = DisplayFormatter::render_stats(&stats, 1);
    let expected = format!(
        "{}║        Traefik Access Log Monitor - Top  1 IPs                ║\n{}\n\
         Total Requests: 1,205 | Unique IPs: 2\n\
         Showing top 1 IPs | Type a number and press Enter to change\n\n\
         Top IPs by Request Count:\n\
         {}\n\
         1. 10.0.0.7\n   Requests: 1,204 (99.9%)\n   Top Paths:\n\
         \x20  • /a/very/long/path/that/goes/on/and/on/until/it/no/lo... (1,200)\n\
         \x20  • /b (2)\n\
         \x20  • /c (1)\n\n\
         {}Press Ctrl+C to exit.\n",
        TOP, BOTTOM, RULE, RULE
    );
    assert_eq!(output, expected);
}

#[test]
fn report_shows_a_full_share_as_100_0() {
    let mut stats = StatsCollector::new();
    stats.add_entry(&request("h", "/"));
    let output = DisplayFormatter::render_stats(&stats, 100);
    assert!(output.contains("Top 100 IPs"));
    assert!(output.contains("   Requests: 1 (100.0%)\n"));
}
