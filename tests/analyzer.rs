use log_analyzer::analyzer::{analyze, Percent};
use log_analyzer::parser::{HttpMethod, LogEntry, LogLevel};

fn make_entry(ip: &str, level: LogLevel, endpoint: &str, status: u16) -> LogEntry {
    LogEntry {
        timestamp: "2024-01-01T00:00:00Z".to_string(),
        level,
        ip: ip.to_string(),
        method: HttpMethod::Get,
        endpoint: endpoint.to_string(),
        status_code: status,
    }
}

#[test]
fn counts_levels_correctly() {
    let entries = vec![
        make_entry("1.1.1.1", LogLevel::Info, "/a", 200),
        make_entry("1.1.1.1", LogLevel::Info, "/b", 200),
        make_entry("1.1.1.2", LogLevel::Warn, "/a", 429),
        make_entry("1.1.1.3", LogLevel::Error, "/c", 500),
    ];
    let stats = analyze(&entries, 5, 3);
    assert_eq!(stats.total_entries, 4);
    assert_eq!(stats.level_counts.info.count, 2);
    assert_eq!(stats.level_counts.warn.count, 1);
    assert_eq!(stats.level_counts.error.count, 1);
}

#[test]
fn top_ips_sorted_by_count() {
    let entries = vec![
        make_entry("1.1.1.1", LogLevel::Info, "/", 200),
        make_entry("1.1.1.1", LogLevel::Info, "/", 200),
        make_entry("1.1.1.2", LogLevel::Info, "/", 200),
        make_entry("1.1.1.1", LogLevel::Info, "/", 200),
    ];
    let stats = analyze(&entries, 5, 3);
    assert_eq!(stats.top_ips[0].value, "1.1.1.1");
    assert_eq!(stats.top_ips[0].count, 3);
    assert_eq!(stats.top_ips[1].value, "1.1.1.2");
}

#[test]
fn flags_ips_exceeding_error_threshold() {
    let mut entries = vec![];
    for _ in 0..6 {
        entries.push(make_entry("9.9.9.9", LogLevel::Error, "/bad", 500));
    }
    entries.push(make_entry("1.1.1.1", LogLevel::Error, "/bad", 500));

    let stats = analyze(&entries, 5, 5);
    assert_eq!(stats.flagged_ips.len(), 1);
    assert_eq!(stats.flagged_ips[0].ip, "9.9.9.9");
    assert_eq!(stats.flagged_ips[0].error_count, 6);
}

#[test]
fn empty_entries_returns_zero_stats() {
    let stats = analyze(&[], 5, 3);
    assert_eq!(stats.total_entries, 0);
    assert!(stats.top_ips.is_empty());
    assert!(stats.flagged_ips.is_empty());
}

#[test]
fn top_ips_carry_their_share() {
    let entries = vec![
        make_entry("1.1.1.1", LogLevel::Info, "/", 200),
        make_entry("1.1.1.1", LogLevel::Info, "/", 200),
        make_entry("1.1.1.2", LogLevel::Info, "/", 200),
        make_entry("1.1.1.1", LogLevel::Info, "/", 200),
    ];
    let stats = analyze(&entries, 5, 3);
    assert_eq!(stats.top_ips.len(), 2);
    assert_eq!(stats.top_ips[0].percentage, Percent { part: 3, whole: 4 });
    assert_eq!(stats.top_ips[1].count, 1);
    assert_eq!(stats.top_ips[1].percentage, Percent { part: 1, whole: 4 });
    assert_eq!(stats.level_counts.info.percentage, Percent { part: 4, whole: 4 });
    assert_eq!(stats.level_counts.warn.percentage, Percent { part: 0, whole: 4 });
}

#[test]
fn flagged_ip_has_full_record() {
    let mut entries = vec![];
    for _ in 0..6 {
        entries.push(make_entry("9.9.9.9", LogLevel::Error, "/bad", 500));
    }
    entries.push(make_entry("1.1.1.1", LogLevel::Error, "/bad", 500));
    let stats = analyze(&entries, 5, 5);
    let f = &stats.flagged_ips[0];
    assert_eq!(f.total_requests, 6);
    assert_eq!(f.error_rate, Percent { part: 6, whole: 6 });
    assert_eq!(stats.error_threshold, 5);
    assert_eq!(stats.top_n, 5);
}

#[test]
fn empty_input_has_zero_everything() {
    let stats = analyze(&[], 5, 3);
    assert_eq!(stats.level_counts.info.count, 0);
    assert_eq!(stats.level_counts.error.percentage, Percent { part: 0, whole: 0 });
    assert!(stats.top_endpoints.is_empty());
    assert!(stats.status_code_distribution.is_empty());
    assert_eq!(stats.malformed_entries, 0);
}

#[test]
fn ties_break_by_ascending_key() {
    let entries = vec![
        make_entry("2.2.2.2", LogLevel::Info, "/b", 200),
        make_entry("10.0.0.1", LogLevel::Info, "/a", 200),
        make_entry("2.2.2.2", LogLevel::Info, "/b", 200),
        make_entry("10.0.0.1", LogLevel::Info, "/c", 200),
        make_entry("3.3.3.3", LogLevel::Info, "/a", 200),
    ];
    let stats = analyze(&entries, 10, 0);
    let ips: Vec<&str> = stats.top_ips.iter().map(|r| r.value.as_str()).collect();
    assert_eq!(ips, vec!["10.0.0.1", "2.2.2.2", "3.3.3.3"]);
    let eps: Vec<(&str, usize)> =
        stats.top_endpoints.iter().map(|r| (r.value.as_str(), r.count)).collect();
    assert_eq!(eps, vec![("/a", 2), ("/b", 2), ("/c", 1)]);
}

#[test]
fn top_n_truncates_and_zero_gives_nothing() {
    let entries = vec![
        make_entry("1.1.1.1", LogLevel::Info, "/a", 200),
        make_entry("1.1.1.2", LogLevel::Info, "/b", 200),
        make_entry("1.1.1.3", LogLevel::Info, "/c", 200),
    ];
    let stats = analyze(&entries, 2, 0);
    assert_eq!(stats.top_ips.len(), 2);
    assert_eq!(stats.top_ips[0].value, "1.1.1.1");
    assert_eq!(stats.top_ips[1].value, "1.1.1.2");
    let none = analyze(&entries, 0, 0);
    assert!(none.top_ips.is_empty());
    assert!(none.top_endpoints.is_empty());
}

#[test]
fn threshold_zero_flags_any_error_in_order() {
    let entries = vec![
        make_entry("5.5.5.5", LogLevel::Error, "/a", 500),
        make_entry("4.4.4.4", LogLevel::Error, "/a", 500),
        make_entry("4.4.4.4", LogLevel::Info, "/a", 200),
        make_entry("6.6.6.6", LogLevel::Error, "/a", 503),
        make_entry("6.6.6.6", LogLevel::Error, "/a", 503),
        make_entry("7.7.7.7", LogLevel::Warn, "/a", 429),
    ];
    let stats = analyze(&entries, 5, 0);
    let flagged: Vec<(&str, usize, usize)> = stats
        .flagged_ips
        .iter()
        .map(|f| (f.ip.as_str(), f.error_count, f.total_requests))
        .collect();
    assert_eq!(flagged, vec![("6.6.6.6", 2, 2), ("4.4.4.4", 1, 2), ("5.5.5.5", 1, 1)]);
    assert_eq!(stats.flagged_ips[1].error_rate, Percent { part: 1, whole: 2 });
}

#[test]
fn status_codes_are_counted_in_code_order() {
    let entries = vec![
        make_entry("1.1.1.1", LogLevel::Info, "/a", 404),
        make_entry("1.1.1.1", LogLevel::Info, "/a", 200),
        make_entry("1.1.1.1", LogLevel::Error, "/a", 500),
        make_entry("1.1.1.1", LogLevel::Info, "/a", 200),
    ];
    let stats = analyze(&entries, 5, 3);
    let d: Vec<(u16, usize)> =
        stats.status_code_distribution.iter().map(|s| (s.code, s.count)).collect();
    assert_eq!(d, vec![(200, 2), (404, 1), (500, 1)]);
}

#[test]
fn level_counts_sum_to_total() {
    let entries = vec![
        make_entry("1.1.1.1", LogLevel::Info, "/a", 200),
        make_entry("1.1.1.2", LogLevel::Warn, "/a", 200),
        make_entry("1.1.1.3", LogLevel::Error, "/a", 500),
        make_entry("1.1.1.3", LogLevel::Error, "/a", 500),
    ];
    let stats = analyze(&entries, 5, 3);
    let lc = stats.level_counts;
    assert_eq!(lc.info.count + lc.warn.count + lc.error.count, stats.total_entries);
}

#[test]
fn aggregating_twice_gives_the_same_snapshot() {
    let entries = vec![
        make_entry("1.1.1.2", LogLevel::Error, "/b", 500),
        make_entry("1.1.1.1", LogLevel::Info, "/a", 200),
        make_entry("1.1.1.2", LogLevel::Error, "/a", 502),
    ];
    let a = analyze(&entries, 3, 1);
    let b = analyze(&entries, 3, 1);
    assert_eq!(format!("{:?}", a), format!("{:?}", b));
}
