use rom::cache::{
    group_reports, history_lines, keep_newest, merge_history, parse_row, parse_u64,
    reports_from_lines, state_dir, BuildHistory, BuildReport, BuildReportCache, HISTORY_LIMIT,
};
use rom::calendar::{
    civil_from_days, days_from_civil, format_utc_time, is_valid_date, parse_utc_time,
};

fn report(name: &str, host: &str, secs: u64, at: u64) -> BuildReport {
    BuildReport {
        derivation_name: name.to_string(),
        platform: "x86_64-linux".to_string(),
        duration_secs: secs,
        completed_at: at,
        host: host.to_string(),
        success: true,
    }
}

#[test]
fn test_calculate_median_odd() {
    let reports = vec![
        report("test", "localhost", 10, 0),
        report("test", "localhost", 20, 0),
        report("test", "localhost", 30, 0),
    ];
    assert_eq!(BuildReportCache::calculate_median(&reports), Some(20));
}

#[test]
fn test_calculate_median_even() {
    let reports = vec![report("test", "localhost", 10, 0), report("test", "localhost", 20, 0)];
    assert_eq!(BuildReportCache::calculate_median(&reports), Some(15));
}

#[test]
fn test_calculate_median_empty() {
    let reports = vec![];
    assert_eq!(BuildReportCache::calculate_median(&reports), None);
}

#[test]
fn test_format_parse_utc_time() {
    let time: u64 = 1_000_000;
    let formatted = format_utc_time(time);
    let parsed = parse_utc_time(&formatted).unwrap();
    let diff = if parsed > time { parsed - time } else { time - parsed };
    assert!(diff < 86400);
}

#[test]
fn utc_time_has_an_exact_text() {
    assert_eq!(format_utc_time(1_000_000), "1970-01-12 13:46:40");
    assert_eq!(format_utc_time(0), "1970-01-01 00:00:00");
    assert_eq!(format_utc_time(951_782_400), "2000-02-29 00:00:00");
    assert_eq!(parse_utc_time("1970-01-12 13:46:40"), Some(1_000_000));
    assert_eq!(parse_utc_time("2000-02-29 00:00:00"), Some(951_782_400));
}

#[test]
fn utc_time_round_trips() {
    for t in [0u64, 59, 86_399, 86_400, 1_700_000_000, 4_102_444_800] {
        assert_eq!(parse_utc_time(&format_utc_time(t)), Some(t));
    }
}

#[test]
fn bad_utc_times_are_refused() {
    assert_eq!(parse_utc_time("2100-02-29 00:00:00"), None);
    assert_eq!(parse_utc_time("1969-12-31 23:59:59"), None);
    assert_eq!(parse_utc_time("2020-01-01 24:00:00"), None);
    assert_eq!(parse_utc_time("2020-01-01 00:60:00"), None);
    assert_eq!(parse_utc_time("2020-01-01T00:00:00"), None);
    assert_eq!(parse_utc_time("2020-13-01 00:00:00"), None);
    assert_eq!(parse_utc_time(""), None);
}

#[test]
fn calendar_days_match_known_dates() {
    assert_eq!(days_from_civil(1970, 1, 1), Some(0));
    assert_eq!(days_from_civil(2000, 3, 1), Some(11_017));
    assert_eq!(civil_from_days(11_016), Some((2000, 2, 29)));
    assert!(is_valid_date(2024, 2, 29));
    assert!(!is_valid_date(2023, 2, 29));
    assert!(!is_valid_date(2023, 4, 31));
}

#[test]
fn rows_read_host_name_time_and_seconds() {
    let row = parse_row("localhost,hello-1.0,2024-01-01 00:00:00, 42 ").unwrap();
    assert_eq!(row.hostname, "localhost");
    assert_eq!(row.derivation_name, "hello-1.0");
    assert_eq!(row.utc_time, "2024-01-01 00:00:00");
    assert_eq!(row.build_seconds, 42);
    assert!(parse_row("localhost,hello-1.0,2024-01-01 00:00:00").is_none());
    assert!(parse_row("localhost,hello,2024-01-01 00:00:00,x").is_none());
}

#[test]
fn u64_text_is_read_as_from_str_does() {
    let v: Vec<char> = "+18446744073709551615".chars().collect();
    assert_eq!(parse_u64(&v, 0, v.len()), Some(u64::MAX));
    let w: Vec<char> = "18446744073709551616".chars().collect();
    assert_eq!(parse_u64(&w, 0, w.len()), None);
    let e: Vec<char> = "+".chars().collect();
    assert_eq!(parse_u64(&e, 0, e.len()), None);
}

#[test]
fn keep_newest_orders_and_limits() {
    let reports: Vec<BuildReport> = (0..15u64).map(|i| report("a", "h", i, i * 10)).collect();
    let kept = keep_newest(&reports);
    assert_eq!(kept.len(), HISTORY_LIMIT);
    assert_eq!(kept[0].completed_at, 140);
    assert_eq!(kept[9].completed_at, 50);
}

#[test]
fn lines_are_read_into_reports() {
    let lines = vec![
        "hostname,derivation_name,utc_time,build_seconds".to_string(),
        "localhost,hello,1970-01-12 13:46:40,7".to_string(),
        "broken line".to_string(),
        "remote,world,1970-01-01 00:00:10,3".to_string(),
    ];
    let rs = reports_from_lines(&lines);
    assert_eq!(rs.len(), 2);
    assert_eq!(rs[0].host, "localhost");
    assert_eq!(rs[0].derivation_name, "hello");
    assert_eq!(rs[0].completed_at, 1_000_000);
    assert_eq!(rs[0].duration_secs, 7);
    assert!(rs[0].success);
    assert_eq!(rs[0].platform, "");
    assert_eq!(rs[1].completed_at, 10);
}

#[test]
fn load_groups_by_host_and_derivation() {
    let cache = BuildReportCache::new("/tmp/x.csv".to_string());
    let lines = vec![
        "hostname,derivation_name,utc_time,build_seconds".to_string(),
        "localhost,hello,1970-01-01 00:00:10,10".to_string(),
        "localhost,hello,1970-01-01 00:00:20,20".to_string(),
        "localhost,hello,1970-01-01 00:00:30,40".to_string(),
        "remote,hello,1970-01-01 00:00:30,99".to_string(),
    ];
    let h = cache.load(&lines);
    assert_eq!(h.entries.len(), 2);
    let local = h.get("localhost", "hello").unwrap();
    assert_eq!(local.len(), 3);
    assert_eq!(local[0].completed_at, 30);
    assert_eq!(cache.get_estimate(&h, "localhost", "hello"), Some(20));
    assert_eq!(cache.get_estimate(&h, "remote", "hello"), Some(99));
    assert_eq!(cache.get_estimate(&h, "remote", "world"), None);
}

#[test]
fn save_merges_and_writes_a_header() {
    let cache = BuildReportCache::new("/tmp/x.csv".to_string());
    let existing = vec![
        "hostname,derivation_name,utc_time,build_seconds".to_string(),
        "localhost,hello,1970-01-01 00:00:10,10".to_string(),
    ];
    let new = group_reports(&[report("hello", "localhost", 5, 1_000_000)]);
    let lines = cache.save(&existing, &new);
    assert_eq!(lines.len(), 3);
    assert_eq!(lines[0], "hostname,derivation_name,utc_time,build_seconds");
    assert_eq!(lines[1], "localhost,hello,1970-01-12 13:46:40,5");
    assert_eq!(lines[2], "localhost,hello,1970-01-01 00:00:10,10");
    let back = cache.load(&lines);
    assert_eq!(back.get("localhost", "hello").unwrap().len(), 2);
}

#[test]
fn merge_history_keeps_the_limit() {
    let old = group_reports(
        &(0..8u64).map(|i| report("a", "h", i, i)).collect::<Vec<_>>(),
    );
    let new = group_reports(
        &(100..105u64).map(|i| report("a", "h", i, i)).collect::<Vec<_>>(),
    );
    let m = merge_history(old, &new);
    let e = m.get("h", "a").unwrap();
    assert_eq!(e.len(), HISTORY_LIMIT);
    assert_eq!(e[0].completed_at, 104);
    let lines = history_lines(&m);
    assert_eq!(lines.len(), HISTORY_LIMIT + 1);
    let empty = history_lines(&BuildHistory::new());
    assert_eq!(empty.len(), 1);
}

#[test]
fn default_cache_path_prefers_xdg_state_home() {
    assert_eq!(
        BuildReportCache::default_cache_path(Some("/x/state"), Some("/home/u")),
        "/x/state/rom/build-reports.csv"
    );
    assert_eq!(BuildReportCache::default_cache_path(Some("/s/"), None), "/s/rom/build-reports.csv");
}

#[test]
fn default_cache_path_falls_back_to_home() {
    assert_eq!(
        BuildReportCache::default_cache_path(Some(""), Some("/home/u")),
        "/home/u/.local/state/rom/build-reports.csv"
    );
    assert_eq!(
        BuildReportCache::default_cache_path(None, Some("/home/u")),
        "/home/u/.local/state/rom/build-reports.csv"
    );
}

#[test]
fn default_cache_path_falls_back_to_current_dir() {
    assert_eq!(BuildReportCache::default_cache_path(None, None), "./rom/build-reports.csv");
    assert_eq!(BuildReportCache::default_cache_path(Some(""), None), "./rom/build-reports.csv");
    assert_eq!(state_dir(None, None), ".");
}

#[test]
fn saved_lines_read_back_as_their_rows() {
    let h = group_reports(&[
        report("hello", "localhost", 5, 1_000_000),
        report("hello", "localhost", 7, 2_000_000),
        report("world", "remote", 0, 253_402_300_799),
    ]);
    let lines = history_lines(&h);
    let back = reports_from_lines(&lines);
    let rows: Vec<(String, String, u64, u64)> = back
        .iter()
        .map(|r| (r.host.clone(), r.derivation_name.clone(), r.duration_secs, r.completed_at))
        .collect();
    assert_eq!(
        rows,
        vec![
            ("localhost".to_string(), "hello".to_string(), 7, 2_000_000),
            ("localhost".to_string(), "hello".to_string(), 5, 1_000_000),
            ("remote".to_string(), "world".to_string(), 0, 253_402_300_799),
        ]
    );
}

#[test]
fn utc_time_fields_are_digits_only() {
    assert_eq!(parse_utc_time("2024-+1-01 00:00:00"), None);
    assert_eq!(parse_utc_time("2024-01-+1 00:00:00"), None);
    assert_eq!(parse_utc_time("+024-01-01 00:00:00"), None);
    assert_eq!(parse_utc_time("-024-01-01 00:00:00"), None);
    assert_eq!(parse_utc_time("1970-01-01 00:00:+1"), None);
    assert_eq!(parse_utc_time("1970-01-01 00:00:01"), Some(1));
}

#[test]
fn a_read_timestamp_is_written_back_the_same() {
    for text in ["1970-01-01 00:00:00", "2024-02-29 23:59:59", "2000-12-31 12:05:09", "9999-12-31 23:59:59"] {
        let t = parse_utc_time(text).unwrap();
        assert_eq!(format_utc_time(t), text);
    }
}

#[test]
fn loading_saved_lines_gives_the_history_back() {
    let cache = BuildReportCache::new("/tmp/x.csv".to_string());
    let h = group_reports(&[
        report("hello", "localhost", 5, 1_000_000),
        report("hello", "localhost", 7, 2_000_000),
        report("world", "remote", 3, 10),
    ]);
    let lines = history_lines(&h);
    let back = cache.load(&lines);
    assert_eq!(back.entries.len(), h.entries.len());
    for (a, b) in back.entries.iter().zip(h.entries.iter()) {
        assert_eq!(a.host, b.host);
        assert_eq!(a.derivation_name, b.derivation_name);
        let ta: Vec<(u64, u64)> = a.reports.iter().map(|r| (r.duration_secs, r.completed_at)).collect();
        let tb: Vec<(u64, u64)> = b.reports.iter().map(|r| (r.duration_secs, r.completed_at)).collect();
        assert_eq!(ta, tb);
        assert!(!a.reports.is_empty() && a.reports.len() <= HISTORY_LIMIT);
    }
}

#[test]
fn save_then_load_keeps_the_newest_of_file_and_new_reports() {
    let cache = BuildReportCache::new("/tmp/x.csv".to_string());
    let mut existing = vec!["hostname,derivation_name,utc_time,build_seconds".to_string()];
    for i in 0..12u64 {
        existing.push(format!("localhost,hello,1970-01-01 00:00:{:02},{}", i, i));
    }
    existing.push("not a row".to_string());
    existing.push("remote,other,1970-01-01 00:01:00,3".to_string());
    let new = group_reports(&[
        report("hello", "localhost", 50, 5),
        report("fresh", "localhost", 7, 100),
    ]);
    let back = cache.load(&cache.save(&existing, &new));
    let hello: Vec<u64> = back.get("localhost", "hello").unwrap().iter().map(|r| r.completed_at).collect();
    assert_eq!(hello, vec![11, 10, 9, 8, 7, 6, 5, 5, 4, 3]);
    assert_eq!(back.get("remote", "other").unwrap().len(), 1);
    assert_eq!(back.get("localhost", "fresh").unwrap()[0].duration_secs, 7);
    assert_eq!(back.entries.len(), 3);
}

#[test]
fn load_keeps_the_newest_rows_of_each_key() {
    let cache = BuildReportCache::new("/tmp/x.csv".to_string());
    let mut lines = vec!["hostname,derivation_name,utc_time,build_seconds".to_string()];
    for i in 0..15u64 {
        lines.push(format!("h,d,1970-01-01 00:00:{:02},{}", i, i));
    }
    lines.push("h,d,bad time,1".to_string());
    let h = cache.load(&lines);
    let e = h.get("h", "d").unwrap();
    assert_eq!(e.len(), HISTORY_LIMIT);
    assert_eq!(e[0].completed_at, 14);
    assert_eq!(e[9].completed_at, 5);
    assert!(e.iter().all(|r| r.success && r.platform.is_empty()));
}

#[test]
fn format_after_parse_gives_the_text_back() {
    for text in ["1970-01-01 00:00:00", "2000-02-29 23:59:59", "2024-12-31 00:00:01", "9999-12-31 23:59:59"] {
        let t = parse_utc_time(text).unwrap();
        assert_eq!(format_utc_time(t), text);
    }
}

#[test]
fn parse_accepts_exactly_the_timestamp_shape() {
    assert_eq!(parse_utc_time("1970-01-02 01:01:01"), Some(86_400 + 3_661));
    assert_eq!(parse_utc_time("1969-12-31 23:59:59"), None);
    assert_eq!(parse_utc_time("2100-02-29 00:00:00"), None);
    assert_eq!(parse_utc_time("2024-01-01 24:00:00"), None);
    assert_eq!(parse_utc_time("2024-01-01T00:00:00"), None);
    assert_eq!(parse_utc_time("2024-01-01 00:00:0"), None);
    assert_eq!(parse_utc_time("2024-01-01 00:+0:00"), None);
}
