use rom::display::{Display, DisplayConfig};
use rom::nix::Host;
use rom::paths::{Derivation, StorePath};
use rom::render::{decimal_string, format_bytes, format_duration, format_secs, join, round_even_exec, text_less, tint, Palette, Shade};
use rom::state::State;
use rom::summary::{BuildFail, BuildInfo, BuildStatus, CompletedTransferInfo, FailType, TransferInfo};
use rom::tree::tree_names_fit;
use rom::types::{DisplayFormat, LegendStyle, SummaryStyle};

fn reference_duration(secs: f64) -> String {
    if secs < 60.0 {
        format!("{secs:.0}s")
    } else if secs < 3600.0 {
        format!("{}m{:.0}s", (secs / 60.0).floor(), secs % 60.0)
    } else {
        format!("{}h{:.0}m", (secs / 3600.0).floor(), (secs % 3600.0) / 60.0)
    }
}

fn reference_bytes(bytes: u64, total: u64) -> String {
    let format_size = |b: u64| -> String {
        if b < 1024 {
            format!("{b} B")
        } else if b < 1024 * 1024 {
            format!("{:.1} KB", b as f64 / 1024.0)
        } else if b < 1024 * 1024 * 1024 {
            format!("{:.1} MB", b as f64 / (1024.0 * 1024.0))
        } else {
            format!("{:.1} GB", b as f64 / (1024.0 * 1024.0 * 1024.0))
        }
    };
    if total > 0 {
        let percent = (bytes as f64 / total as f64) * 100.0;
        format!("{}/{} ({:.0}%)", format_size(bytes), format_size(total), percent)
    } else {
        format_size(bytes)
    }
}

fn plain() -> Display {
    let mut c = DisplayConfig::default();
    c.use_color = false;
    Display::new(c)
}

fn drv(path: &str) -> Derivation {
    Derivation::parse(path).unwrap()
}

fn building(start: u64, host: Host) -> BuildStatus {
    BuildStatus::Building(BuildInfo { start, host, estimate: None, activity_id: None })
}

fn built(start: u64, end: u64, host: Host) -> BuildStatus {
    BuildStatus::Built { info: BuildInfo { start, host, estimate: None, activity_id: None }, end }
}

#[test]
fn durations_match_the_float_formatting() {
    let mut ms: u64 = 0;
    while ms < 8_000_000 {
        assert_eq!(format_duration(ms), reference_duration(ms as f64 / 1000.0), "ms = {ms}");
        ms += 250;
    }
    for s in [0u64, 1, 59, 60, 89, 90, 150, 3599, 3600, 5400, 86_399, 100_000] {
        assert_eq!(format_secs(s), reference_duration(s as f64), "s = {s}");
    }
}

#[test]
fn durations_have_exact_texts() {
    assert_eq!(format_duration(0), "0s");
    assert_eq!(format_duration(59_499), "59s");
    assert_eq!(format_duration(59_500), "60s");
    assert_eq!(format_duration(90_000), "1m30s");
    assert_eq!(format_duration(100_000), "1m40s");
    assert_eq!(format_duration(150_000), "2m30s");
    assert_eq!(format_duration(3_600_000), "1h0m");
    assert_eq!(format_secs(5), "5s");
    assert_eq!(format_secs(100), "1m40s");
    assert_eq!(format_secs(5400), "1h30m");
    assert_eq!(format_secs(6000), "1h40m");
}

#[test]
fn byte_sizes_match_the_float_formatting() {
    let samples = [
        0u64, 1, 512, 1023, 1024, 1536, 1587, 10_000, 1_048_575, 1_048_576, 5_000_000,
        1_073_741_823, 1_073_741_824, 3_000_000_000, 123_456_789_012,
    ];
    for &b in &samples {
        for &t in &samples {
            assert_eq!(format_bytes(b, t), reference_bytes(b, t), "b = {b}, t = {t}");
        }
    }
    let mut b: u64 = 0;
    while b < 3_000_000 {
        assert_eq!(format_bytes(b, 2_999_999), reference_bytes(b, 2_999_999), "b = {b}");
        b += 977;
    }
}

#[test]
fn byte_sizes_have_exact_texts() {
    assert_eq!(format_bytes(512, 0), "512 B");
    assert_eq!(format_bytes(1536, 0), "1.5 KB");
    assert_eq!(format_bytes(1, 8), "1 B/8 B (12%)");
    assert_eq!(format_bytes(3, 8), "3 B/8 B (38%)");
    assert_eq!(format_bytes(1_048_576, 2_097_152), "1.0 MB/2.0 MB (50%)");
}

#[test]
fn numbers_rounding_and_joining() {
    assert_eq!(decimal_string(0), "0");
    assert_eq!(decimal_string(340282366920938463463374607431768211455), "340282366920938463463374607431768211455");
    assert_eq!(round_even_exec(5, 2), 2);
    assert_eq!(round_even_exec(7, 2), 4);
    assert_eq!(round_even_exec(8, 3), 3);
    assert_eq!(join(&vec!["a".to_string(), "b".to_string(), "c".to_string()], ", "), "a, b, c");
    assert_eq!(join(&vec![], "x"), "");
    assert!(text_less("abc", "abd"));
    assert!(text_less("ab", "abc"));
    assert!(!text_less("b", "abc"));
    assert!(!text_less("same", "same"));
}

#[test]
fn colors_are_crossterm_sequences_or_nothing() {
    let p = Palette::new();
    let on = p.red == "\x1b[38;5;1m";
    if on {
        assert_eq!(p.green, "\x1b[38;5;2m");
        assert_eq!(p.yellow, "\x1b[38;5;3m");
        assert_eq!(p.blue, "\x1b[38;5;4m");
        assert_eq!(p.magenta, "\x1b[38;5;5m");
        assert_eq!(p.grey, "\x1b[38;5;7m");
        assert_eq!(p.dark_grey, "\x1b[38;5;8m");
    } else {
        for c in [&p.red, &p.green, &p.yellow, &p.blue, &p.magenta, &p.grey, &p.dark_grey] {
            assert_eq!(c, "\x1b[m");
        }
    }
    assert_eq!(p.reset, "\x1b[0m");
    let t = tint(&p, true, "x", Shade::Green);
    assert_eq!(t, format!("{}x\x1b[0m", p.green));
    assert_eq!(tint(&p, false, "x", Shade::Green), "x");
}

#[test]
fn compact_legend_and_finished_line() {
    let d = plain();
    let mut st = State::new(0);
    assert!(d.render_compact_legend(&st, true, 5_000).is_empty());
    let a = st.get_or_create_derivation_id(drv("/nix/store/aaa-alpha-1.drv"));
    let b = st.get_or_create_derivation_id(drv("/nix/store/bbb-beta-1.drv"));
    st.update_build_status(a, building(1_000, Host::Localhost));
    st.update_build_status(b, BuildStatus::Planned);
    assert_eq!(
        d.render_compact_legend(&st, true, 61_000),
        vec!["\u{2517}\u{2501} \u{23f5} 1 \u{2502} \u{2714} 0 \u{2502} \u{2717} 0 \u{2502} \u{23f8} 1 \u{2502} \u{23f1} 1m1s".to_string()]
    );
    assert_eq!(
        d.render_compact_legend(&st, false, 61_000),
        vec![
            "\u{250f}\u{2501}\u{2501}\u{2501} Builds".to_string(),
            "\u{2517}\u{2501} \u{23f5} 1 \u{2502} \u{2714} 0 \u{2502} \u{2717} 0 \u{2502} \u{23f8} 1 \u{2502} \u{23f1} 1m1s".to_string(),
        ]
    );
    st.update_build_status(a, built(1_000, 9_000, Host::Localhost));
    assert_eq!(
        d.render_finished_line(&st, 12_000, "10:00:00"),
        vec!["Finished at 10:00:00 after 12s  \u{2714} 1".to_string()]
    );
    st.nix_errors.push("error: boom".to_string());
    assert_eq!(
        d.render_finished_line(&st, 12_000, "10:00:00"),
        vec!["\u{26a0} Exited with 1 nix error at 10:00:00 after 12s".to_string()]
    );
    let fail = BuildFail { at: 9, fail_type: FailType::Unknown };
    st.update_build_status(b, BuildStatus::Failed { info: BuildInfo { start: 1, host: Host::Localhost, estimate: None, activity_id: None }, fail });
    assert_eq!(
        d.render_finished_line(&st, 12_000, "10:00:00"),
        vec!["\u{26a0} Exited after 1 build failure at 10:00:00 after 12s".to_string()]
    );
}

#[test]
fn final_summaries() {
    let d = plain();
    let mut st = State::new(0);
    assert_eq!(d.render_table_summary(&st, 2_000, "t"), vec!["Finished at t after 2s".to_string()]);
    let a = st.get_or_create_derivation_id(drv("/nix/store/aaa-alpha-1.drv"));
    let b = st.get_or_create_derivation_id(drv("/nix/store/bbb-beta-1.drv"));
    let c = st.get_or_create_derivation_id(drv("/nix/store/ccc-gamma-1.drv"));
    st.update_build_status(a, built(0, 1, Host::Localhost));
    st.update_build_status(b, built(0, 1, Host::Remote("zeta".to_string())));
    st.update_build_status(c, built(0, 1, Host::Remote("beta-host".to_string())));
    assert_eq!(
        d.render_table_summary(&st, 2_000, "t"),
        vec![
            "\u{250f}\u{2501}\u{2501}\u{2501} Builds".to_string(),
            "\u{2503}  \u{2714} 1  beta-host".to_string(),
            "\u{2503}  \u{2714} 1  localhost".to_string(),
            "\u{2503}  \u{2714} 1  zeta".to_string(),
            "\u{2517}\u{2501} \u{2211} \u{2714} 3  \u{2502}  Finished at t after 2s".to_string(),
        ]
    );
    assert_eq!(
        d.render_full_summary(&st, 2_000, "t"),
        vec![
            "\u{250f}\u{2501}\u{2501}\u{2501} Build Summary".to_string(),
            "\u{2503}  Builds:     \u{2714} 3 built".to_string(),
            "\u{2517}\u{2501} Finished at t after 2s".to_string(),
        ]
    );
}

#[test]
fn table_legend_rows_per_item() {
    let d = plain();
    let mut st = State::new(0);
    assert!(d.render_table_legend(&st, false, 0).is_empty());
    let a = st.get_or_create_derivation_id(drv("/nix/store/aaa-alpha-1.drv"));
    let b = st.get_or_create_derivation_id(drv("/nix/store/bbb-beta-1.drv"));
    st.update_build_status(a, building(0, Host::Localhost));
    assert_eq!(
        d.render_table_legend(&st, true, 3_000),
        vec![
            "\u{2523}\u{2501}\u{2501}\u{2501} Builds".to_string(),
            "\u{2517}\u{2501} \u{2211} \u{23f5} 1 \u{2502} \u{2714} 0 \u{2502} \u{2717} 0 \u{2502} \u{23f8} 0 \u{2502} \u{23f1} 3s".to_string(),
        ]
    );
    st.update_build_status(b, built(0, 1, Host::Remote("far".to_string())));
    assert!(d.table_legend_fits(&st));
    assert_eq!(
        d.render_table_legend(&st, false, 3_000),
        vec![
            "\u{250f}\u{2501}\u{2501}\u{2501} Builds".to_string(),
            "\u{2503}  \u{23f5} alpha-1  \u{23f1} 3s".to_string(),
            "\u{2517}\u{2501} \u{2211} \u{23f5} 1 \u{2502} \u{2714} 1 \u{2502} \u{2717} 0 \u{2502} \u{23f8} 0 \u{2502} \u{23f1} 3s".to_string(),
        ]
    );
}

#[test]
fn table_legend_lists_longest_running_first() {
    let d = plain();
    let mut st = State::new(0);
    let x = st.get_or_create_derivation_id(drv("/nix/store/xxx-late-1.drv"));
    let y = st.get_or_create_derivation_id(drv("/nix/store/yyy-early-22.drv"));
    st.update_build_status(x, building(2_000, Host::Localhost));
    st.update_build_status(y, building(0, Host::Remote("box".to_string())));
    let p = st.get_or_create_store_path_id(StorePath::parse("/nix/store/ppp-src").unwrap());
    st.full_summary.running_uploads.insert(
        p,
        TransferInfo { start: 1_000, host: Host::Localhost, activity_id: 1, bytes_transferred: 0, total_bytes: None },
    );
    assert_eq!(
        d.render_table_legend(&st, false, 5_000),
        vec![
            "\u{250f}\u{2501}\u{2501}\u{2501} Builds  Uploads".to_string(),
            "\u{2503}  \u{23f5} early-22  \u{23f1} 5s  on box".to_string(),
            "\u{2503}  \u{23f5} late-1    \u{23f1} 3s".to_string(),
            "\u{2503}  \u{2191} src       \u{23f1} 4s".to_string(),
            "\u{2517}\u{2501} \u{2211} \u{23f5} 2 \u{2502} \u{2714} 0 \u{2502} \u{2717} 0 \u{2502} \u{23f8} 0 \u{2502} \u{2191} \u{23f5} 1 \u{2502} \u{23f1} 5s".to_string(),
        ]
    );
}

#[test]
fn table_legend_counts_finished_uploads() {
    let d = plain();
    let mut st = State::new(0);
    st.full_summary.completed_uploads.insert(
        0,
        CompletedTransferInfo { start: 0, end: 1, host: Host::Localhost, total_bytes: 0 },
    );
    assert_eq!(
        d.render_table_legend(&st, false, 0),
        vec![
            "\u{250f}\u{2501}\u{2501}\u{2501} Uploads".to_string(),
            "\u{2517}\u{2501} \u{2211} \u{2191} \u{2714} 1 \u{2502} \u{23f1} 0s".to_string(),
        ]
    );
}

#[test]
fn legends_match_the_documented_examples() {
    let d = plain();
    let mut st = State::new(0);
    let h = st.get_or_create_derivation_id(drv("/nix/store/hhh-hello-2.12.2.drv"));
    st.update_build_status(h, building(0, Host::Localhost));
    for i in 0..4 {
        let p = st.get_or_create_derivation_id(drv(&format!("/nix/store/p{i}p-planned-{i}.drv")));
        st.update_build_status(p, BuildStatus::Planned);
    }
    assert_eq!(
        d.render_table_legend(&st, true, 5_000),
        vec![
            "\u{2523}\u{2501}\u{2501}\u{2501} Builds".to_string(),
            "\u{2517}\u{2501} \u{2211} \u{23f5} 1 \u{2502} \u{2714} 0 \u{2502} \u{2717} 0 \u{2502} \u{23f8} 4 \u{2502} \u{23f1} 5s".to_string(),
        ]
    );
    assert_eq!(
        d.render_compact_legend(&st, true, 5_000),
        vec!["\u{2517}\u{2501} \u{23f5} 1 \u{2502} \u{2714} 0 \u{2502} \u{2717} 0 \u{2502} \u{23f8} 4 \u{2502} \u{23f1} 5s".to_string()]
    );
    assert_eq!(
        d.render_verbose_legend(&st, true, 5_000),
        vec![
            "\u{2523}\u{2501}\u{2501}\u{2501} Build Summary:".to_string(),
            "\u{2517}\u{2501} \u{23f5} 1 running \u{2502} \u{2714} 0 completed \u{2502} \u{2717} 0 failed \u{2502} \u{23f8} 4 planned \u{2502} \u{23f1} 5s".to_string(),
        ]
    );
    let b = st.get_or_create_store_path_id(StorePath::parse("/nix/store/bbb-breakpad-2024.02.16").unwrap());
    st.full_summary.running_downloads.insert(
        b,
        TransferInfo { start: 0, host: Host::Localhost, activity_id: 1, bytes_transferred: 1_258_291, total_bytes: Some(5_242_880) },
    );
    let s = st.get_or_create_store_path_id(StorePath::parse("/nix/store/sss-spirv-tools-1.4.321.0").unwrap());
    st.full_summary.running_downloads.insert(
        s,
        TransferInfo { start: 0, host: Host::Localhost, activity_id: 2, bytes_transferred: 0, total_bytes: None },
    );
    let g = st.get_or_create_store_path_id(StorePath::parse("/nix/store/ggg-gcc-13.2.0").unwrap());
    st.full_summary.running_uploads.insert(
        g,
        TransferInfo { start: 0, host: Host::Localhost, activity_id: 3, bytes_transferred: 256_000, total_bytes: None },
    );
    let v = d.render_plain_view(&st, 5_700);
    assert_eq!(v.len(), 5);
    assert_eq!(v[0], "\u{2501} \u{23f1} \u{23f8} 4 planned \u{2193} 2 downloading \u{2191} 1 uploading 5.7s");
    assert!(v[1..3].contains(&"  \u{2193} breakpad-2024.02.16 1.2 MB/5.0 MB (24%)".to_string()));
    assert!(v[1..3].contains(&"  \u{2193} spirv-tools-1.4.321.0 0 B".to_string()));
    assert_eq!(v[3], "  \u{2191} gcc-13.2.0 256000 B");
    assert_eq!(v[4], "  \u{23f5} hello-2.12.2 6s");
}

#[test]
fn plain_and_verbose_views_sort_by_name() {
    let d = plain();
    let mut st = State::new(0);
    let z = st.get_or_create_derivation_id(drv("/nix/store/zzz-zlib-1.drv"));
    let a = st.get_or_create_derivation_id(drv("/nix/store/aaa-acl-2.drv"));
    st.update_build_status(z, building(0, Host::Localhost));
    st.update_build_status(
        a,
        BuildStatus::Building(BuildInfo { start: 0, host: Host::Remote("r1".to_string()), estimate: Some(100), activity_id: None }),
    );
    let p = st.get_or_create_store_path_id(StorePath::parse("/nix/store/ppp-data").unwrap());
    st.full_summary.running_downloads.insert(
        p,
        TransferInfo { start: 0, host: Host::Localhost, activity_id: 1, bytes_transferred: 512, total_bytes: Some(1024) },
    );
    assert_eq!(
        d.render_plain_view(&st, 10_000),
        vec![
            "\u{2501} \u{23f1} \u{2193} 1 downloading 10.0s".to_string(),
            "  \u{2193} data 512 B/1.0 KB (50%)".to_string(),
            "  \u{23f5} acl-2 10s \u{2205} 1m30s r1".to_string(),
            "  \u{23f5} zlib-1 10s".to_string(),
        ]
    );
    assert!(d.verbose_legend_fits(&st));
    assert_eq!(
        d.render_verbose_legend(&st, false, 10_000),
        vec![
            "\u{250f}\u{2501}\u{2501}\u{2501} Build Summary:".to_string(),
            "\u{2503}  \u{23f5} acl-2   10s  r1".to_string(),
            "\u{2503}  \u{23f5} zlib-1  10s".to_string(),
            "\u{2503}  \u{2193} data    512 B/1.0 KB (50%) 10s".to_string(),
            "\u{2517}\u{2501} \u{23f5} 2 running \u{2502} \u{2714} 0 completed \u{2502} \u{2717} 0 failed \u{2502} \u{23f8} 0 planned \u{2502} \u{2193} 1 downloading \u{2502} \u{23f1} 10s".to_string(),
        ]
    );
}

#[test]
fn verbose_legend_needs_a_column_for_downloads() {
    let d = plain();
    let mut st = State::new(0);
    let p = st.get_or_create_store_path_id(StorePath::parse("/nix/store/ppp-data").unwrap());
    st.full_summary.running_downloads.insert(
        p,
        TransferInfo { start: 0, host: Host::Localhost, activity_id: 1, bytes_transferred: 0, total_bytes: None },
    );
    assert!(!d.verbose_legend_fits(&st));
}

#[test]
fn dashboards() {
    let d = plain();
    let mut st = State::new(0);
    assert!(d.render_dashboard_view(&st, 0).is_empty());
    let a = st.get_or_create_derivation_id(drv("/nix/store/aaa-hello-2.drv"));
    st.add_forest_root(a);
    st.update_build_status(a, building(0, Host::Localhost));
    let rule = "\u{2500}".repeat(44);
    assert_eq!(
        d.render_dashboard_view(&st, 5_000),
        vec![
            "BUILD GRAPH: hello-2".to_string(),
            rule.clone(),
            "Host        \u{2502} localhost".to_string(),
            "Status      \u{2502} \u{23f5} building".to_string(),
            "Duration    \u{2502} 5.0s".to_string(),
            rule.clone(),
            "Summary     \u{2502} jobs=1  ok=0  failed=0  total=5.0s".to_string(),
        ]
    );
    st.update_build_status(a, built(0, 4_000, Host::Remote("b".to_string())));
    let f = d.render_dashboard_final(&st, 5_000);
    assert_eq!(f[2], "Host        \u{2502} b");
    assert_eq!(f[3], "Status      \u{2502} \u{2714} success");
    assert_eq!(f[6], "Summary     \u{2502} jobs=1  ok=1  failed=0  total=5.0s");
    assert_eq!(d.render_dashboard_final(&st, 8_150)[4], "Duration    \u{2502} 8.1s");
}

#[test]
fn tree_draws_inputs_above_their_parent() {
    let d = plain();
    let mut st = State::new(0);
    let root = st.get_or_create_derivation_id(drv("/nix/store/rrr-root-1.drv"));
    let mid = st.get_or_create_derivation_id(drv("/nix/store/mmm-mid-1.drv"));
    let leaf = st.get_or_create_derivation_id(drv("/nix/store/lll-leaf-1.drv"));
    let done = st.get_or_create_derivation_id(drv("/nix/store/ddd-done-1.drv"));
    st.add_forest_root(root);
    st.link_input(root, mid, vec![]);
    st.link_input(root, done, vec![]);
    st.link_input(mid, leaf, vec![]);
    st.update_build_status(root, building(0, Host::Localhost));
    st.update_build_status(mid, building(0, Host::Localhost));
    st.update_build_status(leaf, building(0, Host::Localhost));
    st.update_build_status(done, built(0, 1, Host::Localhost));
    assert_eq!(
        d.render_tree_view(&st, 2_000),
        vec![
            "\u{250f}\u{2501} Dependency Graph:".to_string(),
            "\u{2503}    \u{2514}\u{2500} \u{23f5} leaf-1  \u{23f1} 2s".to_string(),
            "\u{2503} \u{2514}\u{2500} \u{23f5} mid-1  \u{23f1} 2s".to_string(),
            "\u{2503} \u{23f5} root-1 \u{23f1} 2s".to_string(),
        ]
    );
}

#[test]
fn graph_and_final_follow_the_format() {
    let mut cfg = DisplayConfig::default();
    cfg.use_color = false;
    cfg.format = DisplayFormat::Tree;
    cfg.legend_style = LegendStyle::Compact;
    cfg.summary_style = SummaryStyle::Concise;
    cfg.max_visible_lines = 2;
    let mut d = Display::new(cfg);
    let mut st = State::new(0);
    let root = st.get_or_create_derivation_id(drv("/nix/store/rrr-root-1.drv"));
    st.add_forest_root(root);
    st.update_build_status(root, building(0, Host::Localhost));
    let g = d.render_graph(&st, 1_000);
    assert_eq!(
        g,
        vec![
            "\u{250f}\u{2501} Dependency Graph:".to_string(),
            "\u{2503} \u{23f5} root-1 \u{23f1} 1s".to_string(),
            "\u{2517}\u{2501} \u{23f5} 1 \u{2502} \u{2714} 0 \u{2502} \u{2717} 0 \u{2502} \u{23f8} 0 \u{2502} \u{23f1} 1s".to_string(),
        ]
    );
    let (frame, shown) = d.render(&st, 0, 1_000);
    assert_eq!(frame.graph_lines, 2);
    assert_eq!(shown.len(), 2);
    assert_eq!(d.lines_to_clear(), 2);
    let fin = d.render_final(&st, 1_000, "12:00:00");
    assert_eq!(fin.last().unwrap(), "Finished at 12:00:00 after 1s");
}

#[test]
fn only_drawn_names_must_be_cuttable() {
    // 46 ASCII bytes, then a two-byte character across byte 47, where an
    // input's name is cut
    let long = format!("{}\u{e9}tail", "x".repeat(46));
    let mut st = State::new(0);
    let root = st.get_or_create_derivation_id(drv("/nix/store/rrr-root-1.drv"));
    let hidden = st.get_or_create_derivation_id(drv(&format!("/nix/store/hhh-{long}.drv")));
    st.add_forest_root(root);
    st.link_input(root, hidden, vec![]);
    st.update_build_status(root, BuildStatus::Planned);
    st.update_build_status(hidden, building(0, Host::Localhost));
    // the planned root is not drawn, so neither is its building input
    assert!(tree_names_fit(&st));
    st.update_build_status(root, building(0, Host::Localhost));
    assert!(!tree_names_fit(&st));
}

#[test]
fn tree_draws_a_shared_input_once() {
    let d = plain();
    let mut st = State::new(0);
    let root = st.get_or_create_derivation_id(drv("/nix/store/rrr-root-1.drv"));
    let a = st.get_or_create_derivation_id(drv("/nix/store/aaa-a-1.drv"));
    let b = st.get_or_create_derivation_id(drv("/nix/store/bbb-b-1.drv"));
    let leaf = st.get_or_create_derivation_id(drv("/nix/store/lll-leaf-1.drv"));
    st.add_forest_root(root);
    st.link_input(root, a, vec![]);
    st.link_input(root, b, vec![]);
    st.link_input(a, leaf, vec![]);
    st.link_input(b, leaf, vec![]);
    for id in [root, a, b, leaf] {
        st.update_build_status(id, building(0, Host::Localhost));
    }
    assert_eq!(
        d.render_tree_view(&st, 2_000),
        vec![
            "\u{250f}\u{2501} Dependency Graph:".to_string(),
            "\u{2503} \u{2502}  \u{2514}\u{2500} \u{23f5} leaf-1  \u{23f1} 2s".to_string(),
            "\u{2503} \u{251c}\u{2500} \u{23f5} a-1  \u{23f1} 2s".to_string(),
            "\u{2503} \u{2514}\u{2500} \u{23f5} b-1  \u{23f1} 2s".to_string(),
            "\u{2503} \u{23f5} root-1 \u{23f1} 2s".to_string(),
        ]
    );
}

fn nerd_plain() -> Display {
    let mut c = DisplayConfig::with_icons(rom::icons::nerd());
    c.use_color = false;
    Display::new(c)
}

#[test]
fn renderers_use_the_configured_icons() {
    let d = nerd_plain();
    let mut st = State::new(0);
    let root = st.get_or_create_derivation_id(drv("/nix/store/rrr-root-1.drv"));
    let leaf = st.get_or_create_derivation_id(drv("/nix/store/lll-leaf-1.drv"));
    st.add_forest_root(root);
    st.link_input(root, leaf, vec![]);
    st.update_build_status(root, building(0, Host::Localhost));
    st.update_build_status(leaf, building(0, Host::Localhost));
    assert_eq!(
        d.render_tree_view(&st, 2_000),
        vec![
            "\u{250f}\u{2501} Dependency Graph:".to_string(),
            "\u{2503} \u{2514}\u{2500} \u{f04b} leaf-1  \u{f1da} 2s".to_string(),
            "\u{2503} \u{f04b} root-1 \u{f1da} 2s".to_string(),
        ]
    );
    assert_eq!(
        d.render_table_legend(&st, true, 3_000),
        vec![
            "\u{2523}\u{2501}\u{2501}\u{2501} Builds".to_string(),
            "\u{2517}\u{2501} \u{f04a0} \u{f04b} 2 \u{2502} \u{f00c} 0 \u{2502} \u{f071} 0 \u{2502} \u{f04c} 0 \u{2502} \u{f1da} 3s".to_string(),
        ]
    );
}

#[test]
fn failed_builds_alone_show_no_table_legend() {
    let d = plain();
    let mut st = State::new(0);
    let a = st.get_or_create_derivation_id(drv("/nix/store/aaa-alpha-1.drv"));
    st.update_build_status(
        a,
        BuildStatus::Failed {
            info: BuildInfo { start: 0, host: Host::Localhost, estimate: None, activity_id: None },
            fail: BuildFail { at: 1, fail_type: FailType::BuildFailed(1) },
        },
    );
    assert!(d.render_table_legend(&st, false, 3_000).is_empty());
    assert!(d.render_table_legend(&st, true, 3_000).is_empty());
}

#[test]
fn table_legend_has_a_row_per_running_item_alone() {
    let d = plain();
    let mut st = State::new(0);
    let a = st.get_or_create_derivation_id(drv("/nix/store/aaa-alpha-1.drv"));
    let b = st.get_or_create_derivation_id(drv("/nix/store/bbb-beta-1.drv"));
    st.update_build_status(a, building(5, Host::Localhost));
    st.update_build_status(b, building(1, Host::Localhost));
    let alone = d.render_table_legend(&st, false, 9_000);
    assert_eq!(alone.len(), 2 + 2);
    assert!(alone[0].starts_with("\u{250f}\u{2501}\u{2501}\u{2501} "));
    assert!(alone[1].contains("beta-1"));
    assert!(alone[2].contains("alpha-1"));
    assert!(alone[3].starts_with("\u{2517}\u{2501} "));
    let below = d.render_table_legend(&st, true, 9_000);
    assert_eq!(below.len(), 2);
    assert!(below[0].starts_with("\u{2523}\u{2501}\u{2501}\u{2501} "));
}
