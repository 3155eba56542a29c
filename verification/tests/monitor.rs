use rom::monitor::{
    extract_path_from_message, human_line_is_error, human_line_readable, parse_human_fail_type,
    process_human_line, size_candidates, size_unit,
};
use rom::paths::{Derivation, StorePath};
use rom::state::State;
use rom::summary::{BuildStatus, FailType};

#[test]
fn monitor_test_extract_path_from_message() {
    let line = "building '/nix/store/abc123-hello-1.0.drv'";
    let path = extract_path_from_message(line);
    assert!(path.is_some());
    assert!(path.unwrap().contains("hello-1.0.drv"));
}

#[test]
fn monitor_test_extract_path_unquoted() {
    let line = "building /nix/store/abc123-hello-1.0.drv locally";
    let path = extract_path_from_message(line);
    assert!(path.is_some());
}

#[test]
fn test_extract_path_from_message() {
    let line = "building '/nix/store/abc123-hello-1.0.drv'";
    let path = extract_path_from_message(line);
    assert!(path.is_some());
    assert!(path.unwrap().contains("hello-1.0.drv"));
}

#[test]
fn test_extract_path_unquoted() {
    let line = "building /nix/store/abc123-hello-1.0.drv locally";
    let path = extract_path_from_message(line);
    assert!(path.is_some());
}

#[test]
fn extracted_paths_are_exact() {
    assert_eq!(
        extract_path_from_message("building '/nix/store/abc123-hello-1.0.drv'").unwrap(),
        "/nix/store/abc123-hello-1.0.drv"
    );
    assert_eq!(
        extract_path_from_message("building /nix/store/abc123-hello-1.0.drv locally").unwrap(),
        "/nix/store/abc123-hello-1.0.drv"
    );
    assert_eq!(extract_path_from_message("nothing to see here"), None);
}

#[test]
fn size_words_are_found_with_their_units() {
    assert_eq!(size_unit("KiB"), Some(1024));
    assert_eq!(size_unit("MiB"), Some(1024 * 1024));
    assert_eq!(size_unit("kb"), None);
    let c = size_candidates("downloaded 123 KiB in 2 seconds");
    assert_eq!(c, vec![("123".to_string(), 1024)]);
    let c2 = size_candidates("downloading 4.5 MiB");
    assert_eq!(c2, vec![("4.5".to_string(), 1024 * 1024)]);
    assert!(size_candidates("no size here").is_empty());
}

#[test]
fn human_fail_types() {
    assert_eq!(
        parse_human_fail_type("error: builder for '/nix/store/a-b.drv' failed with exit code 2"),
        FailType::BuildFailed(2)
    );
    assert_eq!(parse_human_fail_type("error: hash mismatch in fixed-output"), FailType::HashMismatch);
    assert_eq!(parse_human_fail_type("error: build timed out"), FailType::Timeout);
    assert_eq!(parse_human_fail_type("error: 1 dependencies failed"), FailType::DependencyFailed);
    assert_eq!(parse_human_fail_type("error: something"), FailType::Unknown);
}

#[test]
fn human_lines_drive_a_build() {
    let mut state = State::new(0);
    assert!(!process_human_line(&mut state, "   ", 1, None));
    assert!(process_human_line(&mut state, "building '/nix/store/abc-hello-1.0.drv'...", 10, None));
    let id = state
        .find_derivation_id(&Derivation::parse("/nix/store/abc-hello-1.0.drv").unwrap())
        .unwrap();
    assert!(matches!(
        state.get_derivation_info(id).unwrap().build_status,
        BuildStatus::Building(ref b) if b.start == 10
    ));
    assert!(process_human_line(&mut state, "built '/nix/store/abc-hello-1.0.drv'", 20, None));
    assert!(matches!(
        state.get_derivation_info(id).unwrap().build_status,
        BuildStatus::Built { end: 20, .. }
    ));
    assert!(state.full_summary.completed_builds.contains_key(&id));
    assert!(!process_human_line(&mut state, "some chatter", 30, None));
}

#[test]
fn human_error_line_fails_a_running_build() {
    let mut state = State::new(0);
    process_human_line(&mut state, "building '/nix/store/abc-hello-1.0.drv'", 1, None);
    let line = "error: builder for '/nix/store/abc-hello-1.0.drv' failed with exit code 3";
    assert!(process_human_line(&mut state, line, 5, None));
    assert_eq!(state.nix_errors, vec![line.to_string()]);
    let id = state
        .find_derivation_id(&Derivation::parse("/nix/store/abc-hello-1.0.drv").unwrap())
        .unwrap();
    let failed = state.full_summary.failed_builds.get(&id).unwrap();
    assert_eq!(failed.fail_type, FailType::BuildFailed(3));
    assert_eq!(failed.end, 5);
    assert!(state.has_errors());
}

#[test]
fn human_download_lines_move_the_transfer() {
    let mut state = State::new(0);
    let line = "downloading '/nix/store/xyz-zlib-1.3' 4 MiB";
    assert!(process_human_line(&mut state, line, 3, Some(4 * 1024 * 1024)));
    let id = state
        .find_store_path_id(&StorePath::parse("/nix/store/xyz-zlib-1.3").unwrap())
        .unwrap();
    let t = state.full_summary.running_downloads.get(&id).unwrap();
    assert_eq!(t.start, 3);
    assert_eq!(t.total_bytes, Some(4 * 1024 * 1024));
    assert!(process_human_line(&mut state, "downloaded '/nix/store/xyz-zlib-1.3'", 8, None));
    assert!(state.full_summary.running_downloads.is_empty());
    let c = state.full_summary.completed_downloads.get(&id).unwrap();
    assert_eq!((c.start, c.end, c.total_bytes), (3, 8, 0));
}

#[test]
fn copying_paths_is_noticed() {
    let mut state = State::new(0);
    assert!(process_human_line(&mut state, "copying 3 paths...", 1, None));
    assert!(!process_human_line(&mut state, "copying many paths", 1, None));
}

#[test]
fn error_lines_are_told_apart() {
    let state = State::new(0);
    assert!(human_line_is_error(&state, "  error: something broke  "));
    assert!(human_line_is_error(&state, "warning: error: nested"));
    assert!(!human_line_is_error(&state, ""));
    assert!(!human_line_is_error(&state, "building '/nix/store/abc-hello-1.0.drv' error: x"));
    assert!(!human_line_is_error(&state, "all fine"));
}

#[test]
fn lines_cut_after_exit_code_need_a_character_there() {
    let state = State::new(0);
    let ends = "error: builder for '/nix/store/abc-x.drv' failed with exit code";
    assert!(!human_line_readable(&state, ends));
    let wide = "error: builder for '/nix/store/abc-x.drv' failed with exit code\u{e9}1";
    assert!(!human_line_readable(&state, wide));
    let fine = "error: builder for '/nix/store/abc-x.drv' failed with exit code 2";
    assert!(human_line_readable(&state, fine));
    // a building line is read before the error branch, so nothing is cut
    let building = "building '/nix/store/abc-x.drv' error: builder for x failed with exit code";
    assert!(human_line_readable(&state, building));
}
