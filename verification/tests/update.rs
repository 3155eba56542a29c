use rom::nix::{Actions, Activities, FieldValue, Host, ProgressState, Verbosity};
use rom::state::State;
use rom::summary::{BuildStatus, FailType};
use rom::update::{
    extract_derivation_from_error, extract_derivation_path, extract_file_name, extract_host,
    extract_phase, extract_store_path, finish_state, maintain_state, parse_fail_type,
    process_message,
};

const HELLO_BUILD_DRV: &str = "/nix/store/hhhhhhhhhhhhhhhhhhhhhhhhhhhhhhhh-hello-2.12.2.drv";
const BROKEN_DRV: &str = "/nix/store/ffffffffffffffffffffffffffffffff-broken-0.1.drv";

fn builds_start() -> Actions {
    Actions::Start {
        id: 1,
        level: Verbosity::Info,
        parent: 0,
        text: "building 1 derivation".to_string(),
        activity: Activities::Builds,
        fields: vec![],
    }
}

fn build_start(drv: &str) -> Actions {
    Actions::Start {
        id: 2,
        level: Verbosity::Info,
        parent: 1,
        text: format!("building '{drv}'"),
        activity: Activities::Build,
        fields: vec![
            FieldValue::Str(drv.to_string()),
            FieldValue::Str(String::new()),
            FieldValue::Str(String::new()),
            FieldValue::UInt(0),
            FieldValue::UInt(0),
        ],
    }
}

fn replay(actions: Vec<Actions>) -> State {
    let mut state = State::new(0);
    let mut now: u64 = 0;
    for action in actions {
        now += 100;
        process_message(&mut state, action, now);
        maintain_state(&mut state);
    }
    finish_state(&mut state, now + 100);
    maintain_state(&mut state);
    state
}

fn standard_fixture() -> Vec<Actions> {
    vec![
        builds_start(),
        build_start(HELLO_BUILD_DRV),
        Actions::Stop { id: 2 },
        Actions::Stop { id: 1 },
    ]
}

fn fail_fixture() -> Vec<Actions> {
    vec![
        builds_start(),
        build_start(BROKEN_DRV),
        Actions::Message {
            level: Verbosity::Error,
            msg: format!("error: builder for '{BROKEN_DRV}' failed with exit code 1"),
        },
        Actions::Stop { id: 2 },
        Actions::Stop { id: 1 },
    ]
}

#[test]
fn standard_replay_processes_without_panic() {
    let state = replay(standard_fixture());
    assert_eq!(state.progress_state, ProgressState::Finished);
    assert!(
        !state.derivation_infos.is_empty(),
        "expected at least one derivation to be tracked"
    );
}

#[test]
fn standard_replay_has_no_builds_left_running() {
    let state = replay(standard_fixture());
    let still_running: Vec<_> = state
        .derivation_infos
        .iter()
        .filter(|(_, info)| matches!(info.build_status, BuildStatus::Building(_)))
        .collect();
    assert!(
        still_running.is_empty(),
        "{} build(s) left in Building state after finish",
        still_running.len()
    );
}

#[test]
fn standard_replay_records_completion() {
    let state = replay(standard_fixture());
    assert!(
        !state.full_summary.completed_builds.is_empty(),
        "expected at least one completed build in summary"
    );
    assert!(
        state.full_summary.failed_builds.is_empty(),
        "standard fixture should not record any failures"
    );
}

#[test]
fn fail_replay_captures_error_message() {
    let state = replay(fail_fixture());
    assert_eq!(state.progress_state, ProgressState::Finished);
    assert!(
        state.nix_errors.iter().any(|e| e.contains("failed with exit code")),
        "expected an error mentioning the exit code, got: {:?}",
        state.nix_errors
    );
}

#[test]
fn fail_replay_deduplicates_errors() {
    let state = replay(fail_fixture());
    let mut seen: Vec<String> = Vec::new();
    for err in &state.nix_errors {
        assert!(!seen.contains(err), "duplicate error tracked: {err}");
        seen.push(err.clone());
    }
}

#[test]
fn fail_replay_marks_the_build_failed() {
    let state = replay(fail_fixture());
    assert_eq!(state.full_summary.failed_builds.len(), 1);
    let failed = state.full_summary.failed_builds.values().next().unwrap();
    assert_eq!(failed.fail_type, FailType::Unknown);
    // only the stand-in for the top-level activity completes
    assert_eq!(state.full_summary.completed_builds.len(), 1);
}

#[test]
fn build_start_marks_the_derivation_building() {
    let mut state = State::new(0);
    let (changed, to_read) = process_message(&mut state, builds_start(), 5);
    assert!(changed);
    assert_eq!(to_read, None);
    let stand_in = state.get_derivation_info(0).unwrap();
    assert_eq!(stand_in.name.name, "building-1");
    assert_eq!(stand_in.name.path, "/nix/store/placeholder-1.drv");
    assert_eq!(state.forest_roots, vec![0]);
    let (changed, to_read) = process_message(&mut state, build_start(HELLO_BUILD_DRV), 7);
    assert!(changed);
    assert_eq!(state.progress_state, ProgressState::InputReceived);
    assert_eq!(to_read, Some(1));
    let info = state.get_derivation_info(1).unwrap();
    assert_eq!(info.name.name, "hello-2.12.2");
    match &info.build_status {
        BuildStatus::Building(b) => {
            assert_eq!(b.start, 7);
            assert_eq!(b.activity_id, Some(2));
        }
        other => panic!("unexpected status {other:?}"),
    }
    assert!(state.full_summary.running_builds.contains_key(&1));
    let parent = state.get_derivation_info(0).unwrap();
    assert_eq!(parent.input_derivations.len(), 1);
    assert_eq!(parent.input_derivations[0].derivation, 1);
    assert!(state.get_derivation_info(1).unwrap().derivation_parents.contains(&0));
}

#[test]
fn stop_of_a_build_leaves_it_for_the_finish() {
    let mut state = State::new(0);
    process_message(&mut state, build_start(HELLO_BUILD_DRV), 7);
    let (changed, _) = process_message(&mut state, Actions::Stop { id: 2 }, 19);
    assert!(!changed);
    assert!(state.activities.is_empty());
    assert!(matches!(
        state.get_derivation_info(0).unwrap().build_status,
        BuildStatus::Building(_)
    ));
    maintain_state(&mut state);
    finish_state(&mut state, 40);
    match &state.get_derivation_info(0).unwrap().build_status {
        BuildStatus::Built { info, end } => {
            assert_eq!(info.start, 7);
            assert_eq!(*end, 40);
        }
        other => panic!("unexpected status {other:?}"),
    }
    let done = state.full_summary.completed_builds.get(&0).unwrap();
    assert_eq!((done.start, done.end), (7, 40));
}

#[test]
fn finish_state_ends_running_builds() {
    let mut state = State::new(0);
    process_message(&mut state, build_start(HELLO_BUILD_DRV), 7);
    maintain_state(&mut state);
    finish_state(&mut state, 50);
    assert_eq!(state.progress_state, ProgressState::Finished);
    assert!(state.full_summary.running_builds.is_empty());
    assert!(!matches!(
        state.get_derivation_info(0).unwrap().build_status,
        BuildStatus::Building(_)
    ));
}

#[test]
fn derivation_paths_are_found_in_text() {
    assert_eq!(
        extract_derivation_path("building '/nix/store/abc-hello-1.0.drv' on x").unwrap(),
        "/nix/store/abc-hello-1.0.drv"
    );
    assert_eq!(extract_derivation_path("no path"), None);
    assert_eq!(extract_derivation_path("/nix/store/abc-hello-1.0"), None);
    assert_eq!(
        extract_derivation_from_error("error: builder for '/nix/store/x-y.drv' failed").unwrap(),
        "/nix/store/x-y.drv"
    );
}

#[test]
fn store_paths_end_at_whitespace_or_quotes() {
    assert_eq!(
        extract_store_path("copying path '/nix/store/abc-zlib-1.3' from cache").unwrap(),
        "/nix/store/abc-zlib-1.3"
    );
    assert_eq!(extract_store_path("/nix/store/abc-zlib tail").unwrap(), "/nix/store/abc-zlib");
    assert_eq!(extract_store_path("nothing"), None);
}

#[test]
fn hosts_are_named_after_the_last_on() {
    assert!(matches!(extract_host("building foo"), Host::Localhost));
    match extract_host("building '/nix/store/a.drv' on 'ssh://builder'") {
        Host::Remote(h) => assert_eq!(h, "ssh://builder"),
        Host::Localhost => panic!("expected a remote host"),
    }
    match extract_host("copying on ") {
        Host::Remote(h) => assert_eq!(h, "localhost"),
        Host::Localhost => panic!("expected a named host"),
    }
}

#[test]
fn file_names_phases_and_fail_types() {
    assert_eq!(extract_file_name("evaluating file '/a/b.nix'").unwrap(), "/a/b.nix");
    assert_eq!(extract_file_name("no quotes"), None);
    assert_eq!(extract_phase("Running phase: buildPhase  ").unwrap(), "buildPhase");
    assert_eq!(extract_phase("nothing"), None);
    assert_eq!(parse_fail_type("build timeout"), FailType::Timeout);
    assert_eq!(parse_fail_type("hash mismatch in fixed-output"), FailType::HashMismatch);
    assert_eq!(parse_fail_type("dependency failed"), FailType::DependencyFailed);
    assert_eq!(parse_fail_type("something else"), FailType::Unknown);
}
