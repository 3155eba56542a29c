use rom::nix::{Host, ProgressState};
use rom::paths::{Derivation, StorePath};
use rom::state::{parse_outputs, DrvContents, DrvInput, State, StorePathState};
use rom::summary::{BuildInfo, BuildStatus, CompletedTransferInfo, TransferInfo};

fn drv(path: &str) -> Derivation {
    Derivation::parse(path).unwrap()
}

fn info(start: u64) -> BuildInfo {
    BuildInfo { start, host: Host::Localhost, estimate: None, activity_id: None }
}

#[test]
fn test_store_path_parse() {
    let path = "/nix/store/abc123-hello-1.0";
    let sp = StorePath::parse(path).unwrap();
    assert_eq!(sp.hash, "abc123");
    assert_eq!(sp.name, "hello-1.0");
}

#[test]
fn test_derivation_parse() {
    let path = "/nix/store/abc123-hello-1.0.drv";
    let d = Derivation::parse(path).unwrap();
    assert_eq!(d.name, "hello-1.0");
}

#[test]
fn test_state_creation() {
    let state = State::new(0);
    assert_eq!(state.progress_state, ProgressState::JustStarted);
    assert_eq!(state.total_builds(), 0);
}

#[test]
fn test_get_or_create_ids() {
    let mut state = State::new(0);
    let path = StorePath::parse("/nix/store/abc123-hello-1.0").unwrap();
    let id1 = state.get_or_create_store_path_id(path.clone());
    let id2 = state.get_or_create_store_path_id(path);
    assert_eq!(id1, id2);
}

#[test]
fn paths_outside_the_store_are_refused() {
    assert!(StorePath::parse("/tmp/abc123-hello").is_none());
    assert!(StorePath::parse("/nix/store/nohyphen").is_none());
    assert!(Derivation::parse("/nix/store/abc123-hello-1.0").is_none());
}

#[test]
fn derivation_ids_are_numbered_in_order_and_reused() {
    let mut state = State::new(0);
    let a = state.get_or_create_derivation_id(drv("/nix/store/aaa-a-1.drv"));
    let b = state.get_or_create_derivation_id(drv("/nix/store/bbb-b-1.drv"));
    let a2 = state.get_or_create_derivation_id(drv("/nix/store/aaa-a-1.drv"));
    assert_eq!(a, 0);
    assert_eq!(b, 1);
    assert_eq!(a2, a);
    assert_eq!(state.derivation_infos.len(), 2);
    assert_eq!(state.find_derivation_id(&drv("/nix/store/bbb-b-1.drv")), Some(1));
    assert_eq!(state.find_derivation_id(&drv("/nix/store/ccc-c-1.drv")), None);
}

#[test]
fn update_build_status_moves_summary_entries() {
    let mut state = State::new(0);
    let a = state.get_or_create_derivation_id(drv("/nix/store/aaa-a-1.drv"));
    state.update_build_status(a, BuildStatus::Planned);
    assert!(state.full_summary.planned_builds.contains(&a));
    assert_eq!(state.total_builds(), 1);
    state.update_build_status(a, BuildStatus::Building(info(5)));
    assert!(!state.full_summary.planned_builds.contains(&a));
    assert!(state.full_summary.running_builds.contains_key(&a));
    state.update_build_status(a, BuildStatus::Built { info: info(5), end: 9 });
    assert!(state.full_summary.running_builds.is_empty());
    let done = state.full_summary.completed_builds.get(&a).unwrap();
    assert_eq!((done.start, done.end), (5, 9));
    assert_eq!(state.total_builds(), 1);
    assert!(state.touched_ids.contains(&a));
    assert!(!state.has_errors());
}

#[test]
fn update_build_status_of_unknown_id_changes_nothing() {
    let mut state = State::new(0);
    state.update_build_status(7, BuildStatus::Planned);
    assert_eq!(state.total_builds(), 0);
    assert!(state.derivation_infos.is_empty());
}

#[test]
fn running_builds_are_listed_per_host() {
    let mut state = State::new(0);
    let a = state.get_or_create_derivation_id(drv("/nix/store/aaa-a-1.drv"));
    let b = state.get_or_create_derivation_id(drv("/nix/store/bbb-b-1.drv"));
    state.update_build_status(a, BuildStatus::Building(info(1)));
    let remote = BuildInfo {
        start: 2,
        host: Host::Remote("builder".to_string()),
        estimate: None,
        activity_id: None,
    };
    state.update_build_status(b, BuildStatus::Building(remote));
    let local = state.running_builds_for_host(&Host::Localhost);
    assert_eq!(local.len(), 1);
    assert_eq!(local[0].0, a);
    let far = state.running_builds_for_host(&Host::Remote("builder".to_string()));
    assert_eq!(far.len(), 1);
    assert_eq!(far[0].0, b);
}

#[test]
fn forest_roots_are_added_once_and_removed() {
    let mut state = State::new(0);
    let a = state.get_or_create_derivation_id(drv("/nix/store/aaa-a-1.drv"));
    state.add_forest_root(a);
    state.add_forest_root(a);
    assert_eq!(state.forest_roots, vec![a]);
    state.remove_forest_root(a);
    assert!(state.forest_roots.is_empty());
}

#[test]
fn link_input_records_parent_and_child() {
    let mut state = State::new(0);
    let p = state.get_or_create_derivation_id(drv("/nix/store/ppp-p-1.drv"));
    let c = state.get_or_create_derivation_id(drv("/nix/store/ccc-c-1.drv"));
    state.add_forest_root(c);
    state.link_input(p, c, parse_outputs(&["out".to_string()]));
    state.link_input(p, c, parse_outputs(&["dev".to_string()]));
    let parent = state.get_derivation_info(p).unwrap();
    assert_eq!(parent.input_derivations.len(), 1);
    assert_eq!(parent.input_derivations[0].derivation, c);
    let child = state.get_derivation_info(c).unwrap();
    assert!(child.derivation_parents.contains(&p));
    assert!(state.forest_roots.is_empty());
}

#[test]
fn add_input_derivation_plans_inputs_of_a_building_parent() {
    let mut state = State::new(0);
    let p = state.get_or_create_derivation_id(drv("/nix/store/ppp-p-1.drv"));
    assert_eq!(state.derivation_to_parse(p), Some("/nix/store/ppp-p-1.drv".to_string()));
    let child = state
        .add_input_derivation(p, true, "/nix/store/ccc-c-1.drv", &["out".to_string()])
        .unwrap();
    assert_eq!(child, 1);
    assert!(state.full_summary.planned_builds.contains(&child));
    assert_eq!(state.derivation_to_parse(p), None);
    assert_eq!(state.add_input_derivation(p, true, "/nix/store/not-a-derivation", &[]), None);
}

#[test]
fn record_derivation_metadata_keeps_old_pname_when_none_given() {
    let mut state = State::new(0);
    let a = state.get_or_create_derivation_id(drv("/nix/store/aaa-a-1.drv"));
    assert!(!state.record_derivation_metadata(a, Some("a".to_string()), "x86_64-linux".to_string()));
    state.record_derivation_metadata(a, None, "aarch64-linux".to_string());
    let i = state.get_derivation_info(a).unwrap();
    assert_eq!(i.pname, Some("a".to_string()));
    assert_eq!(i.platform, Some("aarch64-linux".to_string()));
}

#[test]
fn platform_mismatch_is_reported() {
    let mut state = State::with_platform(Some("x86_64-linux".to_string()), 0);
    let a = state.get_or_create_derivation_id(drv("/nix/store/aaa-a-1.drv"));
    let b = state.get_or_create_derivation_id(drv("/nix/store/bbb-b-1.drv"));
    state.record_derivation_metadata(a, None, "aarch64-linux".to_string());
    state.record_derivation_metadata(b, None, "x86_64-linux".to_string());
    assert!(state.has_platform_mismatch(a));
    assert!(!state.has_platform_mismatch(b));
    assert_eq!(state.platform_mismatches(), vec![a]);
}

#[test]
fn store_path_states_hold_one_of_each_kind() {
    let mut state = State::new(0);
    let p = state.get_or_create_store_path_id(StorePath::parse("/nix/store/abc-x").unwrap());
    state.add_store_path_state(p, StorePathState::DownloadPlanned);
    state.add_store_path_state(p, StorePathState::DownloadPlanned);
    assert_eq!(state.get_store_path_info(p).unwrap().states.len(), 1);
    let t = TransferInfo {
        start: 1,
        host: Host::Localhost,
        activity_id: 3,
        bytes_transferred: 0,
        total_bytes: None,
    };
    state.replace_store_path_state(p, 0, StorePathState::Downloading(t));
    let states = &state.get_store_path_info(p).unwrap().states;
    assert_eq!(states.len(), 1);
    assert!(matches!(states[0], StorePathState::Downloading(_)));
    let c = CompletedTransferInfo { start: 1, end: 4, host: Host::Localhost, total_bytes: 10 };
    state.reset_store_path_state(p, StorePathState::Downloaded(c));
    let states = &state.get_store_path_info(p).unwrap().states;
    assert_eq!(states.len(), 1);
    assert!(matches!(states[0], StorePathState::Downloaded(_)));
}

fn contents(pname: Option<&str>, inputs: &[&str]) -> DrvContents {
    DrvContents {
        pname: pname.map(str::to_string),
        platform: "x86_64-linux".to_string(),
        inputs: inputs
            .iter()
            .map(|p| DrvInput { path: p.to_string(), outputs: vec!["out".to_string()] })
            .collect(),
    }
}

#[test]
fn walk_records_inputs_and_returns_them_in_order() {
    let mut state = State::new(0);
    let p = state.get_or_create_derivation_id(drv("/nix/store/ppp-p-1.drv"));
    state.update_build_status(p, BuildStatus::Building(info(1)));
    state.forest_roots.push(p);
    let c = contents(
        Some("p"),
        &["/nix/store/aaa-a-1.drv", "/nix/store/not-a-derivation", "/nix/store/bbb-b-1.drv"],
    );
    let children = state.populate_derivation_dependencies(p, &c);
    assert_eq!(children, vec![1, 2]);
    let pi = state.get_derivation_info(p).unwrap();
    assert_eq!(pi.pname, Some("p".to_string()));
    assert_eq!(pi.platform, Some("x86_64-linux".to_string()));
    let inputs: Vec<usize> = pi.input_derivations.iter().map(|i| i.derivation).collect();
    assert_eq!(inputs, vec![1, 2]);
    for &ch in &children {
        let ci = state.get_derivation_info(ch).unwrap();
        assert!(ci.derivation_parents.contains(&p));
        assert!(matches!(ci.build_status, BuildStatus::Planned));
        assert!(!state.forest_roots.contains(&ch));
    }
    assert_eq!(state.get_derivation_info(2).unwrap().name.path, "/nix/store/bbb-b-1.drv");
}

#[test]
fn walk_stops_on_a_cycle() {
    let mut state = State::new(0);
    let a = state.get_or_create_derivation_id(drv("/nix/store/aaa-a-1.drv"));
    let first = state.populate_derivation_dependencies(a, &contents(None, &["/nix/store/bbb-b-1.drv"]));
    assert_eq!(first, vec![1]);
    // b lists a as its input: a is walked already.
    let second = state.populate_derivation_dependencies(1, &contents(None, &["/nix/store/aaa-a-1.drv"]));
    assert_eq!(second, vec![a]);
    let again = state.populate_derivation_dependencies(a, &contents(None, &["/nix/store/ccc-c-1.drv"]));
    assert!(again.is_empty());
    assert_eq!(state.derivation_to_parse(a), None);
    assert_eq!(state.get_derivation_info(a).unwrap().input_derivations.len(), 1);
    // Inputs of a derivation that is not building stay unknown.
    assert!(matches!(state.get_derivation_info(1).unwrap().build_status, BuildStatus::Unknown));
}

#[test]
fn walk_records_a_repeated_input_once() {
    let mut state = State::new(0);
    let a = state.get_or_create_derivation_id(drv("/nix/store/aaa-a-1.drv"));
    let c = contents(None, &["/nix/store/bbb-b-1.drv", "/nix/store/bbb-b-1.drv"]);
    let children = state.populate_derivation_dependencies(a, &c);
    assert_eq!(children, vec![1, 1]);
    assert_eq!(state.get_derivation_info(a).unwrap().input_derivations.len(), 1);
}

#[test]
fn walk_of_an_unknown_derivation_changes_nothing() {
    let mut state = State::new(0);
    let children = state.populate_derivation_dependencies(7, &contents(None, &["/nix/store/bbb-b-1.drv"]));
    assert!(children.is_empty());
    assert!(state.get_derivation_info(0).is_none());
}
