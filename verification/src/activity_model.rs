//! A small model of a nix run kept per activity: each started activity counts
//! as a running build of a placeholder derivation with a downloading store
//! path, completed by its result or its end.
use vstd::prelude::*;
use std::collections::HashMap;
use vstd::string::StringExecFns;
use crate::nix::{Actions, Host, Id, ProgressState};
use crate::summary::Duplicate;

verus! {

broadcast use vstd::std_specs::hash::group_hash_axioms;

/// Where a store path of the model stands.
#[derive(Debug, Clone, Copy, PartialEq, Eq, Structural)]
pub enum StorePath {
    Downloading,
    Uploading,
    Downloaded,
    Uploaded,
}

/// Status of a build of the model.
#[derive(Debug, Clone, Copy, PartialEq, Eq, Structural)]
pub enum BuildStatus {
    Planned,
    Running,
    Complete,
    Failed,
}

/// Where a dependency of the model stands.
#[derive(Debug, Clone, Copy, PartialEq, Eq, Structural)]
pub enum DependencyState {
    Planned,
    Running,
    Completed,
}

/// A derivation of the model: its store path.
#[derive(Debug)]
pub struct Derivation {
    pub store_path: String,
}

/// A build of the model.  Its start is a time in milliseconds, unknown (zero)
/// for the builds the model starts.
#[derive(Debug)]
pub struct BuildInfo {
    pub start: u64,
    pub host: Host,
    pub estimate: Option<u64>,
    pub activity_id: Id,
    pub state: BuildStatus,
}

/// The builds of the model by activity, as dependencies.
#[derive(Debug)]
pub struct Dependencies {
    pub deps: HashMap<Id, BuildInfo>,
}

/// The model's state.
#[derive(Debug)]
pub struct State {
    pub progress: ProgressState,
    pub derivations: HashMap<Id, Derivation>,
    pub builds: HashMap<Id, BuildInfo>,
    pub dependencies: Dependencies,
    pub store_paths: HashMap<Id, StorePath>,
    pub dependency_states: HashMap<Id, DependencyState>,
}

/// The build the model starts for activity `id`: running on this machine.
pub open spec fn started(b: BuildInfo, id: Id) -> bool {
    &&& b.start == 0
    &&& b.host == Host::Localhost
    &&& b.estimate is None
    &&& b.activity_id == id
    &&& b.state == BuildStatus::Running
}

/// A build with its state set to complete.
pub open spec fn completed(b: BuildInfo) -> BuildInfo {
    BuildInfo { state: BuildStatus::Complete, ..b }
}

fn placeholder_build(id: Id) -> (b: BuildInfo)
    ensures
        started(b, id),
{
    BuildInfo { start: 0, host: Host::Localhost, estimate: None, activity_id: id, state: BuildStatus::Running }
}

/// Marks the build of activity `id` complete, if there is one.
fn complete(builds: &mut HashMap<Id, BuildInfo>, id: Id)
    ensures
        final(builds)@ == if old(builds)@.contains_key(id) {
            old(builds)@.insert(id, completed(old(builds)@[id]))
        } else {
            old(builds)@
        },
{
    let b = match builds.get(&id) {
        Some(b) => BuildInfo {
            start: b.start,
            host: b.host.duplicate(),
            estimate: b.estimate,
            activity_id: b.activity_id,
            state: BuildStatus::Complete,
        },
        None => return,
    };
    builds.insert(id, b);
}

impl State {
    /// An empty model, no input received.
    pub fn new() -> (r: Self)
        ensures
            r.progress == ProgressState::JustStarted,
            r.derivations@.is_empty(),
            r.builds@.is_empty(),
            r.dependencies.deps@.is_empty(),
            r.store_paths@.is_empty(),
            r.dependency_states@.is_empty(),
    {
        State {
            progress: ProgressState::JustStarted,
            derivations: HashMap::new(),
            builds: HashMap::new(),
            dependencies: Dependencies { deps: HashMap::new() },
            store_paths: HashMap::new(),
            dependency_states: HashMap::new(),
        }
    }

    /// Takes in one action.  A start records, for its activity, a placeholder
    /// derivation, a running build (also as a dependency), a downloading store
    /// path and a running dependency; a result or a stop completes the
    /// activity's build; a message marks input received.
    pub fn imbibe(&mut self, action: Actions)
        ensures
            match action {
                Actions::Start { id, .. } => {
                    &&& final(self).derivations@.dom() == old(self).derivations@.dom().insert(id)
                    &&& final(self).derivations@[id].store_path@ == "/nix/store/placeholder"@
                    &&& forall|k: Id| k != id && #[trigger] old(self).derivations@.contains_key(k)
                        ==> final(self).derivations@[k] == old(self).derivations@[k]
                    &&& final(self).builds@.dom() == old(self).builds@.dom().insert(id)
                    &&& started(final(self).builds@[id], id)
                    &&& forall|k: Id| k != id && #[trigger] old(self).builds@.contains_key(k)
                        ==> final(self).builds@[k] == old(self).builds@[k]
                    &&& final(self).dependencies.deps@.dom() == old(self).dependencies.deps@.dom().insert(id)
                    &&& started(final(self).dependencies.deps@[id], id)
                    &&& forall|k: Id| k != id && #[trigger] old(self).dependencies.deps@.contains_key(k)
                        ==> final(self).dependencies.deps@[k] == old(self).dependencies.deps@[k]
                    &&& final(self).store_paths@ == old(self).store_paths@.insert(id, StorePath::Downloading)
                    &&& final(self).dependency_states@ == old(self).dependency_states@.insert(
                        id,
                        DependencyState::Running,
                    )
                    &&& final(self).progress == old(self).progress
                },
                Actions::Result { id, .. } | Actions::Stop { id } => {
                    &&& final(self).builds@ == if old(self).builds@.contains_key(id) {
                        old(self).builds@.insert(id, completed(old(self).builds@[id]))
                    } else {
                        old(self).builds@
                    }
                    &&& final(self).derivations == old(self).derivations
                    &&& final(self).dependencies == old(self).dependencies
                    &&& final(self).store_paths == old(self).store_paths
                    &&& final(self).dependency_states == old(self).dependency_states
                    &&& final(self).progress == old(self).progress
                },
                Actions::Message { .. } => {
                    &&& final(self).progress == ProgressState::InputReceived
                    &&& final(self).derivations == old(self).derivations
                    &&& final(self).builds == old(self).builds
                    &&& final(self).dependencies == old(self).dependencies
                    &&& final(self).store_paths == old(self).store_paths
                    &&& final(self).dependency_states == old(self).dependency_states
                },
            },
    {
        match action {
            Actions::Start { id, .. } => {
                self.derivations.insert(
                    id,
                    Derivation { store_path: String::from_str("/nix/store/placeholder") },
                );
                self.builds.insert(id, placeholder_build(id));
                self.dependencies.deps.insert(id, placeholder_build(id));
                self.store_paths.insert(id, StorePath::Downloading);
                self.dependency_states.insert(id, DependencyState::Running);
            },
            Actions::Result { id, .. } => {
                complete(&mut self.builds, id);
            },
            Actions::Stop { id } => {
                complete(&mut self.builds, id);
            },
            Actions::Message { .. } => {
                self.progress = ProgressState::InputReceived;
            },
        }
    }
}

} // verus!
