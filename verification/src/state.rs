//! State of a monitored nix run: the derivations and store paths seen, their
//! build and transfer status, activities, errors and logs.
use vstd::prelude::*;
use std::collections::{HashMap, HashSet};
use indexmap::IndexMap;
use crate::cache::BuildHistory;
use crate::nix::{output_name_of, Host, HostView, OutputName, OutputNameView, ProgressState};
use crate::lowercase::lowercase;
use crate::paths::derivation_name_of;
use crate::ordered::{
    dense, derivation_entries, drv_table_get, drv_table_get_index, drv_table_insert, drv_table_new,
    lemma_dense_key_index, path_table_get, path_table_get_index, path_table_insert, path_table_new,
    store_path_entries,
};
use crate::paths::{Derivation, StorePath};
use crate::summary::{
    cleared, map_keys, recorded, summary_holds, SummaryView, ActivityId, BuildInfo, BuildStatus, CompletedTransferInfo, DependencySummary,
    DerivationId, Duplicate, StorePathId, TransferInfo,
};
use crate::text::str_eq;

verus! {

broadcast use vstd::std_specs::hash::group_hash_axioms;

/// Where a store path stands.  A path holds at most one state of each kind.
#[derive(Debug, Clone)]
pub enum StorePathState {
    DownloadPlanned,
    Downloading(TransferInfo),
    Uploading(TransferInfo),
    Downloaded(CompletedTransferInfo),
    Uploaded(CompletedTransferInfo),
}

/// The kind of a store path state.
pub open spec fn state_kind(s: StorePathState) -> int {
    match s {
        StorePathState::DownloadPlanned => 0,
        StorePathState::Downloading(_) => 1,
        StorePathState::Uploading(_) => 2,
        StorePathState::Downloaded(_) => 3,
        StorePathState::Uploaded(_) => 4,
    }
}

fn kind_of(s: &StorePathState) -> (r: u8)
    ensures
        r == state_kind(*s),
{
    match s {
        StorePathState::DownloadPlanned => 0,
        StorePathState::Downloading(_) => 1,
        StorePathState::Uploading(_) => 2,
        StorePathState::Downloaded(_) => 3,
        StorePathState::Uploaded(_) => 4,
    }
}

/// No two states of the same kind.
pub open spec fn kinds_unique(v: Seq<StorePathState>) -> bool {
    forall|i: int, j: int| 0 <= i < j < v.len() ==> state_kind(v[i]) != state_kind(v[j])
}

/// Information about a store path.
#[derive(Debug)]
pub struct StorePathInfo {
    pub name: StorePath,
    pub states: Vec<StorePathState>,
    pub producer: Option<DerivationId>,
    pub input_for: HashSet<DerivationId>,
}

impl StorePathInfo {
    /// Adds a state unless one of its kind is already there.
    pub fn add_state(&mut self, s: StorePathState)
        requires
            kinds_unique(old(self).states@),
        ensures
            kinds_unique(final(self).states@),
            (exists|i: int| 0 <= i < old(self).states@.len() && state_kind(old(self).states@[i]) == state_kind(s))
                ==> final(self).states@ == old(self).states@,
            !(exists|i: int| 0 <= i < old(self).states@.len() && state_kind(old(self).states@[i]) == state_kind(s))
                ==> final(self).states@ == old(self).states@.push(s),
            final(self).name == old(self).name,
            final(self).producer == old(self).producer,
            final(self).input_for == old(self).input_for,
    {
        let k = kind_of(&s);
        let mut i: usize = 0;
        while i < self.states.len()
            invariant
                i <= self.states@.len(),
                *self == *old(self),
                kinds_unique(self.states@),
                k == state_kind(s),
                forall|j: int| 0 <= j < i ==> state_kind(self.states@[j]) != k,
            decreases self.states@.len() - i,
        {
            if kind_of(&self.states[i]) == k {
                assert(state_kind(old(self).states@[i as int]) == state_kind(s));
                return;
            }
            i += 1;
        }
        assert forall|a: int, b: int| 0 <= a < b < self.states@.push(s).len() implies state_kind(
            self.states@.push(s)[a],
        ) != state_kind(self.states@.push(s)[b]) by {
            if b == self.states@.len() {
                assert(self.states@.push(s)[a] == self.states@[a]);
            }
        }
        self.states.push(s);
    }

    /// Removes the state of the given kind, if there is one.
    pub fn remove_kind(&mut self, kind: u8)
        requires
            kinds_unique(old(self).states@),
        ensures
            kinds_unique(final(self).states@),
            forall|s: StorePathState|
                final(self).states@.contains(s) <==> (old(self).states@.contains(s) && state_kind(s)
                    != kind),
            final(self).name == old(self).name,
            final(self).producer == old(self).producer,
            final(self).input_for == old(self).input_for,
    {
        let mut i: usize = 0;
        while i < self.states.len()
            invariant
                i <= self.states@.len(),
                *self == *old(self),
                kinds_unique(self.states@),
                forall|j: int| 0 <= j < i ==> state_kind(self.states@[j]) != kind,
            decreases self.states@.len() - i,
        {
            if kind_of(&self.states[i]) == kind {
                let ghost before = self.states@;
                self.states.remove(i);
                proof {
                    assert forall|s: StorePathState|
                        self.states@.contains(s) <==> (before.contains(s) && state_kind(s) != kind) by {
                        if self.states@.contains(s) {
                            let k = choose|k: int| 0 <= k < self.states@.len() && self.states@[k] == s;
                            if k < i {
                                assert(before[k] == s);
                            } else {
                                assert(before[k + 1] == s);
                            }
                        }
                        if before.contains(s) && state_kind(s) != kind {
                            let k = choose|k: int| 0 <= k < before.len() && before[k] == s;
                            assert(k != i);
                            if k < i {
                                assert(self.states@[k] == s);
                            } else {
                                assert(self.states@[k - 1] == s);
                            }
                        }
                    }
                    assert forall|a: int, b: int| 0 <= a < b < self.states@.len() implies state_kind(
                        self.states@[a],
                    ) != state_kind(self.states@[b]) by {
                        let a2 = if a < i { a } else { a + 1 };
                        let b2 = if b < i { b } else { b + 1 };
                        assert(self.states@[a] == before[a2]);
                        assert(self.states@[b] == before[b2]);
                    }
                }
                return;
            }
            i += 1;
        }
        proof {
            assert forall|s: StorePathState| self.states@.contains(s) implies state_kind(s) != kind by {
                let k = choose|k: int| 0 <= k < self.states@.len() && self.states@[k] == s;
            }
        }
    }

    /// Removes every state.
    pub fn clear_states(&mut self)
        ensures
            final(self).states@.len() == 0,
            final(self).name == old(self).name,
            final(self).producer == old(self).producer,
            final(self).input_for == old(self).input_for,
    {
        self.states = Vec::new();
    }
}

impl StorePathState {
    /// An exact copy of this state.
    pub fn duplicate_state(&self) -> (r: Self)
        ensures
            r == *self,
    {
        match self {
            StorePathState::DownloadPlanned => StorePathState::DownloadPlanned,
            StorePathState::Downloading(t) => StorePathState::Downloading(t.duplicate()),
            StorePathState::Uploading(t) => StorePathState::Uploading(t.duplicate()),
            StorePathState::Downloaded(c) => StorePathState::Downloaded(c.duplicate()),
            StorePathState::Uploaded(c) => StorePathState::Uploaded(c.duplicate()),
        }
    }
}

/// Input derivation for dependency tracking.
#[derive(Debug, Clone)]
pub struct InputDerivation {
    pub derivation: DerivationId,
    pub outputs: Vec<OutputName>,
}

/// An input read from a derivation's `.drv` file: the input's path and the
/// outputs of it that are used.
#[derive(Debug, Clone)]
pub struct DrvInput {
    pub path: String,
    pub outputs: Vec<String>,
}

/// What the dependency walk reads from a derivation's `.drv` file: the
/// package name when the file gives one, the platform, and the inputs.
#[derive(Debug, Clone)]
pub struct DrvContents {
    pub pname: Option<String>,
    pub platform: String,
    pub inputs: Vec<DrvInput>,
}

/// Derivation information.
#[derive(Debug)]
pub struct DerivationInfo {
    pub name: Derivation,
    pub outputs: Vec<(OutputName, StorePathId)>,
    pub input_derivations: Vec<InputDerivation>,
    pub input_sources: HashSet<StorePathId>,
    pub build_status: BuildStatus,
    pub dependency_summary: DependencySummary,
    pub cached: bool,
    pub derivation_parents: HashSet<DerivationId>,
    pub pname: Option<String>,
    pub platform: Option<String>,
}

/// What a derivation first seen holds: its name and nothing else.
pub open spec fn is_fresh_info(i: DerivationInfo, drv: Derivation) -> bool {
    &&& i.name == drv
    &&& i.outputs@.len() == 0
    &&& i.input_derivations@.len() == 0
    &&& i.input_sources@.is_empty()
    &&& i.build_status is Unknown
    &&& i.dependency_summary@.planned_builds.is_empty()
    &&& i.dependency_summary@.running_builds.is_empty()
    &&& i.dependency_summary@.completed_builds.is_empty()
    &&& i.dependency_summary@.failed_builds.is_empty()
    &&& i.dependency_summary@.planned_downloads.is_empty()
    &&& i.dependency_summary@.completed_downloads.is_empty()
    &&& i.dependency_summary@.completed_uploads.is_empty()
    &&& i.dependency_summary@.running_downloads.is_empty()
    &&& i.dependency_summary@.running_uploads.is_empty()
    &&& !i.cached
    &&& i.derivation_parents@.is_empty()
    &&& i.pname is None
    &&& i.platform is None
}

impl DerivationInfo {
    /// The information of a derivation first seen.
    pub fn fresh(drv: Derivation) -> (r: Self)
        ensures
            is_fresh_info(r, drv),
    {
        DerivationInfo {
            name: drv,
            outputs: Vec::new(),
            input_derivations: Vec::new(),
            input_sources: HashSet::new(),
            build_status: BuildStatus::Unknown,
            dependency_summary: DependencySummary::new(),
            cached: false,
            derivation_parents: HashSet::new(),
            pname: None,
            platform: None,
        }
    }
}

/// Activity progress for downloads/uploads/builds.
#[derive(Debug, Clone, Copy, PartialEq, Eq)]
pub struct ActivityProgress {
    /// Bytes completed
    pub done: u64,
    /// Total bytes expected
    pub expected: u64,
    /// Currently running transfers
    pub running: u64,
    /// Failed transfers
    pub failed: u64,
}

/// Activity status tracking.
#[derive(Debug, Clone)]
pub struct ActivityStatus {
    pub activity: u8,
    pub text: String,
    pub parent: Option<ActivityId>,
    pub phase: Option<String>,
    pub progress: Option<ActivityProgress>,
}

/// Evaluation information.
#[derive(Debug, Clone)]
pub struct EvalInfo {
    pub last_file_name: Option<String>,
    pub count: usize,
    pub at: u64,
}

/// Main state of a monitored run.  Times are milliseconds since 1970-01-01 UTC.
#[derive(Debug)]
pub struct State {
    pub derivation_infos: IndexMap<DerivationId, DerivationInfo>,
    pub store_path_infos: IndexMap<StorePathId, StorePathInfo>,
    pub full_summary: DependencySummary,
    pub forest_roots: Vec<DerivationId>,
    pub build_reports: BuildHistory,
    pub start_time: u64,
    pub progress_state: ProgressState,
    pub touched_ids: HashSet<DerivationId>,
    pub activities: HashMap<ActivityId, ActivityStatus>,
    pub nix_errors: Vec<String>,
    pub build_logs: Vec<String>,
    pub traces: Vec<String>,
    pub build_platform: Option<String>,
    pub evaluation_state: EvalInfo,
    pub next_store_path_id: StorePathId,
    pub next_derivation_id: DerivationId,
}

/// Two derivations are the same derivation.
pub open spec fn same_drv(a: Derivation, b: Derivation) -> bool {
    a.path@ == b.path@ && a.name@ == b.name@
}

/// Two store paths are the same store path.
pub open spec fn same_path(a: StorePath, b: StorePath) -> bool {
    a.path@ == b.path@ && a.hash@ == b.hash@ && a.name@ == b.name@
}

/// Position of the first element at or after `i` that satisfies `p`.
pub open spec fn first_from<T>(s: Seq<T>, p: spec_fn(T) -> bool, i: int) -> Option<int>
    decreases s.len() - i,
{
    if i < 0 || i >= s.len() {
        None
    } else if p(s[i]) {
        Some(i)
    } else {
        first_from(s, p, i + 1)
    }
}

/// No element from `i` on satisfies `p` when the search finds nothing.
pub proof fn lemma_first_from_none<T>(s: Seq<T>, p: spec_fn(T) -> bool, i: int)
    requires
        0 <= i,
        first_from(s, p, i) is None,
    ensures
        forall|j: int| i <= j < s.len() ==> !p(#[trigger] s[j]),
    decreases s.len() - i,
{
    if i < s.len() {
        lemma_first_from_none(s, p, i + 1);
    }
}

/// What the search finds satisfies `p`, and nothing before it does.
pub proof fn lemma_first_from_some<T>(s: Seq<T>, p: spec_fn(T) -> bool, i: int)
    requires
        0 <= i,
        first_from(s, p, i) is Some,
    ensures
        i <= first_from(s, p, i).unwrap() < s.len(),
        p(s[first_from(s, p, i).unwrap()]),
        forall|j: int| i <= j < first_from(s, p, i).unwrap() ==> !p(#[trigger] s[j]),
    decreases s.len() - i,
{
    if i < s.len() && !p(s[i]) {
        lemma_first_from_some(s, p, i + 1);
    }
}

/// The first element satisfying `p` is found.
pub proof fn lemma_first_from_at<T>(s: Seq<T>, p: spec_fn(T) -> bool, i: int, k: int)
    requires
        0 <= i <= k < s.len(),
        p(s[k]),
        forall|j: int| i <= j < k ==> !p(#[trigger] s[j]),
    ensures
        first_from(s, p, i) == Some(k),
    decreases k - i,
{
    if i < k {
        assert(!p(s[i]));
        lemma_first_from_at(s, p, i + 1, k);
    }
}

/// The search finds nothing when no element satisfies `p`.
pub proof fn lemma_first_from_absent<T>(s: Seq<T>, p: spec_fn(T) -> bool, i: int)
    requires
        0 <= i,
        forall|j: int| i <= j < s.len() ==> !p(#[trigger] s[j]),
    ensures
        first_from(s, p, i) is None,
    decreases s.len() - i,
{
    if i < s.len() {
        assert(!p(s[i]));
        lemma_first_from_absent(s, p, i + 1);
    }
}

/// Is not derivation `id`.
pub open spec fn other_than(id: DerivationId) -> spec_fn(DerivationId) -> bool {
    |x: DerivationId| x != id
}

/// Is derivation `drv`.
pub open spec fn is_drv(drv: Derivation) -> spec_fn(Derivation) -> bool {
    |d: Derivation| same_drv(d, drv)
}

/// Is store path `p`.
pub open spec fn is_path(p: StorePath) -> spec_fn(StorePath) -> bool {
    |q: StorePath| same_path(q, p)
}

/// A derivation's information with another build status.
pub open spec fn with_status(i: DerivationInfo, s: BuildStatus) -> DerivationInfo {
    DerivationInfo { build_status: s, ..i }
}

impl State {
    /// The derivations, indexed by their identifiers.
    pub open spec fn drvs(&self) -> Seq<DerivationInfo> {
        derivation_entries(self.derivation_infos).map_values(|e: (usize, DerivationInfo)| e.1)
    }

    /// The store paths, indexed by their identifiers.
    pub open spec fn paths(&self) -> Seq<StorePathInfo> {
        store_path_entries(self.store_path_infos).map_values(|e: (usize, StorePathInfo)| e.1)
    }

    /// The names of the derivations, indexed by their identifiers.
    pub open spec fn drv_names(&self) -> Seq<Derivation> {
        self.drvs().map_values(|i: DerivationInfo| i.name)
    }

    /// The names of the store paths, indexed by their identifiers.
    pub open spec fn path_names(&self) -> Seq<StorePath> {
        self.paths().map_values(|i: StorePathInfo| i.name)
    }

    /// The identifier of a derivation, if it has one.
    pub open spec fn derivation_id_of(&self, drv: Derivation) -> Option<int> {
        first_from(self.drv_names(), is_drv(drv), 0)
    }

    /// The identifier of a store path, if it has one.
    pub open spec fn store_path_id_of(&self, p: StorePath) -> Option<int> {
        first_from(self.path_names(), is_path(p), 0)
    }

    /// Identifiers are handed out in order, each derivation and each store
    /// path has one identifier, and store path states are one per kind.
    pub open spec fn wf(&self) -> bool {
        &&& dense(derivation_entries(self.derivation_infos))
        &&& derivation_entries(self.derivation_infos).len() == self.next_derivation_id
        &&& dense(store_path_entries(self.store_path_infos))
        &&& store_path_entries(self.store_path_infos).len() == self.next_store_path_id
        &&& forall|i: int, j: int|
            0 <= i < j < self.drvs().len() ==> !same_drv(self.drvs()[i].name, self.drvs()[j].name)
        &&& forall|i: int, j: int|
            0 <= i < j < self.paths().len() ==> !same_path(
                self.paths()[i].name,
                self.paths()[j].name,
            )
        &&& forall|i: int| 0 <= i < self.paths().len() ==> kinds_unique(#[trigger] self.paths()[i].states@)
        &&& self.build_reports.wf()
    }

    /// There is room for one more derivation and one more store path.
    pub open spec fn has_room(&self) -> bool {
        self.next_derivation_id < usize::MAX && self.next_store_path_id < usize::MAX
    }

    /// Whether another derivation and store path can be numbered.
    pub fn room_left(&self) -> (r: bool)
        ensures
            r == self.has_room(),
    {
        self.next_derivation_id < usize::MAX && self.next_store_path_id < usize::MAX
    }

    /// An empty state, started at `now`, on no particular build platform.
    pub fn new(now: u64) -> (r: Self)
        ensures
            r.wf(),
            r.drvs().len() == 0,
            r.paths().len() == 0,
            r.start_time == now,
            r.progress_state == ProgressState::JustStarted,
            r.full_summary@.planned_builds.is_empty(),
            r.full_summary@.running_builds.is_empty(),
            r.full_summary@.completed_builds.is_empty(),
            r.full_summary@.failed_builds.is_empty(),
            r.full_summary@.planned_downloads.is_empty(),
            r.full_summary@.completed_downloads.is_empty(),
            r.full_summary@.completed_uploads.is_empty(),
            r.full_summary@.running_downloads.is_empty(),
            r.full_summary@.running_uploads.is_empty(),
            r.forest_roots@.len() == 0,
            r.build_reports.entries@.len() == 0,
            r.touched_ids@.is_empty(),
            r.activities@.is_empty(),
            r.nix_errors@.len() == 0,
            r.build_logs@.len() == 0,
            r.traces@.len() == 0,
            r.build_platform is None,
            r.evaluation_state.last_file_name is None,
            r.evaluation_state.count == 0,
            r.evaluation_state.at == 0,
            r.next_store_path_id == 0,
            r.next_derivation_id == 0,
            r.summary_consistent(),
    {
        let s = State {
            derivation_infos: drv_table_new(),
            store_path_infos: path_table_new(),
            full_summary: DependencySummary::new(),
            forest_roots: Vec::new(),
            build_reports: BuildHistory::new(),
            start_time: now,
            progress_state: ProgressState::JustStarted,
            touched_ids: HashSet::new(),
            activities: HashMap::new(),
            nix_errors: Vec::new(),
            build_logs: Vec::new(),
            traces: Vec::new(),
            build_platform: None,
            evaluation_state: EvalInfo { last_file_name: None, count: 0, at: 0 },
            next_store_path_id: 0,
            next_derivation_id: 0,
        };
        assert(s.drvs() =~= Seq::<DerivationInfo>::empty());
        assert(s.paths() =~= Seq::<StorePathInfo>::empty());
        s
    }

    /// An empty state for a known build platform.
    pub fn with_platform(platform: Option<String>, now: u64) -> (r: Self)
        ensures
            r.wf(),
            r.drvs().len() == 0,
            r.paths().len() == 0,
            r.start_time == now,
            r.progress_state == ProgressState::JustStarted,
            r.build_platform == platform,
            r.next_store_path_id == 0,
            r.next_derivation_id == 0,
    {
        let mut state = Self::new(now);
        state.build_platform = platform;
        state
    }

    /// The derivation with identifier `id`.
    pub fn get_derivation_info(&self, id: DerivationId) -> (r: Option<&DerivationInfo>)
        requires
            self.wf(),
        ensures
            id < self.drvs().len() ==> r == Some(&self.drvs()[id as int]),
            id >= self.drvs().len() ==> r is None,
    {
        proof {
            lemma_dense_key_index(derivation_entries(self.derivation_infos), id);
        }
        drv_table_get(&self.derivation_infos, id)
    }

    /// The store path with identifier `id`.
    pub fn get_store_path_info(&self, id: StorePathId) -> (r: Option<&StorePathInfo>)
        requires
            self.wf(),
        ensures
            id < self.paths().len() ==> r == Some(&self.paths()[id as int]),
            id >= self.paths().len() ==> r is None,
    {
        proof {
            lemma_dense_key_index(store_path_entries(self.store_path_infos), id);
        }
        path_table_get(&self.store_path_infos, id)
    }

    /// Replaces the information of derivation `id`, returning the former one.
    fn replace_derivation_info(&mut self, id: DerivationId, info: DerivationInfo) -> (r: DerivationInfo)
        requires
            old(self).wf(),
            id < old(self).drvs().len(),
            same_drv(info.name, old(self).drvs()[id as int].name),
        ensures
            final(self).wf(),
            r == old(self).drvs()[id as int],
            final(self).drvs() == old(self).drvs().update(id as int, info),
            final(self).paths() == old(self).paths(),
            *final(self) == (State { derivation_infos: final(self).derivation_infos, ..*old(self) }),
    {
        proof {
            lemma_dense_key_index(derivation_entries(self.derivation_infos), id);
        }
        let ghost e = derivation_entries(self.derivation_infos);
        let r = drv_table_insert(&mut self.derivation_infos, id, info);
        let ghost e2 = derivation_entries(self.derivation_infos);
        assert(e2 == e.update(id as int, (id, info)));
        assert(self.drvs() =~= old(self).drvs().update(id as int, info));
        proof {
            assert forall|i: int, j: int| 0 <= i < j < self.drvs().len() implies !same_drv(
                self.drvs()[i].name,
                self.drvs()[j].name,
            ) by {
                assert(!same_drv(old(self).drvs()[i].name, old(self).drvs()[j].name));
                if i != id {
                    assert(self.drvs()[i] == old(self).drvs()[i]);
                }
                if j != id {
                    assert(self.drvs()[j] == old(self).drvs()[j]);
                }
            }
            assert(self.paths() == old(self).paths());
            assert forall|i: int| 0 <= i < self.paths().len() implies kinds_unique(
                #[trigger] self.paths()[i].states@,
            ) by {
                assert(self.paths()[i] == old(self).paths()[i]);
            }
        }
        match r {
            Some(x) => x,
            None => DerivationInfo::fresh(Derivation { path: String::new(), name: String::new() }),
        }
    }

    /// Replaces the information of store path `id`, returning the former one.
    fn replace_store_path_info(&mut self, id: StorePathId, info: StorePathInfo) -> (r: StorePathInfo)
        requires
            old(self).wf(),
            id < old(self).paths().len(),
            same_path(info.name, old(self).paths()[id as int].name),
            kinds_unique(info.states@),
        ensures
            final(self).wf(),
            r == old(self).paths()[id as int],
            final(self).paths() == old(self).paths().update(id as int, info),
            final(self).drvs() == old(self).drvs(),
            *final(self) == (State { store_path_infos: final(self).store_path_infos, ..*old(self) }),
    {
        proof {
            lemma_dense_key_index(store_path_entries(self.store_path_infos), id);
        }
        let ghost e = store_path_entries(self.store_path_infos);
        let r = path_table_insert(&mut self.store_path_infos, id, info);
        let ghost e2 = store_path_entries(self.store_path_infos);
        assert(e2 == e.update(id as int, (id, info)));
        assert(self.paths() =~= old(self).paths().update(id as int, info));
        proof {
            assert forall|i: int, j: int| 0 <= i < j < self.paths().len() implies !same_path(
                self.paths()[i].name,
                self.paths()[j].name,
            ) by {
                assert(!same_path(old(self).paths()[i].name, old(self).paths()[j].name));
                if i != id {
                    assert(self.paths()[i] == old(self).paths()[i]);
                }
                if j != id {
                    assert(self.paths()[j] == old(self).paths()[j]);
                }
            }
            assert(self.drvs() == old(self).drvs());
            assert(dense(store_path_entries(self.store_path_infos)));
            assert(store_path_entries(self.store_path_infos).len() == self.next_store_path_id);
            assert forall|i: int| 0 <= i < self.paths().len() implies kinds_unique(
                #[trigger] self.paths()[i].states@,
            ) by {
                if i != id {
                    assert(self.paths()[i] == old(self).paths()[i]);
                }
            }
        }
        match r {
            Some(x) => x,
            None => StorePathInfo {
                name: StorePath { path: String::new(), hash: String::new(), name: String::new() },
                states: Vec::new(),
                producer: None,
                input_for: HashSet::new(),
            },
        }
    }

    /// The identifier of a derivation already seen.
    pub fn find_derivation_id(&self, drv: &Derivation) -> (r: Option<DerivationId>)
        requires
            self.wf(),
        ensures
            r == (match self.derivation_id_of(*drv) {
                Some(i) => Some(i as usize),
                None => None::<usize>,
            }),
            self.derivation_id_of(*drv) matches Some(i) ==> 0 <= i < self.drvs().len(),
    {
        let mut i: usize = 0;
        while i < self.next_derivation_id
            invariant
                self.wf(),
                i <= self.next_derivation_id,
                self.derivation_id_of(*drv) == first_from(self.drv_names(), is_drv(*drv), i as int),
            decreases self.next_derivation_id - i,
        {
            match drv_table_get_index(&self.derivation_infos, i) {
                Some((_, info)) => {
                    assert(info == self.drvs()[i as int]);
                    assert(self.drv_names()[i as int] == info.name);
                    if info.name.same(drv) {
                        return Some(i);
                    }
                },
                None => {},
            }
            i += 1;
        }
        None
    }

    /// The identifier of a store path already seen.
    pub fn find_store_path_id(&self, p: &StorePath) -> (r: Option<StorePathId>)
        requires
            self.wf(),
        ensures
            r == (match self.store_path_id_of(*p) {
                Some(i) => Some(i as usize),
                None => None::<usize>,
            }),
            self.store_path_id_of(*p) matches Some(i) ==> 0 <= i < self.paths().len(),
    {
        let mut i: usize = 0;
        while i < self.next_store_path_id
            invariant
                self.wf(),
                i <= self.next_store_path_id,
                self.store_path_id_of(*p) == first_from(self.path_names(), is_path(*p), i as int),
            decreases self.next_store_path_id - i,
        {
            match path_table_get_index(&self.store_path_infos, i) {
                Some((_, info)) => {
                    assert(info == self.paths()[i as int]);
                    assert(self.path_names()[i as int] == info.name);
                    if info.name.same(p) {
                        return Some(i);
                    }
                },
                None => {},
            }
            i += 1;
        }
        None
    }
    /// The identifier of derivation `drv`; a derivation not seen before gets
    /// the next identifier and fresh information.
    pub fn get_or_create_derivation_id(&mut self, drv: Derivation) -> (id: DerivationId)
        requires
            old(self).wf(),
            old(self).next_derivation_id < usize::MAX,
        ensures
            final(self).wf(),
            final(self).derivation_id_of(drv) == Some(id as int),
            id < final(self).drvs().len(),
            old(self).derivation_id_of(drv) matches Some(i) ==> id == i && *final(self)
                == *old(self),
            old(self).derivation_id_of(drv) is None ==> {
                &&& id == old(self).drvs().len()
                &&& final(self).drvs() == old(self).drvs().push(final(self).drvs()[id as int])
                &&& is_fresh_info(final(self).drvs()[id as int], drv)
                &&& final(self).paths() == old(self).paths()
                &&& *final(self) == (State {
                    derivation_infos: final(self).derivation_infos,
                    next_derivation_id: final(self).next_derivation_id,
                    ..*old(self)
                })
            },
            old(self).summary_consistent() ==> final(self).summary_consistent(),
    {
        if let Some(id) = self.find_derivation_id(&drv) {
            return id;
        }
        let id = self.next_derivation_id;
        proof {
            lemma_dense_key_index(derivation_entries(self.derivation_infos), id);
            lemma_first_from_none(self.drv_names(), is_drv(drv), 0);
        }
        let ghost before = *self;
        let info = DerivationInfo::fresh(drv.copy());
        let _ = drv_table_insert(&mut self.derivation_infos, id, info);
        self.next_derivation_id = id + 1;
        proof {
            assert(self.drvs() =~= before.drvs().push(info));
            assert(self.drv_names() =~= before.drv_names().push(drv));
            assert(self.paths() == before.paths());
            assert forall|i: int, j: int| 0 <= i < j < self.drvs().len() implies !same_drv(
                self.drvs()[i].name,
                self.drvs()[j].name,
            ) by {
                if j == id {
                    assert(before.drv_names()[i] == before.drvs()[i].name);
                    assert(!is_drv(drv)(before.drv_names()[i]));
                    assert(self.drvs()[i] == before.drvs()[i]);
                    assert(self.drvs()[j] == info);
                    assert(!same_drv(before.drvs()[i].name, drv));
                } else {
                    assert(self.drvs()[i] == before.drvs()[i]);
                    assert(self.drvs()[j] == before.drvs()[j]);
                    assert(!same_drv(before.drvs()[i].name, before.drvs()[j].name));
                }
            }
            assert forall|j: int| 0 <= j < id implies !is_drv(drv)(#[trigger] self.drv_names()[j]) by {
                assert(self.drv_names()[j] == before.drv_names()[j]);
            }
            lemma_first_from_at(self.drv_names(), is_drv(drv), 0, id as int);
            if before.summary_consistent() {
                assert forall|j: int| 0 <= j < self.drvs().len() implies summary_holds(
                    self.full_summary@,
                    j as usize,
                    #[trigger] self.drvs()[j].build_status,
                ) by {
                    if j < id {
                        assert(self.drvs()[j] == before.drvs()[j]);
                    } else {
                        assert(self.drvs()[j] == info);
                        assert(!self.full_summary@.planned_builds.contains(id));
                        assert(!self.full_summary@.running_builds.contains_key(id));
                        assert(!self.full_summary@.completed_builds.contains_key(id));
                        assert(!self.full_summary@.failed_builds.contains_key(id));
                    }
                }
            }
        }
        id
    }

    /// The identifier of store path `path`; a store path not seen before gets
    /// the next identifier, no states and no links.
    pub fn get_or_create_store_path_id(&mut self, path: StorePath) -> (id: StorePathId)
        requires
            old(self).wf(),
            old(self).next_store_path_id < usize::MAX,
        ensures
            final(self).wf(),
            final(self).store_path_id_of(path) == Some(id as int),
            id < final(self).paths().len(),
            old(self).store_path_id_of(path) matches Some(i) ==> id == i && *final(self)
                == *old(self),
            old(self).store_path_id_of(path) is None ==> {
                &&& id == old(self).paths().len()
                &&& final(self).paths() == old(self).paths().push(final(self).paths()[id as int])
                &&& final(self).paths()[id as int].name == path
                &&& final(self).paths()[id as int].states@.len() == 0
                &&& final(self).paths()[id as int].producer is None
                &&& final(self).paths()[id as int].input_for@.is_empty()
                &&& final(self).drvs() == old(self).drvs()
                &&& *final(self) == (State {
                    store_path_infos: final(self).store_path_infos,
                    next_store_path_id: final(self).next_store_path_id,
                    ..*old(self)
                })
            },
            old(self).summary_consistent() ==> final(self).summary_consistent(),
    {
        if let Some(id) = self.find_store_path_id(&path) {
            return id;
        }
        let id = self.next_store_path_id;
        proof {
            lemma_dense_key_index(store_path_entries(self.store_path_infos), id);
            lemma_first_from_none(self.path_names(), is_path(path), 0);
        }
        let ghost before = *self;
        let info = StorePathInfo {
            name: path.copy(),
            states: Vec::new(),
            producer: None,
            input_for: HashSet::new(),
        };
        let _ = path_table_insert(&mut self.store_path_infos, id, info);
        self.next_store_path_id = id + 1;
        proof {
            assert(self.paths() =~= before.paths().push(info));
            assert(self.path_names() =~= before.path_names().push(path));
            assert(self.drvs() == before.drvs());
            assert forall|i: int, j: int| 0 <= i < j < self.paths().len() implies !same_path(
                self.paths()[i].name,
                self.paths()[j].name,
            ) by {
                if j == id {
                    assert(before.path_names()[i] == before.paths()[i].name);
                    assert(!is_path(path)(before.path_names()[i]));
                    assert(self.paths()[i] == before.paths()[i]);
                    assert(self.paths()[j] == info);
                    assert(!same_path(before.paths()[i].name, path));
                } else {
                    assert(self.paths()[i] == before.paths()[i]);
                    assert(self.paths()[j] == before.paths()[j]);
                    assert(!same_path(before.paths()[i].name, before.paths()[j].name));
                }
            }
            assert forall|i: int| 0 <= i < self.paths().len() implies kinds_unique(
                #[trigger] self.paths()[i].states@,
            ) by {
                if i < id {
                    assert(self.paths()[i] == before.paths()[i]);
                }
            }
            assert forall|j: int| 0 <= j < id implies !is_path(path)(#[trigger] self.path_names()[j]) by {
                assert(self.path_names()[j] == before.path_names()[j]);
            }
            lemma_first_from_at(self.path_names(), is_path(path), 0, id as int);
        }
        id
    }
    /// Sets the build status of derivation `id` and moves its entry in the
    /// summary accordingly; an unknown identifier changes nothing.
    pub fn update_build_status(&mut self, id: DerivationId, new_status: BuildStatus)
        requires
            old(self).wf(),
        ensures
            final(self).wf(),
            final(self).drv_names() == old(self).drv_names(),
            id < old(self).drvs().len() ==> {
                &&& final(self).drvs() == old(self).drvs().update(
                    id as int,
                    with_status(old(self).drvs()[id as int], new_status),
                )
                &&& final(self).full_summary@ == recorded(
                    cleared(old(self).full_summary@, id, old(self).drvs()[id as int].build_status),
                    id,
                    new_status,
                )
                &&& final(self).touched_ids@ == old(self).touched_ids@.insert(id)
                &&& final(self).paths() == old(self).paths()
                &&& *final(self) == (State {
                    derivation_infos: final(self).derivation_infos,
                    full_summary: final(self).full_summary,
                    touched_ids: final(self).touched_ids,
                    ..*old(self)
                })
            },
            id >= old(self).drvs().len() ==> *final(self) == *old(self),
            old(self).summary_consistent() ==> final(self).summary_consistent(),
    {
        if id >= self.next_derivation_id {
            return;
        }
        let ghost before = *self;
        let name = match self.get_derivation_info(id) {
            Some(info) => info.name.copy(),
            None => return,
        };
        let mut info = self.replace_derivation_info(id, DerivationInfo::fresh(name));
        let old_status = info.build_status.duplicate();
        info.build_status = new_status.duplicate();
        assert(info == with_status(before.drvs()[id as int], new_status));
        let _ = self.replace_derivation_info(id, info);
        self.full_summary.clear_derivation(id, &old_status);
        self.full_summary.update_derivation(id, &new_status);
        self.touched_ids.insert(id);
        proof {
            assert(self.drvs() =~= before.drvs().update(id as int, info));
            assert(self.drv_names() =~= before.drv_names());
            if before.summary_consistent() {
                let v = before.full_summary@;
                let w = self.full_summary@;
                assert(summary_holds(v, id, before.drvs()[id as int].build_status));
                crate::summary::law_status_change(v, id, old_status, new_status);
                assert forall|j: int| 0 <= j < self.drvs().len() implies summary_holds(
                    w,
                    j as usize,
                    #[trigger] self.drvs()[j].build_status,
                ) by {
                    if j != id {
                        assert(self.drvs()[j] == before.drvs()[j]);
                        assert(summary_holds(v, j as usize, before.drvs()[j].build_status));
                    }
                }
            }
        }
    }

    /// The full summary agrees with every derivation's build status, and holds
    /// no build entry for an unknown identifier.
    pub open spec fn summary_consistent(&self) -> bool {
        &&& forall|j: int|
            0 <= j < self.drvs().len() ==> summary_holds(
                self.full_summary@,
                j as usize,
                #[trigger] self.drvs()[j].build_status,
            )
        &&& forall|j: usize| #[trigger]
            self.full_summary@.planned_builds.contains(j) ==> j < self.drvs().len()
        &&& forall|j: usize| #[trigger]
            self.full_summary@.running_builds.contains_key(j) ==> j < self.drvs().len()
        &&& forall|j: usize| #[trigger]
            self.full_summary@.completed_builds.contains_key(j) ==> j < self.drvs().len()
        &&& forall|j: usize| #[trigger]
            self.full_summary@.failed_builds.contains_key(j) ==> j < self.drvs().len()
    }

    /// Whether there is anything to show: a derivation, a running or planned
    /// build, or any input at all.
    pub fn shows_activity(&self) -> (r: bool)
        requires
            self.wf(),
        ensures
            r == (self.drvs().len() > 0 || self.full_summary@.running_builds.len() > 0
                || self.full_summary@.planned_builds.len() > 0 || self.progress_state
                != ProgressState::JustStarted),
    {
        self.next_derivation_id > 0 || self.full_summary.running_builds.len() > 0
            || self.full_summary.planned_builds.len() > 0 || self.progress_state
            != ProgressState::JustStarted
    }

    /// Whether nix reported an error or a build failed.
    pub fn has_errors(&self) -> (r: bool)
        ensures
            r == (self.nix_errors@.len() > 0 || self.full_summary@.failed_builds.len() > 0),
    {
        self.nix_errors.len() > 0 || self.full_summary.failed_builds.len() > 0
    }

    /// The number of builds planned, running, done and failed.
    pub fn total_builds(&self) -> (r: usize)
        requires
            self.full_summary@.planned_builds.len() + self.full_summary@.running_builds.len()
                + self.full_summary@.completed_builds.len() + self.full_summary@.failed_builds.len()
                <= usize::MAX,
        ensures
            r == self.full_summary@.planned_builds.len() + self.full_summary@.running_builds.len()
                + self.full_summary@.completed_builds.len() + self.full_summary@.failed_builds.len(),
    {
        self.full_summary.planned_builds.len() + self.full_summary.running_builds.len()
            + self.full_summary.completed_builds.len() + self.full_summary.failed_builds.len()
    }

    /// The running builds on `host`, each once, with their build information.
    pub fn running_builds_for_host(&self, host: &Host) -> (r: Vec<(DerivationId, BuildInfo)>)
        ensures
            r@.map_values(|e: (DerivationId, BuildInfo)| e.0).to_set() == running_on(
                self.full_summary@,
                host@,
            ),
            r@.map_values(|e: (DerivationId, BuildInfo)| e.0).no_duplicates(),
            forall|i: int|
                0 <= i < r@.len() ==> (#[trigger] r@[i]).1 == self.full_summary@.running_builds[r@[i].0],
    {
        let keys = map_keys(&self.full_summary.running_builds);
        let ghost rb = self.full_summary@.running_builds;
        let mut r: Vec<(DerivationId, BuildInfo)> = Vec::new();
        for i in 0..keys.len()
            invariant
                keys@.to_set() == rb.dom(),
                keys@.no_duplicates(),
                rb == self.full_summary@.running_builds,
                r@.map_values(|e: (DerivationId, BuildInfo)| e.0).to_set() == keys@.take(
                    i as int,
                ).to_set().filter(|k: usize| rb[k].host@ == host@),
                r@.map_values(|e: (DerivationId, BuildInfo)| e.0).no_duplicates(),
                forall|j: int| 0 <= j < r@.len() ==> (#[trigger] r@[j]).1 == rb[r@[j].0],
        {
            let k = keys[i];
            assert(keys@.to_set().contains(k));
            let ghost ids = r@.map_values(|e: (DerivationId, BuildInfo)| e.0);
            assert(keys@.take(i + 1) =~= keys@.take(i as int).push(k));
            proof {
                keys@.take(i as int).lemma_push_to_set_commute(k);
            }
            assert(!keys@.take(i as int).contains(k)) by {
                if keys@.take(i as int).contains(k) {
                    let j = choose|j: int| 0 <= j < i && keys@.take(i as int)[j] == k;
                    assert(keys@[j] == keys@[i as int]);
                }
            }
            match self.full_summary.running_builds.get(&k) {
                Some(info) => {
                    if info.host.same(host) {
                        let ghost before_r = r@;
                        assert(!ids.contains(k)) by {
                            if ids.contains(k) {
                                assert(ids.to_set().contains(k));
                                assert(keys@.take(i as int).to_set().contains(k));
                            }
                        }
                        let d = info.duplicate();
                        assert(*info == rb[k]);
                        r.push((k, d));
                        proof {
                            assert(r@.map_values(|e: (DerivationId, BuildInfo)| e.0) =~= ids.push(k));
                            ids.lemma_push_to_set_commute(k);
                            assert forall|j: int| 0 <= j < r@.len() implies (#[trigger] r@[j]).1
                                == rb[r@[j].0] by {
                                if j < before_r.len() {
                                    assert(r@[j] == before_r[j]);
                                }
                            }
                        }
                    }
                },
                None => {},
            }
            assert(r@.map_values(|e: (DerivationId, BuildInfo)| e.0).to_set() =~= keys@.take(
                i + 1,
            ).to_set().filter(|k: usize| rb[k].host@ == host@));
        }
        assert(keys@.take(keys@.len() as int) =~= keys@);
        assert(keys@.to_set().filter(|k: usize| rb[k].host@ == host@) =~= running_on(
            self.full_summary@,
            host@,
        ));
        r
    }

    /// Derivation `id` is known to be for another platform than the build's.
    pub open spec fn platform_mismatch(&self, id: int) -> bool {
        &&& 0 <= id < self.drvs().len()
        &&& self.build_platform is Some
        &&& self.drvs()[id].platform is Some
        &&& self.build_platform.unwrap()@ != self.drvs()[id].platform.unwrap()@
    }

    /// Whether derivation `id` is for another platform than the build's.
    pub fn has_platform_mismatch(&self, id: DerivationId) -> (r: bool)
        requires
            self.wf(),
        ensures
            r == self.platform_mismatch(id as int),
    {
        if let (Some(build_platform), Some(info)) = (&self.build_platform, self.get_derivation_info(id)) {
            if let Some(drv_platform) = &info.platform {
                return !str_eq(build_platform.as_str(), drv_platform.as_str());
            }
        }
        false
    }

    /// The derivations for another platform than the build's, by identifier.
    pub fn platform_mismatches(&self) -> (r: Vec<DerivationId>)
        requires
            self.wf(),
        ensures
            forall|x: DerivationId| r@.contains(x) <==> self.platform_mismatch(x as int),
            forall|i: int, j: int| 0 <= i < j < r@.len() ==> r@[i] < r@[j],
    {
        let mut r: Vec<DerivationId> = Vec::new();
        let n = self.next_derivation_id;
        for id in 0..n
            invariant
                self.wf(),
                n == self.drvs().len(),
                forall|x: DerivationId| r@.contains(x) <==> (x < id && self.platform_mismatch(x as int)),
                forall|i: int, j: int| 0 <= i < j < r@.len() ==> r@[i] < r@[j],
                forall|i: int| 0 <= i < r@.len() ==> r@[i] < id,
        {
            let ghost before_r = r@;
            if self.has_platform_mismatch(id) {
                r.push(id);
                assert(r@ == before_r.push(id));
            }
            assert forall|x: DerivationId| r@.contains(x) <==> (x < id + 1 && self.platform_mismatch(
                x as int,
            )) by {
                if r@.contains(x) {
                    let k = choose|k: int| 0 <= k < r@.len() && r@[k] == x;
                    if k < before_r.len() {
                        assert(before_r[k] == x);
                        assert(before_r.contains(x));
                    }
                }
                if x < id + 1 && self.platform_mismatch(x as int) {
                    if x == id {
                        assert(r@[r@.len() - 1] == id);
                    } else {
                        assert(before_r.contains(x));
                        let k = choose|k: int| 0 <= k < before_r.len() && before_r[k] == x;
                        assert(r@[k] == x);
                    }
                }
            }
        }
        r
    }
    /// Takes out the information of derivation `id`, leaving fresh information
    /// with the same name in its place.
    fn take_derivation_info(&mut self, id: DerivationId) -> (r: DerivationInfo)
        requires
            old(self).wf(),
            id < old(self).drvs().len(),
        ensures
            final(self).wf(),
            r == old(self).drvs()[id as int],
            final(self).drvs() == old(self).drvs().update(id as int, final(self).drvs()[id as int]),
            final(self).drvs()[id as int].name == old(self).drvs()[id as int].name,
            final(self).paths() == old(self).paths(),
            *final(self) == (State { derivation_infos: final(self).derivation_infos, ..*old(self) }),
    {
        proof {
            lemma_dense_key_index(derivation_entries(self.derivation_infos), id);
        }
        let name = match drv_table_get(&self.derivation_infos, id) {
            Some(info) => info.name.copy(),
            None => Derivation { path: String::new(), name: String::new() },
        };
        self.replace_derivation_info(id, DerivationInfo::fresh(name))
    }

    /// Puts back the information of derivation `id`, under the same name.
    fn put_derivation_info(&mut self, id: DerivationId, info: DerivationInfo)
        requires
            old(self).wf(),
            id < old(self).drvs().len(),
            info.name == old(self).drvs()[id as int].name,
        ensures
            final(self).wf(),
            final(self).drvs() == old(self).drvs().update(id as int, info),
            final(self).paths() == old(self).paths(),
            *final(self) == (State { derivation_infos: final(self).derivation_infos, ..*old(self) }),
    {
        let _ = self.replace_derivation_info(id, info);
    }

    /// Removes derivation `id` from the roots of the forest.
    pub fn remove_forest_root(&mut self, id: DerivationId)
        ensures
            final(self).forest_roots@ == old(self).forest_roots@.filter(other_than(id)),
            *final(self) == (State { forest_roots: final(self).forest_roots, ..*old(self) }),
    {
        let mut kept: Vec<DerivationId> = Vec::new();
        let n = self.forest_roots.len();
        for i in 0..n
            invariant
                n == self.forest_roots@.len(),
                *self == *old(self),
                kept@ == self.forest_roots@.take(i as int).filter(other_than(id)),
        {
            let x = self.forest_roots[i];
            proof {
                reveal(Seq::filter);
                assert(self.forest_roots@.take(i + 1).drop_last() =~= self.forest_roots@.take(i as int));
            }
            if x != id {
                kept.push(x);
            }
        }
        assert(self.forest_roots@.take(n as int) =~= self.forest_roots@);
        self.forest_roots = kept;
    }

    /// Adds derivation `id` to the roots of the forest unless it is there.
    pub fn add_forest_root(&mut self, id: DerivationId)
        ensures
            final(self).forest_roots@ == (if old(self).forest_roots@.contains(id) {
                old(self).forest_roots@
            } else {
                old(self).forest_roots@.push(id)
            }),
            *final(self) == (State { forest_roots: final(self).forest_roots, ..*old(self) }),
    {
        let mut i: usize = 0;
        while i < self.forest_roots.len()
            invariant
                i <= self.forest_roots@.len(),
                *self == *old(self),
                forall|j: int| 0 <= j < i ==> self.forest_roots@[j] != id,
            decreases self.forest_roots@.len() - i,
        {
            if self.forest_roots[i] == id {
                return;
            }
            i += 1;
        }
        self.forest_roots.push(id);
    }

    /// Records derivation `child` as an input of derivation `parent`, with the
    /// given outputs unless it is already an input; `parent` becomes a parent
    /// of `child`, and `child` is no longer a root.
    pub fn link_input(&mut self, parent: DerivationId, child: DerivationId, outputs: Vec<OutputName>)
        requires
            old(self).wf(),
        ensures
            final(self).wf(),
            final(self).drv_names() == old(self).drv_names(),
            final(self).drvs().len() == old(self).drvs().len(),
            forall|j: int|
                0 <= j < old(self).drvs().len() ==> #[trigger] final(self).drvs()[j] == (
                DerivationInfo {
                    input_derivations: final(self).drvs()[j].input_derivations,
                    derivation_parents: final(self).drvs()[j].derivation_parents,
                    ..old(self).drvs()[j]
                }),
            forall|j: int|
                0 <= j < old(self).drvs().len() && j != parent && j != child
                    ==> #[trigger] final(self).drvs()[j] == old(self).drvs()[j],
            forall|j: int|
                0 <= j < old(self).drvs().len() && j != parent ==> (#[trigger] final(self).drvs()[j]).input_derivations@ == old(self).drvs()[j].input_derivations@,
            parent < old(self).drvs().len() && has_input(old(self).drvs()[parent as int], child)
                ==> final(self).drvs()[parent as int].input_derivations@ == old(self).drvs()[parent as int].input_derivations@,
            parent < old(self).drvs().len() && !has_input(old(self).drvs()[parent as int], child) ==> {
                &&& final(self).drvs()[parent as int].input_derivations@ == old(self).drvs()[parent as int].input_derivations@.push(
                    final(self).drvs()[parent as int].input_derivations@.last(),
                )
                &&& final(self).drvs()[parent as int].input_derivations@.last().derivation == child
                &&& final(self).drvs()[parent as int].input_derivations@.last().outputs@ == outputs@
            },
            forall|j: int|
                0 <= j < old(self).drvs().len() ==> (#[trigger] final(self).drvs()[j]).derivation_parents@ == (if j == child {
                    old(self).drvs()[j].derivation_parents@.insert(parent)
                } else {
                    old(self).drvs()[j].derivation_parents@
                }),
            final(self).forest_roots@ == old(self).forest_roots@.filter(
                other_than(child),
            ),
            final(self).summary_consistent() == old(self).summary_consistent(),
            *final(self) == (State {
                derivation_infos: final(self).derivation_infos,
                forest_roots: final(self).forest_roots,
                ..*old(self)
            }),
    {
        let ghost s0 = *self;
        if parent < self.next_derivation_id {
            let mut p = self.take_derivation_info(parent);
            if !has_input_exec(&p, child) {
                p.input_derivations.push(InputDerivation { derivation: child, outputs });
            }
            self.put_derivation_info(parent, p);
        }
        let ghost s1 = *self;
        if child < self.next_derivation_id {
            let mut c = self.take_derivation_info(child);
            c.derivation_parents.insert(parent);
            self.put_derivation_info(child, c);
        }
        self.remove_forest_root(child);
        proof {
            assert(self.drvs().len() == s0.drvs().len());
            assert(self.drv_names() =~= s0.drv_names());
            assert forall|j: int| 0 <= j < s0.drvs().len() implies #[trigger] self.drvs()[j] == (
            DerivationInfo {
                input_derivations: self.drvs()[j].input_derivations,
                derivation_parents: self.drvs()[j].derivation_parents,
                ..s0.drvs()[j]
            }) by {
                if j != parent && j != child {
                    assert(self.drvs()[j] == s0.drvs()[j]);
                }
            }
            assert forall|j: int|
                0 <= j < s0.drvs().len() && j != parent && j != child implies #[trigger] self.drvs()[j]
                == s0.drvs()[j] by {}
            assert forall|j: int| 0 <= j < self.drvs().len() implies (#[trigger] self.drvs()[j]).build_status
                == s0.drvs()[j].build_status by {
                assert(self.drvs()[j] == (DerivationInfo {
                    input_derivations: self.drvs()[j].input_derivations,
                    derivation_parents: self.drvs()[j].derivation_parents,
                    ..s0.drvs()[j]
                }));
            }
            assert(self.full_summary == s0.full_summary);
            if s0.summary_consistent() {
                assert forall|j: int| 0 <= j < self.drvs().len() implies summary_holds(
                    self.full_summary@,
                    j as usize,
                    #[trigger] self.drvs()[j].build_status,
                ) by {
                    assert(self.drvs()[j].build_status == s0.drvs()[j].build_status);
                    assert(summary_holds(s0.full_summary@, j as usize, s0.drvs()[j].build_status));
                }
                assert(self.summary_consistent());
            }
            if self.summary_consistent() {
                assert forall|j: int| 0 <= j < s0.drvs().len() implies summary_holds(
                    s0.full_summary@,
                    j as usize,
                    #[trigger] s0.drvs()[j].build_status,
                ) by {
                    assert(self.drvs()[j].build_status == s0.drvs()[j].build_status);
                    assert(summary_holds(self.full_summary@, j as usize, self.drvs()[j].build_status));
                }
                assert(s0.summary_consistent());
            }
        }
    }

    /// The path of the `.drv` file to read for derivation `id`: one that is
    /// known and has no inputs recorded yet.
    pub fn derivation_to_parse(&self, id: DerivationId) -> (r: Option<String>)
        requires
            self.wf(),
        ensures
            (r is Some) == (id < self.drvs().len() && self.drvs()[id as int].input_derivations@.len()
                == 0),
            r matches Some(p) ==> p@ == self.drvs()[id as int].name.path@,
    {
        match self.get_derivation_info(id) {
            Some(info) => {
                if info.input_derivations.len() == 0 {
                    Some(info.name.path.clone())
                } else {
                    None
                }
            },
            None => None,
        }
    }

    /// Records the package name (when there is one) and the platform read from
    /// derivation `id`'s file; tells whether `id` is building.
    pub fn record_derivation_metadata(
        &mut self,
        id: DerivationId,
        pname: Option<String>,
        platform: String,
    ) -> (building: bool)
        requires
            old(self).wf(),
        ensures
            final(self).wf(),
            final(self).drv_names() == old(self).drv_names(),
            id >= old(self).drvs().len() ==> *final(self) == *old(self) && !building,
            id < old(self).drvs().len() ==> {
                &&& building == (old(self).drvs()[id as int].build_status is Building)
                &&& final(self).drvs() == old(self).drvs().update(
                    id as int,
                    DerivationInfo {
                        pname: if pname is Some {
                            pname
                        } else {
                            old(self).drvs()[id as int].pname
                        },
                        platform: Some(platform),
                        ..old(self).drvs()[id as int]
                    },
                )
                &&& *final(self) == (State { derivation_infos: final(self).derivation_infos, ..*old(self) })
            },
            old(self).summary_consistent() ==> final(self).summary_consistent(),
    {
        if id >= self.next_derivation_id {
            return false;
        }
        let ghost s0 = *self;
        let mut info = self.take_derivation_info(id);
        if pname.is_some() {
            info.pname = pname;
        }
        info.platform = Some(platform);
        let building = match info.build_status {
            BuildStatus::Building(_) => true,
            _ => false,
        };
        self.put_derivation_info(id, info);
        proof {
            assert(self.drvs() =~= s0.drvs().update(id as int, info));
            assert(self.drv_names() =~= s0.drv_names());
            if s0.summary_consistent() {
                assert forall|j: int| 0 <= j < self.drvs().len() implies summary_holds(
                    self.full_summary@,
                    j as usize,
                    #[trigger] self.drvs()[j].build_status,
                ) by {
                    assert(self.drvs()[j].build_status == s0.drvs()[j].build_status);
                }
            }
        }
        building
    }

    /// Records input `input_path`, with its outputs, read from the file of
    /// derivation `id`.  The input gets an identifier, is planned when `id` is
    /// building and nothing is known of it yet, and is linked below `id`.
    /// Returns the input's identifier, so that its own file is read next, or
    /// nothing when `input_path` is no derivation path.
    pub fn add_input_derivation(
        &mut self,
        id: DerivationId,
        parent_is_building: bool,
        input_path: &str,
        outputs: &[String],
    ) -> (r: Option<DerivationId>)
        requires
            old(self).wf(),
            old(self).next_derivation_id < usize::MAX,
            id < old(self).drvs().len(),
        ensures
            final(self).wf(),
            derivation_name_of(input_path@) is None ==> r is None && *final(self) == *old(self),
            derivation_name_of(input_path@) matches Some(n) ==> {
                &&& r matches Some(c) && {
                    &&& c < final(self).drvs().len()
                    &&& final(self).drvs()[c as int].name.path@ == input_path@
                    &&& final(self).drvs()[c as int].name.name@ == n
                    &&& final(self).derivation_id_of(final(self).drvs()[c as int].name) == Some(c as int)
                    &&& if parent_is_building && (c >= old(self).drvs().len()
                        || old(self).drvs()[c as int].build_status is Unknown) {
                        final(self).drvs()[c as int].build_status is Planned
                    } else if c < old(self).drvs().len() {
                        final(self).drvs()[c as int].build_status == old(self).drvs()[c as int].build_status
                    } else {
                        final(self).drvs()[c as int].build_status is Unknown
                    }
                    &&& has_input(final(self).drvs()[id as int], c)
                    &&& !has_input(old(self).drvs()[id as int], c) ==> {
                        &&& final(self).drvs()[id as int].input_derivations@ == old(self).drvs()[id as int].input_derivations@.push(
                            final(self).drvs()[id as int].input_derivations@.last(),
                        )
                        &&& final(self).drvs()[id as int].input_derivations@.last().outputs@.map_values(
                            |o: OutputName| o@,
                        ).to_set() == output_views(outputs@)
                    }
                    &&& final(self).drvs()[c as int].derivation_parents@.contains(id)
                    &&& !final(self).forest_roots@.contains(c)
                    &&& final(self).drvs().len() == if c < old(self).drvs().len() {
                        old(self).drvs().len() as int
                    } else {
                        c + 1
                    }
                    &&& forall|j: int|
                        0 <= j < old(self).drvs().len() && j != id && j != c
                            ==> #[trigger] final(self).drvs()[j] == old(self).drvs()[j]
                    &&& final(self).paths() == old(self).paths()
                }
            },
            r matches Some(c) ==> forall|j: int|
                0 <= j < old(self).drvs().len() && j != c ==> (#[trigger] final(self).drvs()[j]).build_status
                    == old(self).drvs()[j].build_status,
            r matches Some(c) ==> c <= old(self).drvs().len(),
            walk_keeps(*old(self), *final(self), None),
            r matches Some(c) && has_input(old(self).drvs()[id as int], c)
                ==> final(self).drvs()[id as int].input_derivations@ == old(self).drvs()[id as int].input_derivations@,
            old(self).summary_consistent() ==> final(self).summary_consistent(),
    {
        let drv = match Derivation::parse(input_path) {
            Some(d) => d,
            None => {
                proof {
                    lemma_walk_keeps_refl(*self);
                }
                return None;
            },
        };
        let ghost s0 = *self;
        let ghost dv = drv;
        let child = self.get_or_create_derivation_id(drv);
        let ghost s1 = *self;
        proof {
            lemma_first_from_some(s1.drv_names(), is_drv(dv), 0);
            assert(is_drv(dv)(s1.drv_names()[child as int]));
            assert(s1.drv_names()[child as int] == s1.drvs()[child as int].name);
        }
        if parent_is_building {
            let unknown = match self.get_derivation_info(child) {
                Some(info) => match info.build_status {
                    BuildStatus::Unknown => true,
                    _ => false,
                },
                None => false,
            };
            if unknown {
                self.update_build_status(child, BuildStatus::Planned);
            }
        }
        let ghost s2 = *self;
        let outs = parse_outputs(outputs);
        proof {
            assert(s1.drvs()[id as int] == s0.drvs()[id as int]);
            assert(s2.drvs()[id as int].input_derivations == s0.drvs()[id as int].input_derivations);
        }
        self.link_input(id, child, outs);
        proof {
            assert(self.drvs()[child as int].name == s2.drvs()[child as int].name);
            assert(s2.drv_names()[child as int] == s1.drv_names()[child as int]);
            assert(s2.drv_names()[child as int] == s2.drvs()[child as int].name);
            assert(self.drv_names()[child as int] == self.drvs()[child as int].name);
            assert(self.drvs()[child as int].build_status == s2.drvs()[child as int].build_status);
            if !has_input(s2.drvs()[id as int], child) {
                let k = (self.drvs()[id as int].input_derivations@.len() - 1) as int;
                assert(self.drvs()[id as int].input_derivations@[k].derivation == child);
            } else {
                let k = choose|k: int|
                    0 <= k < s2.drvs()[id as int].input_derivations@.len()
                        && (#[trigger] s2.drvs()[id as int].input_derivations@[k]).derivation == child;
                assert(self.drvs()[id as int].input_derivations@[k].derivation == child);
            }
            assert(has_input(s0.drvs()[id as int], child) == has_input(s2.drvs()[id as int], child));
            if self.forest_roots@.contains(child) {
                let k = choose|k: int| 0 <= k < self.forest_roots@.len() && self.forest_roots@[k] == child;
                s2.forest_roots@.lemma_filter_pred(other_than(child), k);
            }
            assert(child < self.drvs().len());
            assert(self.drvs()[child as int].name.path@ == input_path@);
            assert(self.drvs()[child as int].name.name@ == derivation_name_of(input_path@).unwrap());
            assert(self.drv_names() == s1.drv_names());
            assert(is_drv(self.drvs()[child as int].name) =~= is_drv(dv));
            assert(self.derivation_id_of(self.drvs()[child as int].name) == Some(child as int));
            assert(has_input(self.drvs()[id as int], child));
            assert(self.drvs()[child as int].derivation_parents@.contains(id));
            assert(!self.forest_roots@.contains(child));
            assert forall|j: int|
                0 <= j < s0.drvs().len() && j != id && j != child implies #[trigger] self.drvs()[j]
                == s0.drvs()[j] by {
                assert(s1.drvs()[j] == s0.drvs()[j]);
                assert(s2.drvs()[j] == s1.drvs()[j]);
            }
        }
        proof {
            if s0.derivation_id_of(dv) is None {
                assert forall|j: int| 0 <= j < s0.drvs().len() implies #[trigger] s1.drvs()[j] == s0.drvs()[j] by {
                    assert(s1.drvs()[j] == s0.drvs().push(s1.drvs()[child as int])[j]);
                }
            }
            lemma_walk_keeps_prefix(s0, s1);
            lemma_walk_keeps_plan(s1, s2);
            lemma_walk_keeps_link(s2, *self, id, child);
            lemma_walk_keeps_trans(s0, s1, s2, None);
            lemma_walk_keeps_trans(s0, s2, *self, None);
        }
        Some(child)
    }

    /// Walks derivation `id` once its `.drv` file is read: records what the
    /// file gives and returns the inputs to walk next (see `walk_step`).
    pub fn populate_derivation_dependencies(&mut self, id: DerivationId, contents: &DrvContents) -> (children: Vec<DerivationId>)
        requires
            old(self).wf(),
            old(self).next_derivation_id + contents.inputs@.len() < usize::MAX,
        ensures
            walk_step(*old(self), id, *contents, *final(self), children@),
            old(self).summary_consistent() ==> final(self).summary_consistent(),
    {
        if self.derivation_to_parse(id).is_none() {
            return Vec::new();
        }
        let ghost s0 = *self;
        let pname = match &contents.pname {
            Some(p) => Some(p.clone()),
            None => None,
        };
        let building = self.record_derivation_metadata(id, pname, contents.platform.clone());
        let ghost s1 = *self;
        proof {
            assert forall|j: int| 0 <= j < s0.drvs().len() implies #[trigger] s1.drvs()[j] == (DerivationInfo {
                input_derivations: s1.drvs()[j].input_derivations,
                derivation_parents: s1.drvs()[j].derivation_parents,
                build_status: s1.drvs()[j].build_status,
                pname: if Some(id) == Some(j as DerivationId) {
                    s1.drvs()[j].pname
                } else {
                    s0.drvs()[j].pname
                },
                platform: if Some(id) == Some(j as DerivationId) {
                    s1.drvs()[j].platform
                } else {
                    s0.drvs()[j].platform
                },
                ..s0.drvs()[j]
            }) by {}
            assert forall|j: int, c: DerivationId|
                0 <= j < s0.drvs().len() && #[trigger] has_input(s0.drvs()[j], c) implies has_input(s1.drvs()[j], c) by {
                assert(s1.drvs()[j].input_derivations == s0.drvs()[j].input_derivations);
            }
            assert forall|j: int, q: DerivationId|
                0 <= j < s0.drvs().len() && #[trigger] s0.drvs()[j].derivation_parents@.contains(q) implies s1.drvs()[j].derivation_parents@.contains(q) by {
                assert(s1.drvs()[j].derivation_parents == s0.drvs()[j].derivation_parents);
            }
            assert(walk_keeps(s0, s1, Some(id)));
            assert(contents.inputs@.take(0) =~= Seq::<DrvInput>::empty());
        }
        let mut children: Vec<DerivationId> = Vec::new();
        let mut k: usize = 0;
        while k < contents.inputs.len()
            invariant
                self.wf(),
                s1.wf(),
                k <= contents.inputs@.len(),
                id < s0.drvs().len(),
                s1.drvs().len() == s0.drvs().len(),
                s0.next_derivation_id + contents.inputs@.len() < usize::MAX,
                s0.next_derivation_id == s0.drvs().len(),
                self.drvs().len() <= s0.drvs().len() + children@.len(),
                children@.len() <= k,
                building == (s0.drvs()[id as int].build_status is Building),
                s0.drvs()[id as int].input_derivations@.len() == 0,
                s1.drvs()[id as int].input_derivations@.len() == 0,
                walk_keeps(s1, *self, None),
                children@.len() == input_drv_paths(contents.inputs@.take(k as int)).len(),
                forall|m: int|
                    0 <= m < children@.len() ==> {
                        &&& #[trigger] children@[m] < self.drvs().len()
                        &&& self.drvs()[children@[m] as int].name.path@ == input_drv_paths(
                            contents.inputs@.take(k as int),
                        )[m]
                        &&& self.drvs()[children@[m] as int].derivation_parents@.contains(id)
                        &&& !self.forest_roots@.contains(children@[m])
                    },
                forall|x: DerivationId| #[trigger] has_input(self.drvs()[id as int], x) <==> children@.contains(x),
                distinct_inputs(self.drvs()[id as int]),
                forall|j: int|
                    0 <= j < self.drvs().len() ==> (#[trigger] self.drvs()[j]).build_status == walked_status(
                        s0,
                        j,
                        building,
                        children@,
                    ),
                forall|x: DerivationId| s0.drvs().len() <= x < self.drvs().len() ==> #[trigger] children@.contains(x),
                s0.summary_consistent() ==> self.summary_consistent(),
            decreases contents.inputs@.len() - k,
        {
            let input = &contents.inputs[k];
            let ghost prev = *self;
            let ghost before = children@;
            assert(self.next_derivation_id == self.drvs().len());
            let r = self.add_input_derivation(id, building, input.path.as_str(), input.outputs.as_slice());
            proof {
                lemma_walk_keeps_trans(s1, prev, *self, None);
                assert(contents.inputs@.take(k + 1).drop_last() =~= contents.inputs@.take(k as int));
                assert(contents.inputs@.take(k + 1).last() == contents.inputs@[k as int]);
            }
            match r {
                Some(c) => {
                    proof {
                        assert(derivation_name_of(input.path@) is Some);
                        assert(self.drvs().len() == if c < prev.drvs().len() {
                            prev.drvs().len() as int
                        } else {
                            c + 1
                        });
                    }
                    children.push(c);
                    proof {
                        assert(children@ =~= before.push(c));
                        assert forall|m: int| 0 <= m < children@.len() implies {
                            &&& #[trigger] children@[m] < self.drvs().len()
                            &&& self.drvs()[children@[m] as int].name.path@ == input_drv_paths(
                                contents.inputs@.take(k + 1),
                            )[m]
                            &&& self.drvs()[children@[m] as int].derivation_parents@.contains(id)
                            &&& !self.forest_roots@.contains(children@[m])
                        } by {
                            if m < before.len() {
                                let ch = before[m];
                                assert(prev.drvs()[ch as int].derivation_parents@.contains(id));
                                assert(self.drvs()[ch as int].name == prev.drvs()[ch as int].name);
                            }
                        }
                        assert(children@[before.len() as int] == c);
                        assert forall|x: DerivationId| #[trigger] has_input(self.drvs()[id as int], x) <==> children@.contains(x) by {
                            if has_input(self.drvs()[id as int], x) && x != c {
                                if has_input(prev.drvs()[id as int], c) {
                                    assert(self.drvs()[id as int].input_derivations@ == prev.drvs()[id as int].input_derivations@);
                                } else {
                                    let q = choose|q: int|
                                        0 <= q < self.drvs()[id as int].input_derivations@.len()
                                            && (#[trigger] self.drvs()[id as int].input_derivations@[q]).derivation == x;
                                    let n = prev.drvs()[id as int].input_derivations@.len() as int;
                                    if q == n {
                                        let w = choose|w: int|
                                            0 <= w < self.drvs()[id as int].input_derivations@.len()
                                                && (#[trigger] self.drvs()[id as int].input_derivations@[w]).derivation == c;
                                        if w < n {
                                            assert(prev.drvs()[id as int].input_derivations@[w].derivation == c);
                                        }
                                    } else {
                                        assert(prev.drvs()[id as int].input_derivations@[q].derivation == x);
                                    }
                                }
                                assert(has_input(prev.drvs()[id as int], x));
                                assert(before.contains(x));
                                let i = choose|i: int| 0 <= i < before.len() && before[i] == x;
                                assert(children@[i] == x);
                            }
                            if children@.contains(x) {
                                if x != c {
                                    let i = choose|i: int| 0 <= i < children@.len() && children@[i] == x;
                                    assert(before[i] == x);
                                    assert(has_input(prev.drvs()[id as int], x));
                                    assert(has_input(self.drvs()[id as int], x));
                                }
                            }
                        }
                        if !has_input(prev.drvs()[id as int], c) {
                            let n = prev.drvs()[id as int].input_derivations@.len() as int;
                            let w = choose|w: int|
                                0 <= w < self.drvs()[id as int].input_derivations@.len()
                                    && (#[trigger] self.drvs()[id as int].input_derivations@[w]).derivation == c;
                            if w < n {
                                assert(prev.drvs()[id as int].input_derivations@[w].derivation == c);
                            }
                            assert(self.drvs()[id as int].input_derivations@[n].derivation == c);
                            assert forall|a: int, b: int|
                                0 <= a < b < self.drvs()[id as int].input_derivations@.len() implies (#[trigger] self.drvs()[id as int].input_derivations@[a]).derivation
                                    != (#[trigger] self.drvs()[id as int].input_derivations@[b]).derivation by {
                                assert(self.drvs()[id as int].input_derivations@[a] == prev.drvs()[id as int].input_derivations@[a]);
                                if b < n {
                                    assert(self.drvs()[id as int].input_derivations@[b] == prev.drvs()[id as int].input_derivations@[b]);
                                }
                            }
                        }
                        assert forall|j: int| 0 <= j < self.drvs().len() implies (#[trigger] self.drvs()[j]).build_status
                            == walked_status(s0, j, building, children@) by {
                            if j != c {
                                assert(j < prev.drvs().len());
                                assert(prev.drvs()[j].build_status == walked_status(s0, j, building, before));
                                if children@.contains(j as DerivationId) {
                                    let i = choose|i: int| 0 <= i < children@.len() && children@[i] == j as DerivationId;
                                    assert(i < before.len());
                                    assert(before[i] == j as DerivationId);
                                }
                                if before.contains(j as DerivationId) {
                                    let i = choose|i: int| 0 <= i < before.len() && before[i] == j as DerivationId;
                                    assert(children@[i] == j as DerivationId);
                                }
                                assert(self.drvs()[j].build_status == prev.drvs()[j].build_status);
                            } else {
                                assert(children@.contains(c));
                                if c < prev.drvs().len() {
                                    assert(prev.drvs()[j].build_status == walked_status(s0, j, building, before));
                                    if c >= s0.drvs().len() {
                                        assert(before.contains(c));
                                    }
                                }
                            }
                        }
                        assert forall|j: DerivationId| s0.drvs().len() <= j < self.drvs().len() implies #[trigger] children@.contains(j) by {
                            if j < prev.drvs().len() {
                                assert(before.contains(j));
                                let i = choose|i: int| 0 <= i < before.len() && before[i] == j;
                                assert(children@[i] == j);
                            } else {
                                assert(j == c);
                                assert(children@[before.len() as int] == c);
                            }
                        }
                    }
                },
                None => {
                    proof {
                        assert(*self == prev);
                    }
                },
            }
            k += 1;
        }
        proof {
            assert(contents.inputs@.take(contents.inputs@.len() as int) =~= contents.inputs@);
            lemma_walk_keeps_trans(s0, s1, *self, Some(id));
        }
        children
    }
    /// Adds a state to store path `id` unless it holds one of that kind; an
    /// unknown identifier changes nothing.
    pub fn add_store_path_state(&mut self, id: StorePathId, s: StorePathState)
        requires
            old(self).wf(),
        ensures
            final(self).wf(),
            final(self).drvs() == old(self).drvs(),
            final(self).path_names() == old(self).path_names(),
            id >= old(self).paths().len() ==> *final(self) == *old(self),
            id < old(self).paths().len() ==> {
                &&& final(self).paths().len() == old(self).paths().len()
                &&& forall|j: int|
                    0 <= j < old(self).paths().len() && j != id ==> #[trigger] final(self).paths()[j]
                        == old(self).paths()[j]
                &&& final(self).paths()[id as int].states@ == with_state(
                    old(self).paths()[id as int].states@,
                    s,
                )
                &&& final(self).paths()[id as int] == (StorePathInfo {
                    states: final(self).paths()[id as int].states,
                    ..old(self).paths()[id as int]
                })
                &&& *final(self) == (State { store_path_infos: final(self).store_path_infos, ..*old(self) })
            },
    {
        if id >= self.next_store_path_id {
            return;
        }
        let ghost s0 = *self;
        let mut info = self.take_store_path_info(id);
        info.add_state(s);
        let _ = self.replace_store_path_info(id, info);
        proof {
            assert(self.paths() =~= s0.paths().update(id as int, info));
            assert(self.path_names() =~= s0.path_names());
        }
    }

    /// Replaces every state of store path `id` by the one given; an unknown
    /// identifier changes nothing.
    pub fn reset_store_path_state(&mut self, id: StorePathId, s: StorePathState)
        requires
            old(self).wf(),
        ensures
            final(self).wf(),
            final(self).drvs() == old(self).drvs(),
            final(self).path_names() == old(self).path_names(),
            id >= old(self).paths().len() ==> *final(self) == *old(self),
            id < old(self).paths().len() ==> {
                &&& final(self).paths().len() == old(self).paths().len()
                &&& forall|j: int|
                    0 <= j < old(self).paths().len() && j != id ==> #[trigger] final(self).paths()[j]
                        == old(self).paths()[j]
                &&& final(self).paths()[id as int].states@ == seq![s]
                &&& final(self).paths()[id as int] == (StorePathInfo {
                    states: final(self).paths()[id as int].states,
                    ..old(self).paths()[id as int]
                })
                &&& *final(self) == (State { store_path_infos: final(self).store_path_infos, ..*old(self) })
            },
    {
        if id >= self.next_store_path_id {
            return;
        }
        let ghost s0 = *self;
        let mut info = self.take_store_path_info(id);
        info.clear_states();
        info.add_state(s);
        assert(info.states@ =~= seq![s]);
        let _ = self.replace_store_path_info(id, info);
        proof {
            assert(self.paths() =~= s0.paths().update(id as int, info));
            assert(self.path_names() =~= s0.path_names());
        }
    }

    /// Removes from store path `id` its state of the given kind and adds the
    /// state given; an unknown identifier changes nothing.
    pub fn replace_store_path_state(&mut self, id: StorePathId, kind: u8, s: StorePathState)
        requires
            old(self).wf(),
        ensures
            final(self).wf(),
            final(self).drvs() == old(self).drvs(),
            final(self).path_names() == old(self).path_names(),
            id >= old(self).paths().len() ==> *final(self) == *old(self),
            id < old(self).paths().len() ==> {
                &&& final(self).paths().len() == old(self).paths().len()
                &&& forall|j: int|
                    0 <= j < old(self).paths().len() && j != id ==> #[trigger] final(self).paths()[j]
                        == old(self).paths()[j]
                &&& states_replaced(
                    old(self).paths()[id as int].states@,
                    final(self).paths()[id as int].states@,
                    kind,
                    s,
                )
                &&& final(self).paths()[id as int] == (StorePathInfo {
                    states: final(self).paths()[id as int].states,
                    ..old(self).paths()[id as int]
                })
                &&& *final(self) == (State { store_path_infos: final(self).store_path_infos, ..*old(self) })
            },
    {
        if id >= self.next_store_path_id {
            return;
        }
        let ghost s0 = *self;
        let mut info = self.take_store_path_info(id);
        info.remove_kind(kind);
        let ghost mid = info.states@;
        info.add_state(s);
        let _ = self.replace_store_path_info(id, info);
        proof {
            assert(states_replaced(s0.paths()[id as int].states@, info.states@, kind, s)) by {
                assert(mid_of(s0.paths()[id as int].states@, kind, mid));
            }
            assert(self.paths() =~= s0.paths().update(id as int, info));
            assert(self.path_names() =~= s0.path_names());
        }
    }

    /// Takes out the information of store path `id`, leaving no states and no
    /// links under the same name.
    fn take_store_path_info(&mut self, id: StorePathId) -> (r: StorePathInfo)
        requires
            old(self).wf(),
            id < old(self).paths().len(),
        ensures
            final(self).wf(),
            r == old(self).paths()[id as int],
            kinds_unique(r.states@),
            final(self).paths() == old(self).paths().update(id as int, final(self).paths()[id as int]),
            final(self).paths()[id as int].name == old(self).paths()[id as int].name,
            final(self).drvs() == old(self).drvs(),
            *final(self) == (State { store_path_infos: final(self).store_path_infos, ..*old(self) }),
    {
        proof {
            lemma_dense_key_index(store_path_entries(self.store_path_infos), id);
        }
        let name = match path_table_get(&self.store_path_infos, id) {
            Some(info) => info.name.copy(),
            None => StorePath { path: String::new(), hash: String::new(), name: String::new() },
        };
        self.replace_store_path_info(
            id,
            StorePathInfo { name, states: Vec::new(), producer: None, input_for: HashSet::new() },
        )
    }
}

/// The running builds on a host.
pub open spec fn running_on(v: SummaryView, host: HostView) -> Set<DerivationId> {
    v.running_builds.dom().filter(|k: DerivationId| v.running_builds[k].host@ == host)
}

/// Derivation `child` is among the inputs recorded for a derivation.
/// What recording inputs keeps of the derivations known before: all they
/// held but their inputs and parents, which are only added to, their status,
/// which changes only from unknown to planned, and, for the derivation
/// `except` when there is one, its package name and platform; no derivation
/// becomes a root, and the store paths stay as they were.
pub open spec fn walk_keeps(s0: State, s1: State, except: Option<DerivationId>) -> bool {
    &&& s0.drvs().len() <= s1.drvs().len()
    &&& forall|j: int|
        0 <= j < s0.drvs().len() ==> #[trigger] s1.drvs()[j] == (DerivationInfo {
            input_derivations: s1.drvs()[j].input_derivations,
            derivation_parents: s1.drvs()[j].derivation_parents,
            build_status: s1.drvs()[j].build_status,
            pname: if except == Some(j as DerivationId) {
                s1.drvs()[j].pname
            } else {
                s0.drvs()[j].pname
            },
            platform: if except == Some(j as DerivationId) {
                s1.drvs()[j].platform
            } else {
                s0.drvs()[j].platform
            },
            ..s0.drvs()[j]
        })
    &&& forall|j: int|
        0 <= j < s0.drvs().len() ==> (#[trigger] s1.drvs()[j]).build_status == s0.drvs()[j].build_status
            || (s0.drvs()[j].build_status is Unknown && s1.drvs()[j].build_status is Planned)
    &&& forall|j: int, c: DerivationId|
        0 <= j < s0.drvs().len() && #[trigger] has_input(s0.drvs()[j], c) ==> has_input(s1.drvs()[j], c)
    &&& forall|j: int, q: DerivationId|
        0 <= j < s0.drvs().len() && #[trigger] s0.drvs()[j].derivation_parents@.contains(q)
            ==> s1.drvs()[j].derivation_parents@.contains(q)
    &&& forall|x: DerivationId| #[trigger] s1.forest_roots@.contains(x) ==> s0.forest_roots@.contains(x)
    &&& s1.paths() == s0.paths()
}

/// A state whose known derivations and roots are unchanged keeps them.
pub proof fn lemma_walk_keeps_prefix(s0: State, s1: State)
    requires
        s0.drvs().len() <= s1.drvs().len(),
        forall|j: int| 0 <= j < s0.drvs().len() ==> #[trigger] s1.drvs()[j] == s0.drvs()[j],
        s1.forest_roots@ == s0.forest_roots@,
        s1.paths() == s0.paths(),
    ensures
        walk_keeps(s0, s1, None),
{
    assert forall|j: int, c: DerivationId|
        0 <= j < s0.drvs().len() && #[trigger] has_input(s0.drvs()[j], c) implies has_input(s1.drvs()[j], c) by {
        assert(s1.drvs()[j] == s0.drvs()[j]);
    }
    assert forall|j: int, q: DerivationId|
        0 <= j < s0.drvs().len() && #[trigger] s0.drvs()[j].derivation_parents@.contains(q) implies s1.drvs()[j].derivation_parents@.contains(q) by {
        assert(s1.drvs()[j] == s0.drvs()[j]);
    }
}

/// Every state keeps itself.
pub proof fn lemma_walk_keeps_refl(s: State)
    ensures
        walk_keeps(s, s, None),
{
    lemma_walk_keeps_prefix(s, s);
}

/// Planning unknown derivations keeps the others.
pub proof fn lemma_walk_keeps_plan(s0: State, s1: State)
    requires
        s0.drvs().len() == s1.drvs().len(),
        forall|j: int|
            0 <= j < s0.drvs().len() ==> #[trigger] s1.drvs()[j] == s0.drvs()[j] || (s0.drvs()[j].build_status is Unknown
                && s1.drvs()[j] == with_status(s0.drvs()[j], BuildStatus::Planned)),
        s1.forest_roots@ == s0.forest_roots@,
        s1.paths() == s0.paths(),
    ensures
        walk_keeps(s0, s1, None),
{
    assert forall|j: int, c: DerivationId|
        0 <= j < s0.drvs().len() && #[trigger] has_input(s0.drvs()[j], c) implies has_input(s1.drvs()[j], c) by {
        assert(s1.drvs()[j].input_derivations == s0.drvs()[j].input_derivations);
    }
    assert forall|j: int, q: DerivationId|
        0 <= j < s0.drvs().len() && #[trigger] s0.drvs()[j].derivation_parents@.contains(q) implies s1.drvs()[j].derivation_parents@.contains(q) by {
        assert(s1.drvs()[j].derivation_parents == s0.drvs()[j].derivation_parents);
    }
}

/// Linking an input keeps what was known.
pub proof fn lemma_walk_keeps_link(s0: State, s1: State, parent: DerivationId, child: DerivationId)
    requires
        s1.drvs().len() == s0.drvs().len(),
        forall|j: int|
            0 <= j < s0.drvs().len() ==> #[trigger] s1.drvs()[j] == (DerivationInfo {
                input_derivations: s1.drvs()[j].input_derivations,
                derivation_parents: s1.drvs()[j].derivation_parents,
                ..s0.drvs()[j]
            }),
        forall|j: int|
            0 <= j < s0.drvs().len() && j != parent ==> (#[trigger] s1.drvs()[j]).input_derivations@
                == s0.drvs()[j].input_derivations@,
        parent < s0.drvs().len() && has_input(s0.drvs()[parent as int], child)
            ==> s1.drvs()[parent as int].input_derivations@ == s0.drvs()[parent as int].input_derivations@,
        parent < s0.drvs().len() && !has_input(s0.drvs()[parent as int], child)
            ==> s1.drvs()[parent as int].input_derivations@ == s0.drvs()[parent as int].input_derivations@.push(
            s1.drvs()[parent as int].input_derivations@.last(),
        ),
        forall|j: int|
            0 <= j < s0.drvs().len() ==> (#[trigger] s1.drvs()[j]).derivation_parents@ == (if j == child {
                s0.drvs()[j].derivation_parents@.insert(parent)
            } else {
                s0.drvs()[j].derivation_parents@
            }),
        s1.forest_roots@ == s0.forest_roots@.filter(other_than(child)),
        s1.paths() == s0.paths(),
    ensures
        walk_keeps(s0, s1, None),
{
    assert forall|j: int, c: DerivationId|
        0 <= j < s0.drvs().len() && #[trigger] has_input(s0.drvs()[j], c) implies has_input(s1.drvs()[j], c) by {
        let k = choose|k: int|
            0 <= k < s0.drvs()[j].input_derivations@.len() && (#[trigger] s0.drvs()[j].input_derivations@[k]).derivation == c;
        if j == parent && !has_input(s0.drvs()[parent as int], child) {
            assert(s1.drvs()[j].input_derivations@[k] == s0.drvs()[j].input_derivations@[k]);
        } else {
            assert(s1.drvs()[j].input_derivations@ == s0.drvs()[j].input_derivations@);
        }
        assert(s1.drvs()[j].input_derivations@[k].derivation == c);
    }
    assert forall|j: int, q: DerivationId|
        0 <= j < s0.drvs().len() && #[trigger] s0.drvs()[j].derivation_parents@.contains(q) implies s1.drvs()[j].derivation_parents@.contains(q) by {
        assert(s1.drvs()[j].derivation_parents@ == (if j == child {
            s0.drvs()[j].derivation_parents@.insert(parent)
        } else {
            s0.drvs()[j].derivation_parents@
        }));
    }
    assert forall|x: DerivationId| #[trigger] s1.forest_roots@.contains(x) implies s0.forest_roots@.contains(x) by {
        s0.forest_roots@.lemma_filter_contains_rev(other_than(child), x);
    }
}

/// The paths among `inputs` that name derivations, in order.
pub open spec fn input_drv_paths(inputs: Seq<DrvInput>) -> Seq<Seq<char>>
    decreases inputs.len(),
{
    if inputs.len() == 0 {
        Seq::empty()
    } else {
        let rest = input_drv_paths(inputs.drop_last());
        if derivation_name_of(inputs.last().path@) is Some {
            rest.push(inputs.last().path@)
        } else {
            rest
        }
    }
}

/// Derivation `id` needs no walk: it is unknown, or its inputs are recorded
/// already (which is what stops the walk around a cycle).
pub open spec fn walked(s: State, id: DerivationId) -> bool {
    id >= s.drvs().len() || s.drvs()[id as int].input_derivations@.len() > 0
}

/// The status a walk leaves derivation `j` with: an input that was unknown is
/// planned when the walked derivation is building, a new input is planned
/// then and unknown otherwise, and the rest keep theirs.
pub open spec fn walked_status(s0: State, j: int, building: bool, children: Seq<DerivationId>) -> BuildStatus {
    if j < s0.drvs().len() {
        if building && children.contains(j as DerivationId) && s0.drvs()[j].build_status is Unknown {
            BuildStatus::Planned
        } else {
            s0.drvs()[j].build_status
        }
    } else if building {
        BuildStatus::Planned
    } else {
        BuildStatus::Unknown
    }
}

/// One step of the walk over `.drv` files: from state `s0`, with the contents
/// `c` of derivation `id`'s file, to state `s1` and the inputs to walk next.
/// A derivation walked already (or unknown) changes nothing and has nothing
/// to walk.  Otherwise its package name and platform are recorded, and each
/// input that is a derivation gets an identifier, is recorded as an input of
/// `id` with `id` as its parent, is no root, and is walked next, in order.
pub open spec fn walk_step(s0: State, id: DerivationId, c: DrvContents, s1: State, children: Seq<DerivationId>) -> bool {
    if walked(s0, id) {
        s1 == s0 && children.len() == 0
    } else {
        let paths = input_drv_paths(c.inputs@);
        let building = s0.drvs()[id as int].build_status is Building;
        &&& s1.wf()
        &&& walk_keeps(s0, s1, Some(id))
        &&& s1.drvs()[id as int].pname == (if c.pname is Some {
            c.pname
        } else {
            s0.drvs()[id as int].pname
        })
        &&& s1.drvs()[id as int].platform == Some(c.platform)
        &&& children.len() == paths.len()
        &&& forall|k: int|
            0 <= k < children.len() ==> {
                &&& #[trigger] children[k] < s1.drvs().len()
                &&& s1.drvs()[children[k] as int].name.path@ == paths[k]
                &&& s1.drvs()[children[k] as int].derivation_parents@.contains(id)
                &&& !s1.forest_roots@.contains(children[k])
            }
        &&& forall|x: DerivationId| #[trigger] has_input(s1.drvs()[id as int], x) <==> children.contains(x)
        &&& distinct_inputs(s1.drvs()[id as int])
        &&& forall|j: int|
            0 <= j < s1.drvs().len() ==> (#[trigger] s1.drvs()[j]).build_status == walked_status(
                s0,
                j,
                building,
                children,
            )
        &&& forall|x: DerivationId| s0.drvs().len() <= x < s1.drvs().len() ==> #[trigger] children.contains(x)
    }
}

/// The walk over `.drv` files ends on cyclic graphs too: once the walk of a
/// derivation has found inputs, walking it again changes nothing and finds
/// nothing more to walk.
pub proof fn law_walk_once(
    s0: State,
    id: DerivationId,
    c1: DrvContents,
    s1: State,
    ch1: Seq<DerivationId>,
    c2: DrvContents,
    s2: State,
    ch2: Seq<DerivationId>,
)
    requires
        walk_step(s0, id, c1, s1, ch1),
        ch1.len() > 0,
        walk_step(s1, id, c2, s2, ch2),
    ensures
        s2 == s1,
        ch2.len() == 0,
{
    assert(!walked(s0, id));
    assert(ch1.contains(ch1[0]));
    assert(has_input(s1.drvs()[id as int], ch1[0]));
    assert(walked(s1, id));
}

/// No derivation is recorded twice among the inputs of `info`.
pub open spec fn distinct_inputs(info: DerivationInfo) -> bool {
    forall|a: int, b: int|
        0 <= a < b < info.input_derivations@.len() ==> (#[trigger] info.input_derivations@[a]).derivation
            != (#[trigger] info.input_derivations@[b]).derivation
}

/// Keeping is transitive.
pub proof fn lemma_walk_keeps_trans(a: State, b: State, c: State, e: Option<DerivationId>)
    requires
        walk_keeps(a, b, e),
        walk_keeps(b, c, None),
    ensures
        walk_keeps(a, c, e),
{
    assert forall|j: int| 0 <= j < a.drvs().len() implies #[trigger] c.drvs()[j] == (DerivationInfo {
        input_derivations: c.drvs()[j].input_derivations,
        derivation_parents: c.drvs()[j].derivation_parents,
        build_status: c.drvs()[j].build_status,
        pname: if e == Some(j as DerivationId) {
            c.drvs()[j].pname
        } else {
            a.drvs()[j].pname
        },
        platform: if e == Some(j as DerivationId) {
            c.drvs()[j].platform
        } else {
            a.drvs()[j].platform
        },
        ..a.drvs()[j]
    }) by {
        assert(b.drvs()[j] == (DerivationInfo {
            input_derivations: b.drvs()[j].input_derivations,
            derivation_parents: b.drvs()[j].derivation_parents,
            build_status: b.drvs()[j].build_status,
            pname: if e == Some(j as DerivationId) {
                b.drvs()[j].pname
            } else {
                a.drvs()[j].pname
            },
            platform: if e == Some(j as DerivationId) {
                b.drvs()[j].platform
            } else {
                a.drvs()[j].platform
            },
            ..a.drvs()[j]
        }));
    }
    assert forall|j: int| 0 <= j < a.drvs().len() implies (#[trigger] c.drvs()[j]).build_status
        == a.drvs()[j].build_status || (a.drvs()[j].build_status is Unknown
        && c.drvs()[j].build_status is Planned) by {
        assert(b.drvs()[j].build_status == a.drvs()[j].build_status || (a.drvs()[j].build_status is Unknown
            && b.drvs()[j].build_status is Planned));
    }
    assert forall|j: int, x: DerivationId|
        0 <= j < a.drvs().len() && #[trigger] has_input(a.drvs()[j], x) implies has_input(c.drvs()[j], x) by {
        assert(has_input(b.drvs()[j], x));
    }
    assert forall|j: int, q: DerivationId|
        0 <= j < a.drvs().len() && #[trigger] a.drvs()[j].derivation_parents@.contains(q) implies c.drvs()[j].derivation_parents@.contains(q) by {
        assert(b.drvs()[j].derivation_parents@.contains(q));
    }
}

pub open spec fn has_input(info: DerivationInfo, child: DerivationId) -> bool {
    exists|k: int|
        0 <= k < info.input_derivations@.len() && (#[trigger] info.input_derivations@[k]).derivation
            == child
}

/// Whether derivation `child` is among the inputs recorded for a derivation.
fn has_input_exec(info: &DerivationInfo, child: DerivationId) -> (r: bool)
    ensures
        r == has_input(*info, child),
{
    let mut k: usize = 0;
    while k < info.input_derivations.len()
        invariant
            k <= info.input_derivations@.len(),
            forall|j: int| 0 <= j < k ==> (#[trigger] info.input_derivations@[j]).derivation != child,
        decreases info.input_derivations@.len() - k,
    {
        if info.input_derivations[k].derivation == child {
            return true;
        }
        k += 1;
    }
    false
}

/// The outputs named by a list of output names, as parsed.
pub open spec fn output_views(outputs: Seq<String>) -> Set<OutputNameView> {
    Set::new(
        |v: OutputNameView|
            exists|k: int|
                0 <= k < outputs.len() && v == output_name_of(
                    lowercase(#[trigger] outputs[k]@),
                    outputs[k]@,
                ),
    )
}

/// Parses a list of output names, keeping each output once.
pub fn parse_outputs(outputs: &[String]) -> (r: Vec<OutputName>)
    ensures
        r@.map_values(|o: OutputName| o@).to_set() == output_views(outputs@),
        r@.map_values(|o: OutputName| o@).no_duplicates(),
{
    let mut r: Vec<OutputName> = Vec::new();
    for i in 0..outputs.len()
        invariant
            r@.map_values(|o: OutputName| o@).to_set() == output_views(outputs@.take(i as int)),
            r@.map_values(|o: OutputName| o@).no_duplicates(),
    {
        let o = OutputName::parse(outputs[i].as_str());
        let ghost vs = r@.map_values(|o: OutputName| o@);
        let mut found = false;
        let mut j: usize = 0;
        while j < r.len()
            invariant
                j <= r@.len(),
                vs == r@.map_values(|o: OutputName| o@),
                found == (exists|t: int| 0 <= t < j && vs[t] == o@),
            decreases r@.len() - j,
        {
            let same = r[j].same(&o);
            assert(vs[j as int] == r@[j as int]@);
            if same {
                found = true;
            }
            j += 1;
        }
        assert(outputs@.take(i + 1) =~= outputs@.take(i as int).push(outputs@[i as int]));
        assert(output_views(outputs@.take(i + 1)) =~= output_views(outputs@.take(i as int)).insert(o@)) by {
            assert(outputs@.take(i + 1)[i as int] == outputs@[i as int]);
            assert forall|v: OutputNameView| output_views(outputs@.take(i + 1)).contains(v) implies output_views(
                outputs@.take(i as int),
            ).insert(o@).contains(v) by {
                let k = choose|k: int|
                    0 <= k < outputs@.take(i + 1).len() && v == output_name_of(
                        lowercase(#[trigger] outputs@.take(i + 1)[k]@),
                        outputs@.take(i + 1)[k]@,
                    );
                if k < i {
                    assert(outputs@.take(i as int)[k] == outputs@.take(i + 1)[k]);
                }
            }
            assert forall|v: OutputNameView| output_views(outputs@.take(i as int)).insert(o@).contains(v) implies output_views(
                outputs@.take(i + 1),
            ).contains(v) by {
                if v != o@ {
                    let k = choose|k: int|
                        0 <= k < outputs@.take(i as int).len() && v == output_name_of(
                            lowercase(#[trigger] outputs@.take(i as int)[k]@),
                            outputs@.take(i as int)[k]@,
                        );
                    assert(outputs@.take(i as int)[k] == outputs@.take(i + 1)[k]);
                }
            }
        }
        if found {
            assert(vs.to_set().contains(o@)) by {
                let t = choose|t: int| 0 <= t < vs.len() && vs[t] == o@;
                assert(vs.contains(o@));
            }
            assert(vs.to_set().insert(o@) =~= vs.to_set());
        } else {
            r.push(o);
            assert(r@.map_values(|o: OutputName| o@) =~= vs.push(o@));
            proof {
                vs.lemma_push_to_set_commute(o@);
                assert(!vs.contains(o@));
            }
        }
    }
    assert(outputs@.take(outputs@.len() as int) =~= outputs@);
    r
}

/// The states of a store path after adding `s`: unchanged when a state of its
/// kind is there, else `s` is added last.
pub open spec fn with_state(v: Seq<StorePathState>, s: StorePathState) -> Seq<StorePathState> {
    if exists|i: int| 0 <= i < v.len() && state_kind(v[i]) == state_kind(s) {
        v
    } else {
        v.push(s)
    }
}

/// `mid` holds the states of `v` but the one of the given kind.
pub open spec fn mid_of(v: Seq<StorePathState>, kind: u8, mid: Seq<StorePathState>) -> bool {
    &&& forall|x: StorePathState| mid.contains(x) <==> (v.contains(x) && state_kind(x) != kind)
    &&& kinds_unique(mid)
}

/// The states `after` are those of `before` without the one of the given kind,
/// with `s` added.
pub open spec fn states_replaced(
    before: Seq<StorePathState>,
    after: Seq<StorePathState>,
    kind: u8,
    s: StorePathState,
) -> bool {
    exists|mid: Seq<StorePathState>| #[trigger] mid_of(before, kind, mid) && after == with_state(mid, s)
}

/// Well-formedness rests on the tables, the next identifiers and the build
/// history alone.
pub proof fn lemma_wf_frame(a: &State, b: &State)
    requires
        a.wf(),
        a.derivation_infos == b.derivation_infos,
        a.store_path_infos == b.store_path_infos,
        a.next_derivation_id == b.next_derivation_id,
        a.next_store_path_id == b.next_store_path_id,
        a.build_reports == b.build_reports,
    ensures
        b.wf(),
        b.drvs() == a.drvs(),
        b.paths() == a.paths(),
{
    assert(b.drvs() == a.drvs());
    assert(b.paths() == a.paths());
}

impl Duplicate for ActivityStatus {
    fn duplicate(&self) -> (r: Self) {
        ActivityStatus {
            activity: self.activity,
            text: self.text.clone(),
            parent: self.parent,
            phase: match &self.phase {
                Some(p) => Some(p.clone()),
                None => None,
            },
            progress: self.progress,
        }
    }
}

} // verus!
