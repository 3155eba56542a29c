//! Build records and the dependency summary: which derivations are planned,
//! running, built or failed, and which store paths are being or have been
//! transferred.
use vstd::prelude::*;
use std::collections::{HashMap, HashSet};
use crate::nix::Host;

verus! {

broadcast use vstd::std_specs::hash::group_hash_axioms;

/// Identifier of a store path in a monitor state.
pub type StorePathId = usize;

/// Identifier of a derivation in a monitor state.
pub type DerivationId = usize;

/// Identifier of a nix activity.
pub type ActivityId = u64;

/// Values that can be duplicated exactly.
pub trait Duplicate: Sized {
    fn duplicate(&self) -> (r: Self)
        ensures
            r == *self,
    ;
}

impl Duplicate for Host {
    fn duplicate(&self) -> (r: Self) {
        match self {
            Host::Localhost => Host::Localhost,
            Host::Remote(s) => Host::Remote(s.clone()),
        }
    }
}

impl Duplicate for String {
    fn duplicate(&self) -> (r: Self) {
        self.clone()
    }
}

/// A transfer (download or upload) in progress.  Times are milliseconds since
/// 1970-01-01 UTC.
#[derive(Debug, Clone)]
pub struct TransferInfo {
    pub start: u64,
    pub host: Host,
    pub activity_id: ActivityId,
    pub bytes_transferred: u64,
    pub total_bytes: Option<u64>,
}

/// A finished transfer.
#[derive(Debug, Clone)]
pub struct CompletedTransferInfo {
    pub start: u64,
    pub end: u64,
    pub host: Host,
    pub total_bytes: u64,
}

/// A build in progress.
#[derive(Debug, Clone)]
pub struct BuildInfo {
    pub start: u64,
    pub host: Host,
    pub estimate: Option<u64>,
    pub activity_id: Option<ActivityId>,
}

/// Why a build failed.
#[derive(Debug, Clone, Copy, PartialEq, Eq, Structural)]
pub enum FailType {
    BuildFailed(i32),
    Timeout,
    HashMismatch,
    DependencyFailed,
    Unknown,
}

/// When and how a build failed.
#[derive(Debug, Clone)]
pub struct BuildFail {
    pub at: u64,
    pub fail_type: FailType,
}

/// Status of a derivation's build.
#[derive(Debug, Clone)]
pub enum BuildStatus {
    Unknown,
    Planned,
    Building(BuildInfo),
    Built { info: BuildInfo, end: u64 },
    Failed { info: BuildInfo, fail: BuildFail },
}

/// A finished build.
#[derive(Debug, Clone)]
pub struct CompletedBuildInfo {
    pub start: u64,
    pub end: u64,
    pub host: Host,
}

/// A failed build.
#[derive(Debug, Clone)]
pub struct FailedBuildInfo {
    pub start: u64,
    pub end: u64,
    pub host: Host,
    pub fail_type: FailType,
}

impl Duplicate for TransferInfo {
    fn duplicate(&self) -> (r: Self) {
        TransferInfo {
            start: self.start,
            host: self.host.duplicate(),
            activity_id: self.activity_id,
            bytes_transferred: self.bytes_transferred,
            total_bytes: self.total_bytes,
        }
    }
}

impl Duplicate for CompletedTransferInfo {
    fn duplicate(&self) -> (r: Self) {
        CompletedTransferInfo {
            start: self.start,
            end: self.end,
            host: self.host.duplicate(),
            total_bytes: self.total_bytes,
        }
    }
}

impl Duplicate for BuildInfo {
    fn duplicate(&self) -> (r: Self) {
        BuildInfo {
            start: self.start,
            host: self.host.duplicate(),
            estimate: self.estimate,
            activity_id: self.activity_id,
        }
    }
}

impl Duplicate for BuildFail {
    fn duplicate(&self) -> (r: Self) {
        BuildFail { at: self.at, fail_type: self.fail_type }
    }
}

impl Duplicate for BuildStatus {
    fn duplicate(&self) -> (r: Self) {
        match self {
            BuildStatus::Unknown => BuildStatus::Unknown,
            BuildStatus::Planned => BuildStatus::Planned,
            BuildStatus::Building(info) => BuildStatus::Building(info.duplicate()),
            BuildStatus::Built { info, end } => BuildStatus::Built { info: info.duplicate(), end: *end },
            BuildStatus::Failed { info, fail } => BuildStatus::Failed {
                info: info.duplicate(),
                fail: fail.duplicate(),
            },
        }
    }
}

impl Duplicate for CompletedBuildInfo {
    fn duplicate(&self) -> (r: Self) {
        CompletedBuildInfo { start: self.start, end: self.end, host: self.host.duplicate() }
    }
}

impl Duplicate for FailedBuildInfo {
    fn duplicate(&self) -> (r: Self) {
        FailedBuildInfo {
            start: self.start,
            end: self.end,
            host: self.host.duplicate(),
            fail_type: self.fail_type,
        }
    }
}

/// Dependency summary for tracking build progress.
#[derive(Debug)]
pub struct DependencySummary {
    pub planned_builds: HashSet<DerivationId>,
    pub running_builds: HashMap<DerivationId, BuildInfo>,
    pub completed_builds: HashMap<DerivationId, CompletedBuildInfo>,
    pub failed_builds: HashMap<DerivationId, FailedBuildInfo>,
    pub planned_downloads: HashSet<StorePathId>,
    pub completed_downloads: HashMap<StorePathId, CompletedTransferInfo>,
    pub completed_uploads: HashMap<StorePathId, CompletedTransferInfo>,
    pub running_downloads: HashMap<StorePathId, TransferInfo>,
    pub running_uploads: HashMap<StorePathId, TransferInfo>,
}

/// Mathematical model of a dependency summary.
pub struct SummaryView {
    pub planned_builds: Set<DerivationId>,
    pub running_builds: Map<DerivationId, BuildInfo>,
    pub completed_builds: Map<DerivationId, CompletedBuildInfo>,
    pub failed_builds: Map<DerivationId, FailedBuildInfo>,
    pub planned_downloads: Set<StorePathId>,
    pub completed_downloads: Map<StorePathId, CompletedTransferInfo>,
    pub completed_uploads: Map<StorePathId, CompletedTransferInfo>,
    pub running_downloads: Map<StorePathId, TransferInfo>,
    pub running_uploads: Map<StorePathId, TransferInfo>,
}

impl View for DependencySummary {
    type V = SummaryView;

    open spec fn view(&self) -> SummaryView {
        SummaryView {
            planned_builds: self.planned_builds@,
            running_builds: self.running_builds@,
            completed_builds: self.completed_builds@,
            failed_builds: self.failed_builds@,
            planned_downloads: self.planned_downloads@,
            completed_downloads: self.completed_downloads@,
            completed_uploads: self.completed_uploads@,
            running_downloads: self.running_downloads@,
            running_uploads: self.running_uploads@,
        }
    }
}

/// The record of a finished build.
pub open spec fn completed_of(info: BuildInfo, end: u64) -> CompletedBuildInfo {
    CompletedBuildInfo { start: info.start, end, host: info.host }
}

/// The record of a failed build.
pub open spec fn failed_of(info: BuildInfo, fail: BuildFail) -> FailedBuildInfo {
    FailedBuildInfo { start: info.start, end: fail.at, host: info.host, fail_type: fail.fail_type }
}

/// The summary without the entry a build status put there.
pub open spec fn cleared(v: SummaryView, id: DerivationId, s: BuildStatus) -> SummaryView {
    match s {
        BuildStatus::Unknown => v,
        BuildStatus::Planned => SummaryView { planned_builds: v.planned_builds.remove(id), ..v },
        BuildStatus::Building(_) => SummaryView { running_builds: v.running_builds.remove(id), ..v },
        BuildStatus::Built { .. } => SummaryView {
            completed_builds: v.completed_builds.remove(id),
            ..v
        },
        BuildStatus::Failed { .. } => SummaryView { failed_builds: v.failed_builds.remove(id), ..v },
    }
}

/// The summary with the entry a build status puts there.
pub open spec fn recorded(v: SummaryView, id: DerivationId, s: BuildStatus) -> SummaryView {
    match s {
        BuildStatus::Unknown => v,
        BuildStatus::Planned => SummaryView { planned_builds: v.planned_builds.insert(id), ..v },
        BuildStatus::Building(info) => SummaryView {
            running_builds: v.running_builds.insert(id, info),
            ..v
        },
        BuildStatus::Built { info, end } => SummaryView {
            completed_builds: v.completed_builds.insert(id, completed_of(info, end)),
            ..v
        },
        BuildStatus::Failed { info, fail } => SummaryView {
            failed_builds: v.failed_builds.insert(id, failed_of(info, fail)),
            ..v
        },
    }
}

/// The union of two summaries; where both hold an entry for the same key, the
/// second one's wins.
pub open spec fn merged(a: SummaryView, b: SummaryView) -> SummaryView {
    SummaryView {
        planned_builds: a.planned_builds + b.planned_builds,
        running_builds: a.running_builds.union_prefer_right(b.running_builds),
        completed_builds: a.completed_builds.union_prefer_right(b.completed_builds),
        failed_builds: a.failed_builds.union_prefer_right(b.failed_builds),
        planned_downloads: a.planned_downloads + b.planned_downloads,
        completed_downloads: a.completed_downloads.union_prefer_right(b.completed_downloads),
        completed_uploads: a.completed_uploads.union_prefer_right(b.completed_uploads),
        running_downloads: a.running_downloads.union_prefer_right(b.running_downloads),
        running_uploads: a.running_uploads.union_prefer_right(b.running_uploads),
    }
}

/// The keys of a table, each once.
pub fn map_keys<V>(m: &HashMap<usize, V>) -> (r: Vec<usize>)
    ensures
        r@.to_set() == m@.dom(),
        r@.no_duplicates(),
{
    let mut r: Vec<usize> = Vec::new();
    for k in it: m.keys()
        invariant
            r@.len() == it.index(),
            forall|i: int| 0 <= i < it.index() ==> r@[i] == *it.seq()[i],
            it.seq().unref().to_set() == m@.dom(),
            it.seq().no_duplicates(),
            r@ =~= it.seq().unref().take(it.index() as int),
            it.index() == it.seq().len() ==> it.seq().unref().take(it.index() as int)
                =~= it.seq().unref(),
    {
        r.push(*k);
    }
    r
}

/// The members of a set, each once.
pub fn set_members(m: &HashSet<usize>) -> (r: Vec<usize>)
    ensures
        r@.to_set() == m@,
        r@.no_duplicates(),
{
    let mut r: Vec<usize> = Vec::new();
    for k in it: m.iter()
        invariant
            r@.len() == it.index(),
            forall|i: int| 0 <= i < it.index() ==> r@[i] == *it.seq()[i],
            it.seq().unref().to_set() == m@,
            it.seq().no_duplicates(),
            r@ =~= it.seq().unref().take(it.index() as int),
            it.index() == it.seq().len() ==> it.seq().unref().take(it.index() as int)
                =~= it.seq().unref(),
    {
        r.push(*k);
    }
    r
}

/// Copies every entry of `src` into `dst`, replacing entries with the same key.
pub fn extend_map<V: Duplicate>(dst: &mut HashMap<usize, V>, src: &HashMap<usize, V>)
    ensures
        final(dst)@ == old(dst)@.union_prefer_right(src@),
{
    let keys = map_keys(src);
    let ghost start = dst@;
    for i in 0..keys.len()
        invariant
            keys@.to_set() == src@.dom(),
            keys@.no_duplicates(),
            dst@ == start.union_prefer_right(src@.restrict(keys@.take(i as int).to_set())),
    {
        let k = keys[i];
        assert(keys@.to_set().contains(k));
        match src.get(&k) {
            Some(v) => {
                dst.insert(k, v.duplicate());
            },
            None => {},
        }
        assert(keys@.take(i + 1).to_set() =~= keys@.take(i as int).to_set().insert(k)) by {
            assert(keys@.take(i + 1) =~= keys@.take(i as int).push(k));
            keys@.take(i as int).lemma_push_to_set_commute(k);
        }
        assert(dst@ =~= start.union_prefer_right(src@.restrict(keys@.take(i + 1).to_set())));
    }
    assert(keys@.take(keys@.len() as int) =~= keys@);
    assert(src@.restrict(keys@.to_set()) =~= src@);
}

/// Adds every member of `src` to `dst`.
pub fn extend_set(dst: &mut HashSet<usize>, src: &HashSet<usize>)
    ensures
        final(dst)@ == old(dst)@ + src@,
{
    let members = set_members(src);
    let ghost start = dst@;
    for i in 0..members.len()
        invariant
            members@.to_set() == src@,
            dst@ == start + members@.take(i as int).to_set(),
    {
        let k = members[i];
        dst.insert(k);
        assert(members@.take(i + 1) =~= members@.take(i as int).push(k));
        proof {
            members@.take(i as int).lemma_push_to_set_commute(k);
        }
        assert(dst@ =~= start + members@.take(i + 1).to_set());
    }
    assert(members@.take(members@.len() as int) =~= members@);
}

impl DependencySummary {
    /// An empty summary.
    pub fn new() -> (r: Self)
        ensures
            r@.planned_builds.is_empty(),
            r@.running_builds.is_empty(),
            r@.completed_builds.is_empty(),
            r@.failed_builds.is_empty(),
            r@.planned_downloads.is_empty(),
            r@.completed_downloads.is_empty(),
            r@.completed_uploads.is_empty(),
            r@.running_downloads.is_empty(),
            r@.running_uploads.is_empty(),
    {
        DependencySummary {
            planned_builds: HashSet::new(),
            running_builds: HashMap::new(),
            completed_builds: HashMap::new(),
            failed_builds: HashMap::new(),
            planned_downloads: HashSet::new(),
            completed_downloads: HashMap::new(),
            completed_uploads: HashMap::new(),
            running_downloads: HashMap::new(),
            running_uploads: HashMap::new(),
        }
    }

    /// Adds everything `other` records; entries of `other` replace entries of
    /// this summary with the same key.
    pub fn merge(&mut self, other: &Self)
        ensures
            final(self)@ == merged(old(self)@, other@),
    {
        extend_set(&mut self.planned_builds, &other.planned_builds);
        extend_map(&mut self.running_builds, &other.running_builds);
        extend_map(&mut self.completed_builds, &other.completed_builds);
        extend_map(&mut self.failed_builds, &other.failed_builds);
        extend_set(&mut self.planned_downloads, &other.planned_downloads);
        extend_map(&mut self.completed_downloads, &other.completed_downloads);
        extend_map(&mut self.completed_uploads, &other.completed_uploads);
        extend_map(&mut self.running_downloads, &other.running_downloads);
        extend_map(&mut self.running_uploads, &other.running_uploads);
    }

    /// Removes the entry a derivation's former status put in the summary.
    pub fn clear_derivation(&mut self, id: DerivationId, old_status: &BuildStatus)
        ensures
            final(self)@ == cleared(old(self)@, id, *old_status),
    {
        match old_status {
            BuildStatus::Unknown => {},
            BuildStatus::Planned => {
                self.planned_builds.remove(&id);
            },
            BuildStatus::Building(_) => {
                self.running_builds.remove(&id);
            },
            BuildStatus::Built { .. } => {
                self.completed_builds.remove(&id);
            },
            BuildStatus::Failed { .. } => {
                self.failed_builds.remove(&id);
            },
        }
    }

    /// Records a derivation's new status in the summary.
    pub fn update_derivation(&mut self, id: DerivationId, new_status: &BuildStatus)
        ensures
            final(self)@ == recorded(old(self)@, id, *new_status),
    {
        match new_status {
            BuildStatus::Unknown => {},
            BuildStatus::Planned => {
                self.planned_builds.insert(id);
            },
            BuildStatus::Building(info) => {
                self.running_builds.insert(id, info.duplicate());
            },
            BuildStatus::Built { info, end } => {
                self.completed_builds.insert(
                    id,
                    CompletedBuildInfo { start: info.start, end: *end, host: info.host.duplicate() },
                );
            },
            BuildStatus::Failed { info, fail } => {
                self.failed_builds.insert(
                    id,
                    FailedBuildInfo {
                        start: info.start,
                        end: fail.at,
                        host: info.host.duplicate(),
                        fail_type: fail.fail_type,
                    },
                );
            },
        }
    }
}

/// Clearing the entry of a status and recording it again restores the
/// summary, whenever the entry was there.
pub proof fn law_clear_then_record(v: SummaryView, id: DerivationId, s: BuildStatus)
    requires
        summary_holds(v, id, s),
    ensures
        recorded(cleared(v, id, s), id, s) == v,
{
    match s {
        BuildStatus::Unknown => {},
        BuildStatus::Planned => {
            assert(v.planned_builds.remove(id).insert(id) =~= v.planned_builds);
        },
        BuildStatus::Building(info) => {
            assert(v.running_builds.remove(id).insert(id, info) =~= v.running_builds);
        },
        BuildStatus::Built { info, end } => {
            assert(v.completed_builds.remove(id).insert(id, completed_of(info, end))
                =~= v.completed_builds);
        },
        BuildStatus::Failed { info, fail } => {
            assert(v.failed_builds.remove(id).insert(id, failed_of(info, fail)) =~= v.failed_builds);
        },
    }
}

/// The summary holds exactly the entry for `id` that status `s` puts there,
/// and no other build entry for `id`.
pub open spec fn summary_holds(v: SummaryView, id: DerivationId, s: BuildStatus) -> bool {
    &&& v.planned_builds.contains(id) == (s is Planned)
    &&& v.running_builds.contains_key(id) == (s is Building)
    &&& v.completed_builds.contains_key(id) == (s is Built)
    &&& v.failed_builds.contains_key(id) == (s is Failed)
    &&& (s matches BuildStatus::Building(info) ==> v.running_builds[id] == info)
    &&& (s matches BuildStatus::Built { info, end } ==> v.completed_builds[id] == completed_of(
        info,
        end,
    ))
    &&& (s matches BuildStatus::Failed { info, fail } ==> v.failed_builds[id] == failed_of(
        info,
        fail,
    ))
}

/// Replacing a derivation's status by clearing the old entry and recording the
/// new one leaves the summary agreeing with the new status, and changes no
/// other derivation's entries.
pub proof fn law_status_change(v: SummaryView, id: DerivationId, old_s: BuildStatus, new_s: BuildStatus)
    requires
        summary_holds(v, id, old_s),
    ensures
        summary_holds(recorded(cleared(v, id, old_s), id, new_s), id, new_s),
        forall|other: DerivationId, s: BuildStatus|
            other != id && summary_holds(v, other, s) ==> summary_holds(
                recorded(cleared(v, id, old_s), id, new_s),
                other,
                s,
            ),
{
}

} // verus!
