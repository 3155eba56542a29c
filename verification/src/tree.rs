//! The dependency tree of the display: the roots that are building or have
//! failed, each with the inputs that are building or have failed below it
//! (every derivation shown once), drawn with the inputs above the derivation
//! that needs them.
use vstd::prelude::*;
use vstd::string::StringExecFns;
use std::collections::HashSet;
use crate::display::{cut, cuttable, truncate_name, Display};
use crate::render::{build_counts, clock_part, count_part, drv_name, ms_text, sat_sub, secs_text, since, texts, tx, tx_string, format_duration, format_secs, Shade};
use crate::state::{InputDerivation, State};
use crate::summary::BuildStatus;

verus! {

broadcast use vstd::std_specs::hash::group_hash_axioms;

/// A tree of derivations, by identifier.
pub enum ATree {
    Node(usize, Seq<ATree>),
}

/// A tree of derivations to draw.
#[derive(Debug)]
pub struct TreeNode {
    pub drv_id: usize,
    pub children: Vec<TreeNode>,
}

/// The node `n` holds the tree `t`.
pub open spec fn models(n: TreeNode, t: ATree) -> bool
    decreases t, 0int,
{
    match t {
        ATree::Node(id, kids) => n.drv_id == id && n.children@.len() == kids.len() && models_from(
            n.children@,
            kids,
            0,
        ),
    }
}

/// The nodes `v` from position `i` on hold the trees `ks`.
pub open spec fn models_from(v: Seq<TreeNode>, ks: Seq<ATree>, i: int) -> bool
    decreases ks, ks.len() - i,
{
    if i < 0 || i >= ks.len() || i >= v.len() {
        true
    } else {
        models(v[i], ks[i]) && models_from(v, ks, i + 1)
    }
}

proof fn lemma_models_from(v: Seq<TreeNode>, ks: Seq<ATree>, i: int)
    requires
        0 <= i <= ks.len(),
        v.len() == ks.len(),
    ensures
        models_from(v, ks, i) <==> forall|j: int| i <= j < ks.len() ==> #[trigger] models(v[j], ks[j]),
    decreases ks.len() - i,
{
    if i < ks.len() {
        assert(models_from(v, ks, i) == (models(v[i], ks[i]) && models_from(v, ks, i + 1)));
        lemma_models_from(v, ks, i + 1);
    } else {
        assert(models_from(v, ks, i));
    }
}

/// The forest `v` holds the trees `ts`.
pub open spec fn models_all(v: Seq<TreeNode>, ts: Seq<ATree>) -> bool {
    v.len() == ts.len() && forall|i: int| 0 <= i < ts.len() ==> #[trigger] models(v[i], ts[i])
}

/// A build status the tree shows: building or failed.
pub open spec fn active_status(s: BuildStatus) -> bool {
    s is Building || s is Failed
}

/// Derivation `k` is known and building or failed.
pub open spec fn is_active(st: State, k: usize) -> bool {
    k < st.drvs().len() && active_status(st.drvs()[k as int].build_status)
}

/// The number of known derivations from `k` on that are not in `vis`.
pub open spec fn unvisited_from(st: State, vis: Set<usize>, k: int) -> nat
    decreases st.drvs().len() - k,
{
    if k < 0 || k >= st.drvs().len() {
        0
    } else {
        unvisited_from(st, vis, k + 1) + if vis.contains(k as usize) {
            0nat
        } else {
            1nat
        }
    }
}

/// The number of known derivations not in `vis`.
pub open spec fn unvisited(st: State, vis: Set<usize>) -> nat {
    unvisited_from(st, vis, 0)
}

proof fn lemma_unvisited_superset(st: State, a: Set<usize>, b: Set<usize>, k: int)
    requires
        st.drvs().len() <= usize::MAX,
        a.subset_of(b),
        0 <= k,
    ensures
        unvisited_from(st, b, k) <= unvisited_from(st, a, k),
    decreases st.drvs().len() - k,
{
    if k < st.drvs().len() {
        lemma_unvisited_superset(st, a, b, k + 1);
    }
}

proof fn lemma_unvisited_insert(st: State, a: Set<usize>, x: usize, k: int)
    requires
        st.drvs().len() <= usize::MAX,
        0 <= k <= x < st.drvs().len(),
        !a.contains(x),
    ensures
        unvisited_from(st, a.insert(x), k) + 1 == unvisited_from(st, a, k),
    decreases st.drvs().len() - k,
{
    if k < x {
        lemma_unvisited_insert(st, a, x, k + 1);
    } else {
        lemma_unvisited_same_above(st, a, x, k + 1);
    }
}

proof fn lemma_unvisited_same_above(st: State, a: Set<usize>, x: usize, k: int)
    requires
        st.drvs().len() <= usize::MAX,
        x < k,
    ensures
        unvisited_from(st, a.insert(x), k) == unvisited_from(st, a, k),
    decreases st.drvs().len() - k,
{
    if 0 <= k < st.drvs().len() {
        assert((k as usize) as int == k);
        lemma_unvisited_same_above(st, a, x, k + 1);
    }
}

/// The tree below derivation `id` when the derivations in `vis` have been
/// drawn already: none when `id` has been, is unknown, or one of its inputs is
/// unknown; else `id` with the trees of its inputs that are building or have
/// failed, in order.  Returns the derivations drawn by then.
pub open spec fn active_node(st: State, id: usize, vis: Set<usize>, fuel: nat) -> (Option<ATree>, Set<usize>)
    decreases fuel, 0nat, 0int,
{
    if vis.contains(id) {
        (None, vis)
    } else if id >= st.drvs().len() || fuel == 0 {
        (None, vis.insert(id))
    } else {
        let ins = st.drvs()[id as int].input_derivations@;
        let (kids, v2) = active_kids(st, ins, 0, vis.insert(id), (fuel - 1) as nat);
        match kids {
            Some(ks) => (Some(ATree::Node(id, ks)), v2),
            None => (None, v2),
        }
    }
}

/// The trees of the inputs `ins` from position `i` on that are building or
/// have failed; none when one of them is unknown.
pub open spec fn active_kids(st: State, ins: Seq<InputDerivation>, i: int, vis: Set<usize>, fuel: nat) -> (
    Option<Seq<ATree>>,
    Set<usize>,
)
    decreases fuel, 1nat, ins.len() - i,
{
    if i < 0 || i >= ins.len() {
        (Some(Seq::empty()), vis)
    } else {
        let c = ins[i].derivation;
        if c >= st.drvs().len() {
            (None, vis)
        } else {
            let (node, v1) = if active_status(st.drvs()[c as int].build_status) {
                active_node(st, c, vis, fuel)
            } else {
                (None, vis)
            };
            let (rest, v2) = active_kids(st, ins, i + 1, v1, fuel);
            match rest {
                None => (None, v2),
                Some(r) => (
                    Some(
                        match node {
                            Some(n) => seq![n] + r,
                            None => r,
                        },
                    ),
                    v2,
                ),
            }
        }
    }
}

/// Every node built so far is in `vis` and nothing leaves it.
proof fn lemma_active_grows(st: State, id: usize, vis: Set<usize>, fuel: nat)
    ensures
        vis.subset_of(active_node(st, id, vis, fuel).1),
    decreases fuel, 0nat, 0int,
{
    if !vis.contains(id) && id < st.drvs().len() && fuel > 0 {
        let ins = st.drvs()[id as int].input_derivations@;
        lemma_kids_grow(st, ins, 0, vis.insert(id), (fuel - 1) as nat);
    }
}

proof fn lemma_kids_grow(st: State, ins: Seq<InputDerivation>, i: int, vis: Set<usize>, fuel: nat)
    ensures
        vis.subset_of(active_kids(st, ins, i, vis, fuel).1),
    decreases fuel, 1nat, ins.len() - i,
{
    if 0 <= i < ins.len() {
        let c = ins[i].derivation;
        if c < st.drvs().len() {
            let v1 = if active_status(st.drvs()[c as int].build_status) {
                lemma_active_grows(st, c, vis, fuel);
                active_node(st, c, vis, fuel).1
            } else {
                vis
            };
            lemma_kids_grow(st, ins, i + 1, v1, fuel);
        }
    }
}

/// Whether derivation `id` has been drawn.
fn build_active_node(state: &State, id: usize, visited: HashSet<usize>, Ghost(fuel): Ghost<nat>) -> (r: (
    Option<TreeNode>,
    HashSet<usize>,
    Ghost<Option<ATree>>,
))
    requires
        state.wf(),
        fuel >= unvisited(*state, visited@) + 1,
    ensures
        r.1@ == active_node(*state, id, visited@, fuel).1,
        r.2@ == active_node(*state, id, visited@, fuel).0,
        match r.2@ {
            Some(t) => r.0 matches Some(n) && models(n, t),
            None => r.0 is None,
        },
    decreases fuel, 0nat, 0int,
{
    let mut visited = visited;
    let ghost vis0 = visited@;
    if visited.contains(&id) {
        return (None, visited, Ghost(None));
    }
    visited.insert(id);
    if id >= state.next_derivation_id {
        return (None, visited, Ghost(None));
    }
    proof {
        lemma_unvisited_insert(*state, vis0, id, 0);
    }
    let info = state.get_derivation_info(id).unwrap();
    let (kids, v2, Ghost(ts)) = build_active_kids(state, &info.input_derivations, 0, visited, Ghost((fuel - 1) as nat));
    match kids {
        Some(children) => {
            let node = TreeNode { drv_id: id, children };
            proof {
                let t = ATree::Node(id, ts.unwrap());
                assert(models_all(node.children@, ts.unwrap()));
                assert(node.drv_id == id);
                assert(node.children@.len() == ts.unwrap().len());
                assert(forall|i: int| 0 <= i < ts.unwrap().len() ==> #[trigger] models(node.children@[i], ts.unwrap()[i]));
                lemma_models_from(node.children@, ts.unwrap(), 0);
                assert(models(node, t));
            }
            (Some(node), v2, Ghost(Some(ATree::Node(id, ts.unwrap()))))
        },
        None => (None, v2, Ghost(None)),
    }
}

/// The trees of the inputs `ins` from position `i` on.
fn build_active_kids(
    state: &State,
    ins: &Vec<InputDerivation>,
    i: usize,
    visited: HashSet<usize>,
    Ghost(fuel): Ghost<nat>,
) -> (r: (Option<Vec<TreeNode>>, HashSet<usize>, Ghost<Option<Seq<ATree>>>))
    requires
        state.wf(),
        fuel >= unvisited(*state, visited@) + 1,
        i <= ins@.len(),
    ensures
        r.1@ == active_kids(*state, ins@, i as int, visited@, fuel).1,
        r.2@ == active_kids(*state, ins@, i as int, visited@, fuel).0,
        match r.2@ {
            Some(ts) => r.0 matches Some(v) && models_all(v@, ts),
            None => r.0 is None,
        },
    decreases fuel, 1nat, ins@.len() - i,
{
    if i >= ins.len() {
        return (Some(Vec::new()), visited, Ghost(Some(Seq::empty())));
    }
    let c = ins[i].derivation;
    if c >= state.next_derivation_id {
        return (None, visited, Ghost(None));
    }
    let ghost vis0 = visited@;
    let active = match &state.get_derivation_info(c).unwrap().build_status {
        BuildStatus::Building(_) => true,
        BuildStatus::Failed { .. } => true,
        _ => false,
    };
    let (node, v1, Ghost(t)) = if active {
        build_active_node(state, c, visited, Ghost(fuel))
    } else {
        (None, visited, Ghost(None))
    };
    proof {
        if active {
            lemma_active_grows(*state, c, vis0, fuel);
        }
        lemma_unvisited_superset(*state, vis0, v1@, 0);
    }
    let (rest, v2, Ghost(ts)) = build_active_kids(state, ins, i + 1, v1, Ghost(fuel));
    match rest {
        None => (None, v2, Ghost(None)),
        Some(mut r) => {
            let ghost rest_v = r@;
            match node {
                Some(n) => {
                    r.insert(0, n);
                    proof {
                        let tt = t.unwrap();
                        let all = seq![tt] + ts.unwrap();
                        assert(r@ =~= rest_v.insert(0, n));
                        assert forall|j: int| 0 <= j < all.len() implies #[trigger] models(r@[j], all[j]) by {
                            if j > 0 {
                                assert(r@[j] == rest_v[j - 1]);
                                assert(all[j] == ts.unwrap()[j - 1]);
                            }
                        }
                    }
                    (Some(r), v2, Ghost(Some(seq![t.unwrap()] + ts.unwrap())))
                },
                None => (Some(r), v2, Ghost(Some(ts.unwrap()))),
            }
        },
    }
}

/// Every derivation of a tree is known and building or failed.
pub open spec fn all_active(st: State, t: ATree) -> bool
    decreases t, 0int,
{
    match t {
        ATree::Node(id, kids) => is_active(st, id) && all_active_from(st, kids, 0),
    }
}

/// Every derivation of the trees `ks` from position `i` on is known and
/// building or failed.
pub open spec fn all_active_from(st: State, ks: Seq<ATree>, i: int) -> bool
    decreases ks, ks.len() - i,
{
    if i < 0 || i >= ks.len() {
        true
    } else {
        all_active(st, ks[i]) && all_active_from(st, ks, i + 1)
    }
}

proof fn lemma_all_active_from(st: State, ks: Seq<ATree>, i: int)
    requires
        0 <= i <= ks.len(),
    ensures
        all_active_from(st, ks, i) <==> forall|j: int| i <= j < ks.len() ==> #[trigger] all_active(st, ks[j]),
    decreases ks.len() - i,
{
    if i < ks.len() {
        assert(all_active_from(st, ks, i) == (all_active(st, ks[i]) && all_active_from(st, ks, i + 1)));
        lemma_all_active_from(st, ks, i + 1);
    } else {
        assert(all_active_from(st, ks, i));
    }
}

/// The tree of a derivation that is building or failed holds only such.
proof fn lemma_active_tree(st: State, id: usize, vis: Set<usize>, fuel: nat)
    requires
        is_active(st, id),
    ensures
        active_node(st, id, vis, fuel).0 matches Some(t) ==> all_active(st, t),
    decreases fuel, 0nat, 0int,
{
    if !vis.contains(id) && id < st.drvs().len() && fuel > 0 {
        let ins = st.drvs()[id as int].input_derivations@;
        lemma_active_kids(st, ins, 0, vis.insert(id), (fuel - 1) as nat);
        if let Some(ks) = active_kids(st, ins, 0, vis.insert(id), (fuel - 1) as nat).0 {
            lemma_all_active_from(st, ks, 0);
            assert(all_active(st, ATree::Node(id, ks)) == (is_active(st, id) && all_active_from(st, ks, 0)));
        }
    }
}

proof fn lemma_active_kids(st: State, ins: Seq<InputDerivation>, i: int, vis: Set<usize>, fuel: nat)
    ensures
        active_kids(st, ins, i, vis, fuel).0 matches Some(ts) ==> forall|j: int|
            0 <= j < ts.len() ==> #[trigger] all_active(st, ts[j]),
    decreases fuel, 1nat, ins.len() - i,
{
    if 0 <= i < ins.len() {
        let c = ins[i].derivation;
        if c < st.drvs().len() {
            let (node, v1) = if active_status(st.drvs()[c as int].build_status) {
                lemma_active_tree(st, c, vis, fuel);
                active_node(st, c, vis, fuel)
            } else {
                (None, vis)
            };
            lemma_active_kids(st, ins, i + 1, v1, fuel);
            if let Some(r) = active_kids(st, ins, i + 1, v1, fuel).0 {
                if let Some(n) = node {
                    let all = seq![n] + r;
                    assert forall|j: int| 0 <= j < all.len() implies #[trigger] all_active(st, all[j]) by {
                        if j > 0 {
                            assert(all[j] == r[j - 1]);
                        }
                    }
                }
            }
        }
    }
}

/// The icon of a build status.
pub open spec fn status_icon(d: Display, s: BuildStatus) -> Seq<char> {
    match s {
        BuildStatus::Building(_) => d.config.icons.running@,
        BuildStatus::Planned => d.config.icons.planned@,
        BuildStatus::Built { .. } => d.config.icons.done@,
        BuildStatus::Failed { .. } => d.config.icons.failed@,
        BuildStatus::Unknown => "?"@,
    }
}

/// The color of the icon of a build status.
pub open spec fn status_shade(s: BuildStatus) -> Shade {
    match s {
        BuildStatus::Building(_) => Shade::Yellow,
        BuildStatus::Planned => Shade::Grey,
        BuildStatus::Built { .. } => Shade::Green,
        BuildStatus::Failed { .. } => Shade::Red,
        BuildStatus::Unknown => Shade::Grey,
    }
}

/// The icon and name of derivation `id`, the name cut to `w` bytes.
pub open spec fn node_label(d: Display, st: State, id: usize, w: nat) -> Seq<char> {
    let info = st.drvs()[id as int];
    tx(d, status_icon(d, info.build_status), status_shade(info.build_status)) + " "@ + cut(
        info.name.name@,
        w,
    )
}

/// What the line of an input shows after its name when it is building: the
/// time it has run.
pub open spec fn child_extra(d: Display, st: State, now: u64, id: usize) -> Seq<char> {
    match st.drvs()[id as int].build_status {
        BuildStatus::Building(b) => tx(d, "  "@ + d.config.icons.clock@ + " "@ + ms_text(since(now, b.start)), Shade::DarkGrey),
        _ => Seq::empty(),
    }
}

/// The lines of the tree `t` below a node, after `prefix`: its inputs first,
/// then its own line with a branch, the last one of its siblings ending the
/// branch.
pub open spec fn child_lines(d: Display, st: State, now: u64, t: ATree, is_last: bool, prefix: Seq<char>) -> Seq<
    Seq<char>,
>
    decreases t, 0int,
{
    match t {
        ATree::Node(id, kids) => {
            let cp = if is_last {
                prefix + "   "@
            } else {
                prefix + "\u{2502}  "@
            };
            let branch = if is_last {
                "\u{2514}\u{2500} "@
            } else {
                "\u{251c}\u{2500} "@
            };
            kids_lines(d, st, now, kids, kids.len() as int, cp) + seq![
                prefix + tx(d, branch, Shade::Blue) + node_label(d, st, id, 48) + child_extra(d, st, now, id),
            ]
        },
    }
}

/// The lines of the first `n` trees of `ks`, after `prefix`.
pub open spec fn kids_lines(d: Display, st: State, now: u64, ks: Seq<ATree>, n: int, prefix: Seq<char>) -> Seq<
    Seq<char>,
>
    decreases ks, n,
{
    if n <= 0 || n > ks.len() {
        Seq::empty()
    } else {
        kids_lines(d, st, now, ks, n - 1, prefix) + child_lines(d, st, now, ks[n - 1], n - 1 == ks.len() - 1, prefix)
    }
}

/// What the line of a root shows after its name when it is building: its
/// phase, the time its estimate leaves and the time it has run.
pub open spec fn root_extra(d: Display, st: State, now: u64, id: usize) -> Seq<char> {
    match st.drvs()[id as int].build_status {
        BuildStatus::Building(b) => {
            let phase = match b.activity_id {
                Some(a) => if st.activities@.contains_key(a) {
                    match st.activities@[a].phase {
                        Some(p) => tx(d, " ("@ + p@ + ")"@, Shade::DarkGrey),
                        None => Seq::empty(),
                    }
                } else {
                    Seq::empty()
                },
                None => Seq::empty(),
            };
            let elapsed = since(now, b.start);
            let est = match b.estimate {
                Some(e) => tx(d, " "@ + d.config.icons.estimate@ + " "@ + secs_text(sat_sub(e as nat, elapsed / 1000)), Shade::DarkGrey),
                None => Seq::empty(),
            };
            phase + est + tx(d, " "@ + d.config.icons.clock@ + " "@ + ms_text(elapsed), Shade::DarkGrey)
        },
        _ => Seq::empty(),
    }
}

/// The lines of a tree below a root: its inputs, then the root.
pub open spec fn root_lines(d: Display, st: State, now: u64, t: ATree) -> Seq<Seq<char>> {
    match t {
        ATree::Node(id, kids) => kids_lines(d, st, now, kids, kids.len() as int, "\u{2503} "@) + seq![
            tx(d, "\u{2503} "@, Shade::Blue) + node_label(d, st, id, 50) + root_extra(d, st, now, id),
        ],
    }
}

/// Is a known derivation that is building or failed.
pub open spec fn active_in(st: State) -> spec_fn(usize) -> bool {
    |k: usize| is_active(st, k)
}

/// The roots of the forest that are building or failed, in order.
pub open spec fn active_roots(st: State) -> Seq<usize> {
    st.forest_roots@.filter(active_in(st))
}

/// The trees of the roots `roots` from position `i` on, every derivation
/// drawn once.
pub open spec fn active_forest(st: State, roots: Seq<usize>, i: int, vis: Set<usize>) -> Seq<ATree>
    decreases roots.len() - i,
{
    if i < 0 || i >= roots.len() {
        Seq::empty()
    } else {
        let (t, v) = active_node(st, roots[i], vis, st.drvs().len() + 1);
        match t {
            Some(n) => seq![n] + active_forest(st, roots, i + 1, v),
            None => active_forest(st, roots, i + 1, v),
        }
    }
}

/// The lines of the trees `ts` from position `i` on.
pub open spec fn forest_lines(d: Display, st: State, now: u64, ts: Seq<ATree>, i: int) -> Seq<Seq<char>>
    decreases ts.len() - i,
{
    if i < 0 || i >= ts.len() {
        Seq::empty()
    } else {
        root_lines(d, st, now, ts[i]) + forest_lines(d, st, now, ts, i + 1)
    }
}

/// The dependency tree: a title, then the trees of the roots that are
/// building or failed; nothing when there are none.
pub open spec fn tree_view(d: Display, st: State, now: u64) -> Seq<Seq<char>> {
    let f = active_forest(st, active_roots(st), 0, Set::empty());
    if f.len() == 0 {
        Seq::empty()
    } else {
        seq![tx(d, "\u{250f}\u{2501}"@, Shade::Blue) + " Dependency Graph:"@] + forest_lines(d, st, now, f, 0)
    }
}

/// The tree view draws something: some root building or failed has a tree.
pub open spec fn has_tree(st: State) -> bool {
    active_forest(st, active_roots(st), 0, Set::empty()).len() > 0
}

/// The name of the tree `t`'s own derivation can be cut to `w` bytes, and
/// the names of the derivations below it to 48.
pub open spec fn names_fit(st: State, t: ATree, w: nat) -> bool
    decreases t, 0int,
{
    match t {
        ATree::Node(id, kids) => cuttable(drv_name(st, id), w) && names_fit_from(st, kids, 0),
    }
}

/// Every derivation of the trees `ks` from position `i` on has a name that can
/// be cut to 48 bytes.
pub open spec fn names_fit_from(st: State, ks: Seq<ATree>, i: int) -> bool
    decreases ks, ks.len() - i,
{
    if i < 0 || i >= ks.len() {
        true
    } else {
        names_fit(st, ks[i], 48) && names_fit_from(st, ks, i + 1)
    }
}

proof fn lemma_names_fit_from(st: State, ks: Seq<ATree>, i: int)
    requires
        0 <= i <= ks.len(),
    ensures
        names_fit_from(st, ks, i) <==> forall|j: int| i <= j < ks.len() ==> #[trigger] names_fit(st, ks[j], 48),
    decreases ks.len() - i,
{
    if i < ks.len() {
        assert(names_fit_from(st, ks, i) == (names_fit(st, ks[i], 48) && names_fit_from(st, ks, i + 1)));
        lemma_names_fit_from(st, ks, i + 1);
    } else {
        assert(names_fit_from(st, ks, i));
    }
}

/// Every derivation the tree view draws has a name that can be cut: a root's
/// to 50 bytes, an input's to 48.
pub open spec fn tree_fits(st: State) -> bool {
    let ts = active_forest(st, active_roots(st), 0, Set::empty());
    forall|j: int| 0 <= j < ts.len() ==> #[trigger] names_fit(st, ts[j], 50)
}

impl Display {
    /// The icon and name of derivation `id`.
    fn node_label_string(&self, state: &State, id: usize, w: usize) -> (r: String)
        requires
            state.wf(),
            id < state.drvs().len(),
            cuttable(drv_name(*state, id), w as nat),
        ensures
            r@ == node_label(*self, *state, id, w as nat),
    {
        let info = state.get_derivation_info(id).unwrap();
        let (icon, shade) = match &info.build_status {
            BuildStatus::Building(_) => (self.config.icons.running, Shade::Yellow),
            BuildStatus::Planned => (self.config.icons.planned, Shade::Grey),
            BuildStatus::Built { .. } => (self.config.icons.done, Shade::Green),
            BuildStatus::Failed { .. } => (self.config.icons.failed, Shade::Red),
            BuildStatus::Unknown => ("?", Shade::Grey),
        };
        let mut out = tx_string(self, icon, shade);
        out.append(" ");
        let n = truncate_name(info.name.name.as_str(), w);
        out.append(n.as_str());
        out
    }

    /// What the line of an input shows after its name.
    fn child_extra_string(&self, state: &State, now: u64, id: usize) -> (r: String)
        requires
            state.wf(),
            id < state.drvs().len(),
        ensures
            r@ == child_extra(*self, *state, now, id),
    {
        let info = state.get_derivation_info(id).unwrap();
        match &info.build_status {
            BuildStatus::Building(b) => {
                let mut t = String::from_str("  ");
                t.append(self.config.icons.clock);
                t.append(" ");
                let e = format_duration(now.saturating_sub(b.start));
                t.append(e.as_str());
                tx_string(self, t.as_str(), Shade::DarkGrey)
            },
            _ => String::new(),
        }
    }

    /// Draws the tree below a node after `prefix`: its inputs, then itself.
    fn render_tree_child(
        &self,
        state: &State,
        now: u64,
        node: &TreeNode,
        Ghost(t): Ghost<ATree>,
        is_last: bool,
        prefix: &str,
        lines: &mut Vec<String>,
    )
        requires
            state.wf(),
            names_fit(*state, t, 48),
            models(*node, t),
            all_active(*state, t),
        ensures
            texts(final(lines)@) == texts(old(lines)@) + child_lines(*self, *state, now, t, is_last, prefix@),
        decreases t,
    {
        let ghost kids = match t {
            ATree::Node(_, k) => k,
        };
        let ghost id = node.drv_id;
        proof {
            assert(t == ATree::Node(id, kids));
            lemma_models_from(node.children@, kids, 0);
            lemma_all_active_from(*state, kids, 0);
            lemma_names_fit_from(*state, kids, 0);
        }
        let mut cp = String::from_str(prefix);
        if is_last {
            cp.append("   ");
        } else {
            cp.append("\u{2502}  ");
        }
        let ghost start = texts(lines@);
        let n = node.children.len();
        let mut i: usize = 0;
        while i < n
            invariant
                i <= n,
                n == node.children@.len(),
                n == kids.len(),
                t == ATree::Node(id, kids),
                state.wf(),
                cuttable(drv_name(*state, id), 48),
                forall|j: int| 0 <= j < kids.len() ==> #[trigger] names_fit(*state, kids[j], 48),
                forall|j: int| 0 <= j < kids.len() ==> #[trigger] models(node.children@[j], kids[j]),
                forall|j: int| 0 <= j < kids.len() ==> #[trigger] all_active(*state, kids[j]),
                texts(lines@) == start + kids_lines(*self, *state, now, kids, i as int, cp@),
            decreases n - i,
        {
            proof {
                assert(t->1 == kids);
                assert(decreases_to!(t => t->1));
                assert(decreases_to!(kids => kids[i as int]));
                assert(decreases_to!(t => kids[i as int]));
            }
            let ghost before = texts(lines@);
            self.render_tree_child(state, now, &node.children[i], Ghost(kids[i as int]), i == n - 1, cp.as_str(), lines);
            proof {
                assert(kids_lines(*self, *state, now, kids, i + 1, cp@) == kids_lines(*self, *state, now, kids, i as int, cp@)
                    + child_lines(*self, *state, now, kids[i as int], i == kids.len() - 1, cp@));
            }
            i += 1;
        }
        let ghost mid = texts(lines@);
        let mut line = String::from_str(prefix);
        let branch = if is_last {
            tx_string(self, "\u{2514}\u{2500} ", Shade::Blue)
        } else {
            tx_string(self, "\u{251c}\u{2500} ", Shade::Blue)
        };
        line.append(branch.as_str());
        proof {
            assert(is_active(*state, id));
        }
        let label = self.node_label_string(state, node.drv_id, 48);
        line.append(label.as_str());
        let extra = self.child_extra_string(state, now, node.drv_id);
        line.append(extra.as_str());
        lines.push(line);
        proof {
            assert(texts(lines@) =~= mid.push(line@));
            assert(child_lines(*self, *state, now, t, is_last, prefix@) == kids_lines(*self, *state, now, kids, kids.len() as int, cp@)
                + seq![prefix@ + tx(*self, if is_last { "\u{2514}\u{2500} "@ } else { "\u{251c}\u{2500} "@ }, Shade::Blue) + node_label(*self, *state, id, 48) + child_extra(*self, *state, now, id)]);
            assert(texts(lines@) =~= start + child_lines(*self, *state, now, t, is_last, prefix@));
        }
    }
}

proof fn lemma_unvisited_bound(st: State, vis: Set<usize>, k: int)
    requires
        0 <= k <= st.drvs().len(),
    ensures
        unvisited_from(st, vis, k) <= st.drvs().len() - k,
    decreases st.drvs().len() - k,
{
    if k < st.drvs().len() {
        lemma_unvisited_bound(st, vis, k + 1);
    }
}

/// The roots of the forest that are building or failed, in order.
fn active_root_ids(state: &State) -> (r: Vec<usize>)
    requires
        state.wf(),
    ensures
        r@ == active_roots(*state),
{
    let mut r: Vec<usize> = Vec::new();
    let mut i: usize = 0;
    assert(state.forest_roots@.take(0) =~= Seq::<usize>::empty());
    while i < state.forest_roots.len()
        invariant
            i <= state.forest_roots@.len(),
            state.wf(),
            r@ == state.forest_roots@.take(i as int).filter(active_in(*state)),
        decreases state.forest_roots@.len() - i,
    {
        let id = state.forest_roots[i];
        let active = match state.get_derivation_info(id) {
            Some(info) => match &info.build_status {
                BuildStatus::Building(_) => true,
                BuildStatus::Failed { .. } => true,
                _ => false,
            },
            None => false,
        };
        proof {
            assert(state.forest_roots@.take(i + 1) =~= state.forest_roots@.take(i as int).push(id));
            state.forest_roots@.take(i as int).lemma_filter_push(id, active_in(*state));
            assert(active == active_in(*state)(id));
        }
        if active {
            r.push(id);
        }
        i += 1;
    }
    assert(state.forest_roots@.take(state.forest_roots@.len() as int) =~= state.forest_roots@);
    r
}

/// The trees of the roots `roots`, every derivation drawn once.
fn build_active_forest(state: &State, roots: &Vec<usize>) -> (r: (Vec<TreeNode>, Ghost<Seq<ATree>>))
    requires
        state.wf(),
        forall|j: int| 0 <= j < roots@.len() ==> is_active(*state, #[trigger] roots@[j]),
    ensures
        r.1@ == active_forest(*state, roots@, 0, Set::empty()),
        models_all(r.0@, r.1@),
        forall|j: int| 0 <= j < r.1@.len() ==> #[trigger] all_active(*state, r.1@[j]),
{
    let mut forest: Vec<TreeNode> = Vec::new();
    let ghost mut ts: Seq<ATree> = Seq::empty();
    let mut visited: HashSet<usize> = HashSet::new();
    let ghost fuel: nat = (state.drvs().len() + 1) as nat;
    let mut i: usize = 0;
    while i < roots.len()
        invariant
            i <= roots@.len(),
            state.wf(),
            fuel == state.drvs().len() + 1,
            forall|j: int| 0 <= j < roots@.len() ==> is_active(*state, #[trigger] roots@[j]),
            active_forest(*state, roots@, 0, Set::empty()) == ts + active_forest(*state, roots@, i as int, visited@),
            models_all(forest@, ts),
            forall|j: int| 0 <= j < ts.len() ==> #[trigger] all_active(*state, ts[j]),
        decreases roots@.len() - i,
    {
        proof {
            lemma_unvisited_bound(*state, visited@, 0);
            lemma_active_tree(*state, roots@[i as int], visited@, fuel);
        }
        let ghost v0 = visited@;
        let (node, v, Ghost(t)) = build_active_node(state, roots[i], visited, Ghost(fuel));
        visited = v;
        proof {
            assert(active_forest(*state, roots@, i as int, v0) == match t {
                Some(n) => seq![n] + active_forest(*state, roots@, i + 1, visited@),
                None => active_forest(*state, roots@, i + 1, visited@),
            });
        }
        match node {
            Some(n) => {
                let ghost before = forest@;
                forest.push(n);
                proof {
                    let old_ts = ts;
                    ts = ts.push(t.unwrap());
                    assert(forest@ =~= before.push(n));
                    assert forall|j: int| 0 <= j < ts.len() implies #[trigger] models(forest@[j], ts[j]) by {
                        if j < old_ts.len() {
                            assert(forest@[j] == before[j]);
                            assert(ts[j] == old_ts[j]);
                        }
                    }
                    assert forall|j: int| 0 <= j < ts.len() implies #[trigger] all_active(*state, ts[j]) by {
                        if j < old_ts.len() {
                            assert(ts[j] == old_ts[j]);
                        }
                    }
                    assert(old_ts + (seq![t.unwrap()] + active_forest(*state, roots@, i + 1, visited@)) =~= ts + active_forest(*state, roots@, i + 1, visited@));
                }
            },
            None => {},
        }
        i += 1;
    }
    proof {
        assert(active_forest(*state, roots@, i as int, visited@) =~= Seq::<ATree>::empty());
        assert(ts + Seq::<ATree>::empty() =~= ts);
    }
    (forest, Ghost(ts))
}

impl Display {
    /// What the line of a root shows after its name when it is building.
    fn root_extra_string(&self, state: &State, now: u64, id: usize) -> (r: String)
        requires
            state.wf(),
            id < state.drvs().len(),
        ensures
            r@ == root_extra(*self, *state, now, id),
    {
        let info = state.get_derivation_info(id).unwrap();
        let mut out = String::new();
        match &info.build_status {
            BuildStatus::Building(b) => {
                match b.activity_id {
                    Some(aid) => match state.activities.get(&aid) {
                        Some(act) => match &act.phase {
                            Some(phase) => {
                                let mut p = String::from_str(" (");
                                p.append(phase.as_str());
                                p.append(")");
                                let pt = tx_string(self, p.as_str(), Shade::DarkGrey);
                                out.append(pt.as_str());
                            },
                            None => {},
                        },
                        None => {},
                    },
                    None => {},
                }
                let ghost o1 = out@;
                let elapsed = now.saturating_sub(b.start);
                match b.estimate {
                    Some(e) => {
                        let mut q = String::from_str(" ");
                        q.append(self.config.icons.estimate);
                        q.append(" ");
                        let rem = format_secs(e.saturating_sub(elapsed / 1000));
                        q.append(rem.as_str());
                        let qt = tx_string(self, q.as_str(), Shade::DarkGrey);
                        out.append(qt.as_str());
                    },
                    None => {},
                }
                let ghost o2 = out@;
                let mut w = String::from_str(" ");
                w.append(self.config.icons.clock);
                w.append(" ");
                let el = format_duration(elapsed);
                w.append(el.as_str());
                let wt = tx_string(self, w.as_str(), Shade::DarkGrey);
                out.append(wt.as_str());
                proof {
                    let est = match b.estimate {
                        Some(e) => tx(*self, " "@ + self.config.icons.estimate@ + " "@ + secs_text(sat_sub(e as nat, since(now, b.start) / 1000)), Shade::DarkGrey),
                        None => Seq::empty(),
                    };
                    assert(o2 =~= o1 + est);
                    assert(out@ =~= o1 + est + tx(*self, " "@ + self.config.icons.clock@ + " "@ + ms_text(since(now, b.start)), Shade::DarkGrey));
                }
            },
            _ => {},
        }
        out
    }

    /// Draws the tree below a root: its inputs, then the root.
    fn render_tree_node(
        &self,
        state: &State,
        now: u64,
        node: &TreeNode,
        Ghost(t): Ghost<ATree>,
        lines: &mut Vec<String>,
    )
        requires
            state.wf(),
            names_fit(*state, t, 50),
            models(*node, t),
            all_active(*state, t),
        ensures
            texts(final(lines)@) == texts(old(lines)@) + root_lines(*self, *state, now, t),
    {
        let ghost kids = match t {
            ATree::Node(_, k) => k,
        };
        let ghost id = node.drv_id;
        proof {
            assert(t == ATree::Node(id, kids));
            lemma_models_from(node.children@, kids, 0);
            lemma_all_active_from(*state, kids, 0);
            lemma_names_fit_from(*state, kids, 0);
        }
        let ghost start = texts(lines@);
        let n = node.children.len();
        let mut i: usize = 0;
        while i < n
            invariant
                i <= n,
                n == node.children@.len(),
                n == kids.len(),
                state.wf(),
                t == ATree::Node(id, kids),
                cuttable(drv_name(*state, id), 50),
                forall|j: int| 0 <= j < kids.len() ==> #[trigger] names_fit(*state, kids[j], 48),
                forall|j: int| 0 <= j < kids.len() ==> #[trigger] models(node.children@[j], kids[j]),
                forall|j: int| 0 <= j < kids.len() ==> #[trigger] all_active(*state, kids[j]),
                texts(lines@) == start + kids_lines(*self, *state, now, kids, i as int, "\u{2503} "@),
            decreases n - i,
        {
            self.render_tree_child(state, now, &node.children[i], Ghost(kids[i as int]), i == n - 1, "\u{2503} ", lines);
            proof {
                assert(kids_lines(*self, *state, now, kids, i + 1, "\u{2503} "@) == kids_lines(*self, *state, now, kids, i as int, "\u{2503} "@)
                    + child_lines(*self, *state, now, kids[i as int], i == kids.len() - 1, "\u{2503} "@));
            }
            i += 1;
        }
        let ghost mid = texts(lines@);
        let mut line = tx_string(self, "\u{2503} ", Shade::Blue);
        let label = self.node_label_string(state, node.drv_id, 50);
        line.append(label.as_str());
        let extra = self.root_extra_string(state, now, node.drv_id);
        line.append(extra.as_str());
        lines.push(line);
        proof {
            assert(texts(lines@) =~= mid.push(line@));
            assert(texts(lines@) =~= start + root_lines(*self, *state, now, t));
        }
    }

    /// The dependency tree of the roots that are building or failed.
    pub fn render_tree_view(&self, state: &State, now: u64) -> (r: Vec<String>)
        requires
            state.wf(),
            tree_fits(*state),
        ensures
            texts(r@) == tree_view(*self, *state, now),
    {
        let roots = active_root_ids(state);
        proof {
            assert forall|j: int| 0 <= j < roots@.len() implies is_active(*state, #[trigger] roots@[j]) by {
                state.forest_roots@.lemma_filter_pred(active_in(*state), j);
            }
        }
        let (forest, Ghost(ts)) = build_active_forest(state, &roots);
        let mut lines: Vec<String> = Vec::new();
        if forest.len() == 0 {
            assert(texts(lines@) =~= tree_view(*self, *state, now));
            return lines;
        }
        let mut head = tx_string(self, "\u{250f}\u{2501}", Shade::Blue);
        head.append(" Dependency Graph:");
        let ghost head_v = head@;
        lines.push(head);
        let mut i: usize = 0;
        assert(texts(lines@) =~= seq![head_v]);
        while i < forest.len()
            invariant
                i <= forest@.len(),
                state.wf(),
                forall|j: int| 0 <= j < ts.len() ==> #[trigger] names_fit(*state, ts[j], 50),
                models_all(forest@, ts),
                forall|j: int| 0 <= j < ts.len() ==> #[trigger] all_active(*state, ts[j]),
                texts(lines@) + forest_lines(*self, *state, now, ts, i as int) == seq![head_v] + forest_lines(*self, *state, now, ts, 0),
            decreases forest@.len() - i,
        {
            let ghost before = texts(lines@);
            self.render_tree_node(state, now, &forest[i], Ghost(ts[i as int]), &mut lines);
            proof {
                assert(forest_lines(*self, *state, now, ts, i as int) == root_lines(*self, *state, now, ts[i as int]) + forest_lines(*self, *state, now, ts, i + 1));
                assert(texts(lines@) + forest_lines(*self, *state, now, ts, i + 1) =~= before + forest_lines(*self, *state, now, ts, i as int));
            }
            i += 1;
        }
        proof {
            assert(forest_lines(*self, *state, now, ts, i as int) =~= Seq::<Seq<char>>::empty());
            assert(texts(lines@) =~= texts(lines@) + forest_lines(*self, *state, now, ts, i as int));
            assert(texts(lines@) =~= tree_view(*self, *state, now));
        }
        lines
    }
}

/// Whether the tree view draws something.
pub fn tree_shown(state: &State) -> (r: bool)
    requires
        state.wf(),
    ensures
        r == has_tree(*state),
{
    let roots = active_root_ids(state);
    proof {
        assert forall|j: int| 0 <= j < roots@.len() implies is_active(*state, #[trigger] roots@[j]) by {
            state.forest_roots@.lemma_filter_pred(active_in(*state), j);
        }
    }
    let (forest, Ghost(ts)) = build_active_forest(state, &roots);
    forest.len() > 0
}

/// Whether the name of the tree `node`'s derivation can be cut to `w` bytes
/// and those below it to 48.
fn node_names_fit(state: &State, node: &TreeNode, Ghost(t): Ghost<ATree>, w: usize) -> (r: bool)
    requires
        state.wf(),
        models(*node, t),
        all_active(*state, t),
    ensures
        r == names_fit(*state, t, w as nat),
    decreases t,
{
    let ghost kids = match t {
        ATree::Node(_, k) => k,
    };
    let ghost id = node.drv_id;
    proof {
        assert(t == ATree::Node(id, kids));
        lemma_models_from(node.children@, kids, 0);
        lemma_all_active_from(*state, kids, 0);
        lemma_names_fit_from(*state, kids, 0);
    }
    let info = state.get_derivation_info(node.drv_id).unwrap();
    let name = info.name.name.as_str();
    if !(name.as_bytes().len() <= w || (w >= 1 && name.is_char_boundary(w - 1))) {
        assert(!cuttable(drv_name(*state, id), w as nat));
        return false;
    }
    let n = node.children.len();
    let mut i: usize = 0;
    while i < n
        invariant
            i <= n,
            n == node.children@.len(),
            n == kids.len(),
            t == ATree::Node(id, kids),
            state.wf(),
            forall|j: int| 0 <= j < kids.len() ==> #[trigger] models(node.children@[j], kids[j]),
            forall|j: int| 0 <= j < kids.len() ==> #[trigger] all_active(*state, kids[j]),
            forall|j: int| 0 <= j < i ==> #[trigger] names_fit(*state, kids[j], 48),
            cuttable(drv_name(*state, id), w as nat),
            names_fit_from(*state, kids, 0) <==> forall|j: int| 0 <= j < kids.len() ==> #[trigger] names_fit(
                *state,
                kids[j],
                48,
            ),
        decreases n - i,
    {
        proof {
            assert(t->1 == kids);
            assert(decreases_to!(t => t->1));
            assert(decreases_to!(kids => kids[i as int]));
            assert(decreases_to!(t => kids[i as int]));
        }
        if !node_names_fit(state, &node.children[i], Ghost(kids[i as int]), 48) {
            return false;
        }
        i += 1;
    }
    true
}

/// Whether every derivation the tree view draws has a name that can be cut
/// (a root's to 50 bytes, an input's to 48).
pub fn tree_names_fit(state: &State) -> (r: bool)
    requires
        state.wf(),
    ensures
        r == tree_fits(*state),
{
    let roots = active_root_ids(state);
    proof {
        assert forall|j: int| 0 <= j < roots@.len() implies is_active(*state, #[trigger] roots@[j]) by {
            state.forest_roots@.lemma_filter_pred(active_in(*state), j);
        }
    }
    let (forest, Ghost(ts)) = build_active_forest(state, &roots);
    let mut i: usize = 0;
    while i < forest.len()
        invariant
            i <= forest@.len(),
            state.wf(),
            models_all(forest@, ts),
            ts == active_forest(*state, active_roots(*state), 0, Set::empty()),
            forall|j: int| 0 <= j < ts.len() ==> #[trigger] all_active(*state, ts[j]),
            forall|j: int| 0 <= j < i ==> #[trigger] names_fit(*state, ts[j], 50),
        decreases forest@.len() - i,
    {
        if !node_names_fit(state, &forest[i], Ghost(ts[i as int]), 50) {
            return false;
        }
        i += 1;
    }
    true
}

/// The derivations of a tree: its own, then those of its inputs' trees.
pub open spec fn tree_ids(t: ATree) -> Seq<usize>
    decreases t, 0int,
{
    match t {
        ATree::Node(id, kids) => seq![id] + forest_ids_from(kids, 0),
    }
}

/// The derivations of the trees `ks` from position `i` on, tree by tree.
pub open spec fn forest_ids_from(ks: Seq<ATree>, i: int) -> Seq<usize>
    decreases ks, ks.len() - i,
{
    if i < 0 || i >= ks.len() {
        Seq::empty()
    } else {
        tree_ids(ks[i]) + forest_ids_from(ks, i + 1)
    }
}

/// The derivations the tree view draws, root by root.
pub open spec fn drawn_ids(st: State) -> Seq<usize> {
    forest_ids_from(active_forest(st, active_roots(st), 0, Set::empty()), 0)
}

/// `ids` holds no derivation twice, none of `vis`, and only ones of `v2`.
pub open spec fn fresh_in(ids: Seq<usize>, vis: Set<usize>, v2: Set<usize>) -> bool {
    &&& ids.no_duplicates()
    &&& forall|k: int| 0 <= k < ids.len() ==> !vis.contains(#[trigger] ids[k]) && v2.contains(ids[k])
}

proof fn lemma_forest_ids_shift(n: ATree, r: Seq<ATree>, k: int)
    requires
        0 <= k <= r.len(),
    ensures
        forest_ids_from(seq![n] + r, k + 1) == forest_ids_from(r, k),
    decreases r.len() - k,
{
    let a = seq![n] + r;
    if k < r.len() {
        lemma_forest_ids_shift(n, r, k + 1);
        assert(a[k + 1] == r[k]);
    }
}

/// Ids fresh before `v1` followed by ids fresh from `v1` on are fresh.
proof fn lemma_fresh_concat(a: Seq<usize>, b: Seq<usize>, vis: Set<usize>, v1: Set<usize>, v2: Set<usize>)
    requires
        fresh_in(a, vis, v1),
        fresh_in(b, v1, v2),
        vis.subset_of(v1),
        v1.subset_of(v2),
    ensures
        fresh_in(a + b, vis, v2),
{
    assert forall|i: int, j: int| 0 <= i < a.len() && 0 <= j < b.len() implies a[i] != b[j] by {
        assert(v1.contains(a[i]));
        assert(!v1.contains(b[j]));
    }
    vstd::seq_lib::lemma_no_dup_in_concat(a, b);
    assert forall|k: int| 0 <= k < (a + b).len() implies !vis.contains(#[trigger] (a + b)[k]) && v2.contains(
        (a + b)[k],
    ) by {
        if k < a.len() {
            assert((a + b)[k] == a[k]);
        } else {
            assert((a + b)[k] == b[k - a.len()]);
        }
    }
}

/// The tree built below a derivation draws each derivation once, none drawn
/// before, and all of them are drawn after it.
proof fn lemma_node_fresh(st: State, id: usize, vis: Set<usize>, fuel: nat)
    ensures
        active_node(st, id, vis, fuel).0 matches Some(t) ==> fresh_in(
            tree_ids(t),
            vis,
            active_node(st, id, vis, fuel).1,
        ),
    decreases fuel, 0nat, 0int,
{
    if !vis.contains(id) && id < st.drvs().len() && fuel > 0 {
        let ins = st.drvs()[id as int].input_derivations@;
        let vi = vis.insert(id);
        lemma_kids_fresh(st, ins, 0, vi, (fuel - 1) as nat);
        lemma_kids_grow(st, ins, 0, vi, (fuel - 1) as nat);
        let (kids, v2) = active_kids(st, ins, 0, vi, (fuel - 1) as nat);
        if let Some(ks) = kids {
            let rest = forest_ids_from(ks, 0);
            let head = seq![id];
            assert(fresh_in(head, vis, vi));
            assert(fresh_in(tree_ids(ATree::Node(id, ks)), vis, v2)) by {
                assert(tree_ids(ATree::Node(id, ks)) == head + rest);
                lemma_fresh_concat(head, rest, vis, vi, v2);
            }
        }
    }
}

proof fn lemma_kids_fresh(st: State, ins: Seq<InputDerivation>, i: int, vis: Set<usize>, fuel: nat)
    ensures
        active_kids(st, ins, i, vis, fuel).0 matches Some(ts) ==> fresh_in(
            forest_ids_from(ts, 0),
            vis,
            active_kids(st, ins, i, vis, fuel).1,
        ),
    decreases fuel, 1nat, ins.len() - i,
{
    if i < 0 || i >= ins.len() {
        assert(forest_ids_from(Seq::<ATree>::empty(), 0) =~= Seq::<usize>::empty());
    } else {
        let c = ins[i].derivation;
        if c < st.drvs().len() {
            let (node, v1) = if active_status(st.drvs()[c as int].build_status) {
                lemma_node_fresh(st, c, vis, fuel);
                lemma_active_grows(st, c, vis, fuel);
                active_node(st, c, vis, fuel)
            } else {
                (None, vis)
            };
            lemma_kids_fresh(st, ins, i + 1, v1, fuel);
            lemma_kids_grow(st, ins, i + 1, v1, fuel);
            let (rest, v2) = active_kids(st, ins, i + 1, v1, fuel);
            if let Some(r) = rest {
                let rids = forest_ids_from(r, 0);
                match node {
                    Some(n) => {
                        let all = seq![n] + r;
                        assert(all[0] == n);
                        lemma_forest_ids_shift(n, r, 0);
                        assert(forest_ids_from(all, 0) == tree_ids(n) + rids);
                        lemma_fresh_concat(tree_ids(n), rids, vis, v1, v2);
                    },
                    None => {
                        assert forall|k: int| 0 <= k < rids.len() implies !vis.contains(#[trigger] rids[k])
                            && v2.contains(rids[k]) by {
                            assert(!v1.contains(rids[k]));
                        }
                    },
                }
            }
        }
    }
}

/// The trees of the roots from position `i` on draw each derivation once and
/// none of `vis`.
proof fn lemma_forest_fresh(st: State, roots: Seq<usize>, i: int, vis: Set<usize>)
    ensures
        forest_ids_from(active_forest(st, roots, i, vis), 0).no_duplicates(),
        forall|k: int|
            0 <= k < forest_ids_from(active_forest(st, roots, i, vis), 0).len() ==> !vis.contains(
                #[trigger] forest_ids_from(active_forest(st, roots, i, vis), 0)[k],
            ),
    decreases roots.len() - i,
{
    if i < 0 || i >= roots.len() {
        assert(forest_ids_from(Seq::<ATree>::empty(), 0) =~= Seq::<usize>::empty());
    } else {
        let fuel = (st.drvs().len() + 1) as nat;
        lemma_node_fresh(st, roots[i], vis, fuel);
        lemma_active_grows(st, roots[i], vis, fuel);
        let (t, v) = active_node(st, roots[i], vis, fuel);
        lemma_forest_fresh(st, roots, i + 1, v);
        let rest = active_forest(st, roots, i + 1, v);
        let rids = forest_ids_from(rest, 0);
        match t {
            Some(n) => {
                let all = seq![n] + rest;
                assert(all[0] == n);
                lemma_forest_ids_shift(n, rest, 0);
                assert(forest_ids_from(all, 0) == tree_ids(n) + rids);
                let everything = Set::<usize>::full();
                assert(fresh_in(rids, v, everything));
                lemma_fresh_concat(tree_ids(n), rids, vis, v, everything);
            },
            None => {
                assert forall|k: int| 0 <= k < rids.len() implies !vis.contains(#[trigger] rids[k]) by {
                    assert(!v.contains(rids[k]));
                }
            },
        }
    }
}

/// The tree view draws no derivation twice: following every input of every
/// drawn derivation, a derivation reached again (through another parent, or
/// around a cycle) is left out.
pub proof fn law_tree_draws_once(st: State)
    ensures
        drawn_ids(st).no_duplicates(),
{
    lemma_forest_fresh(st, active_roots(st), 0, Set::empty());
}

/// Every format shows a state with the same icon of the configured set and
/// the same color: a running build with the running icon (`⏵` among the
/// Unicode ones) in yellow, a finished one with the done icon (`✔`) in green,
/// a failed one with the failed icon (`✗`) in red, a planned one with the
/// planned icon (`⏸`) in grey; the tree's status icons and the legends' counts
/// agree, and time is shown after the clock icon (`⏱`) in grey.
pub proof fn law_status_icons(d: Display, st: State, now: u64, s: BuildStatus)
    ensures
        s is Building ==> status_icon(d, s) == d.config.icons.running@ && status_shade(s) == Shade::Yellow,
        s is Built ==> status_icon(d, s) == d.config.icons.done@ && status_shade(s) == Shade::Green,
        s is Failed ==> status_icon(d, s) == d.config.icons.failed@ && status_shade(s) == Shade::Red,
        s is Planned ==> status_icon(d, s) == d.config.icons.planned@ && status_shade(s) == Shade::Grey,
        build_counts(d, st)[0] == count_part(d, d.config.icons.running@, Shade::Yellow, st.full_summary@.running_builds.len()),
        build_counts(d, st)[1] == count_part(d, d.config.icons.done@, Shade::Green, st.full_summary@.completed_builds.len()),
        build_counts(d, st)[2] == count_part(d, d.config.icons.failed@, Shade::Red, st.full_summary@.failed_builds.len()),
        build_counts(d, st)[3] == count_part(d, d.config.icons.planned@, Shade::Grey, st.full_summary@.planned_builds.len()),
        clock_part(d, st, now) == tx(d, d.config.icons.clock@, Shade::DarkGrey) + " "@ + tx(
            d,
            ms_text(since(now, st.start_time)),
            Shade::DarkGrey,
        ),
{
}


/// A building root with an estimate shows, after its name, the whole seconds
/// its estimate leaves: the estimate less the whole seconds the build has run,
/// and zero once the estimate has passed; then the time it has run.  (Here
/// for a build without an activity, so without a phase.)
pub proof fn law_root_estimate_left(d: Display, st: State, now: u64, id: usize)
    requires
        id < st.drvs().len(),
        st.drvs()[id as int].build_status matches BuildStatus::Building(b) && b.estimate is Some
            && b.activity_id is None,
    ensures
        ({
            let b = st.drvs()[id as int].build_status->Building_0;
            let e = b.estimate.unwrap() as int;
            let ms = since(now, b.start) as int;
            exists|left: nat|
                {
                    &&& left * 1000 + ms >= e * 1000
                    &&& left > 0 ==> left * 1000 + ms < (e + 1) * 1000
                    &&& root_extra(d, st, now, id) == tx(
                        d,
                        " "@ + d.config.icons.estimate@ + " "@ + #[trigger] secs_text(left),
                        Shade::DarkGrey,
                    ) + tx(d, " "@ + d.config.icons.clock@ + " "@ + ms_text(ms as nat), Shade::DarkGrey)
                }
        }),
{
    let b = st.drvs()[id as int].build_status->Building_0;
    let e = b.estimate.unwrap() as nat;
    let ms = since(now, b.start);
    let left = sat_sub(e, ms / 1000);
    assert(left * 1000 + ms >= e * 1000 && (left > 0 ==> left * 1000 + ms < (e + 1) * 1000)) by (nonlinear_arith)
        requires
            left == (if e >= ms / 1000 {
                (e - ms / 1000) as nat
            } else {
                0nat
            }),
            ms >= 0,
    {
        assert(ms == (ms / 1000) * 1000 + ms % 1000);
    }
    assert(root_extra(d, st, now, id) =~= Seq::<char>::empty() + tx(
        d,
        " "@ + d.config.icons.estimate@ + " "@ + secs_text(left),
        Shade::DarkGrey,
    ) + tx(d, " "@ + d.config.icons.clock@ + " "@ + ms_text(ms), Shade::DarkGrey));
}

} // verus!
