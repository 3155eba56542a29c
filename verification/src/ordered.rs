//! Insertion-ordered tables of derivations and store paths, kept in
//! `indexmap::IndexMap`s.
use vstd::prelude::*;
use indexmap::IndexMap;
use crate::state::{DerivationInfo, StorePathInfo};

verus! {

#[verifier::external_type_specification]
#[verifier::external_body]
#[verifier::reject_recursive_types(K)]
#[verifier::reject_recursive_types(V)]
#[verifier::reject_recursive_types(S)]
pub struct ExIndexMap<K, V, S>(IndexMap<K, V, S>);

/// The entries of a derivation table, in insertion order.
pub uninterp spec fn derivation_entries(m: IndexMap<usize, DerivationInfo>) -> Seq<
    (usize, DerivationInfo),
>;

/// The entries of a store path table, in insertion order.
pub uninterp spec fn store_path_entries(m: IndexMap<usize, StorePathInfo>) -> Seq<
    (usize, StorePathInfo),
>;

/// Position of the first entry at or after `i` with key `k`.
pub open spec fn key_index_from<V>(e: Seq<(usize, V)>, k: usize, i: int) -> Option<int>
    decreases e.len() - i,
{
    if i < 0 || i >= e.len() {
        None
    } else if e[i].0 == k {
        Some(i)
    } else {
        key_index_from(e, k, i + 1)
    }
}

/// Position of the first entry with key `k`.
pub open spec fn key_index<V>(e: Seq<(usize, V)>, k: usize) -> Option<int> {
    key_index_from(e, k, 0)
}

/// Keys `0, 1, 2, ...` in insertion order.
pub open spec fn dense<V>(e: Seq<(usize, V)>) -> bool {
    forall|i: int| 0 <= i < e.len() ==> (#[trigger] e[i]).0 == i
}

/// In a table whose keys are their positions, key `k` is at position `k`.
pub proof fn lemma_dense_key_index<V>(e: Seq<(usize, V)>, k: usize)
    requires
        dense(e),
    ensures
        key_index(e, k) == (if k < e.len() { Some(k as int) } else { None::<int> }),
{
    lemma_dense_key_index_from(e, k, 0);
}

proof fn lemma_dense_key_index_from<V>(e: Seq<(usize, V)>, k: usize, i: int)
    requires
        dense(e),
        0 <= i <= k,
    ensures
        key_index_from(e, k, i) == (if k < e.len() { Some(k as int) } else { None::<int> }),
    decreases e.len() - i,
{
    if i < e.len() && i < k {
        assert(e[i].0 == i);
        lemma_dense_key_index_from(e, k, i + 1);
    } else if i < e.len() {
        assert(e[i].0 == i);
    }
}

/// `IndexMap::new`: an empty table.
#[verifier::external_body]
pub fn drv_table_new() -> (m: IndexMap<usize, DerivationInfo>)
    ensures
        derivation_entries(m) == Seq::<(usize, DerivationInfo)>::empty(),
{
    IndexMap::new()
}

/// `IndexMap::get`: the value of the entry with key `k`.
#[verifier::external_body]
pub fn drv_table_get(m: &IndexMap<usize, DerivationInfo>, k: usize) -> (r: Option<&DerivationInfo>)
    ensures
        match key_index(derivation_entries(*m), k) {
            Some(i) => r == Some(&derivation_entries(*m)[i].1),
            None => r is None,
        },
{
    m.get(&k)
}

/// `IndexMap::get_index`: the entry at position `i` in insertion order.
#[verifier::external_body]
pub fn drv_table_get_index(m: &IndexMap<usize, DerivationInfo>, i: usize) -> (r: Option<
    (&usize, &DerivationInfo),
>)
    ensures
        i < derivation_entries(*m).len() ==> r == Some(
            (&derivation_entries(*m)[i as int].0, &derivation_entries(*m)[i as int].1),
        ),
        i >= derivation_entries(*m).len() ==> r is None,
{
    m.get_index(i)
}

/// `IndexMap::insert`: an existing key keeps its place and gets the new value
/// (the old one is returned); a new key is added last.
#[verifier::external_body]
pub fn drv_table_insert(m: &mut IndexMap<usize, DerivationInfo>, k: usize, v: DerivationInfo) -> (r:
    Option<DerivationInfo>)
    ensures
        match key_index(derivation_entries(*old(m)), k) {
            Some(i) => derivation_entries(*final(m)) == derivation_entries(*old(m)).update(
                i,
                (k, v),
            ) && r == Some(derivation_entries(*old(m))[i].1),
            None => derivation_entries(*final(m)) == derivation_entries(*old(m)).push((k, v))
                && r is None,
        },
{
    m.insert(k, v)
}

/// `IndexMap::new`: an empty table.
#[verifier::external_body]
pub fn path_table_new() -> (m: IndexMap<usize, StorePathInfo>)
    ensures
        store_path_entries(m) == Seq::<(usize, StorePathInfo)>::empty(),
{
    IndexMap::new()
}

/// `IndexMap::get`: the value of the entry with key `k`.
#[verifier::external_body]
pub fn path_table_get(m: &IndexMap<usize, StorePathInfo>, k: usize) -> (r: Option<&StorePathInfo>)
    ensures
        match key_index(store_path_entries(*m), k) {
            Some(i) => r == Some(&store_path_entries(*m)[i].1),
            None => r is None,
        },
{
    m.get(&k)
}

/// `IndexMap::get_index`: the entry at position `i` in insertion order.
#[verifier::external_body]
pub fn path_table_get_index(m: &IndexMap<usize, StorePathInfo>, i: usize) -> (r: Option<
    (&usize, &StorePathInfo),
>)
    ensures
        i < store_path_entries(*m).len() ==> r == Some(
            (&store_path_entries(*m)[i as int].0, &store_path_entries(*m)[i as int].1),
        ),
        i >= store_path_entries(*m).len() ==> r is None,
{
    m.get_index(i)
}

/// `IndexMap::insert`: an existing key keeps its place and gets the new value
/// (the old one is returned); a new key is added last.
#[verifier::external_body]
pub fn path_table_insert(m: &mut IndexMap<usize, StorePathInfo>, k: usize, v: StorePathInfo) -> (r:
    Option<StorePathInfo>)
    ensures
        match key_index(store_path_entries(*old(m)), k) {
            Some(i) => store_path_entries(*final(m)) == store_path_entries(*old(m)).update(
                i,
                (k, v),
            ) && r == Some(store_path_entries(*old(m))[i].1),
            None => store_path_entries(*final(m)) == store_path_entries(*old(m)).push((k, v))
                && r is None,
        },
{
    m.insert(k, v)
}

} // verus!
