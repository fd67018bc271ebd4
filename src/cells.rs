//! ahash's map and set, keyed by a cell's axial components.
use vstd::prelude::*;

verus! {

/// ahash's hash map, opaque; what it holds is named by `cell_map_contents`.
#[verifier::external_type_specification]
#[verifier::external_body]
#[verifier::reject_recursive_types(K)]
#[verifier::reject_recursive_types(V)]
#[verifier::reject_recursive_types(S)]
pub struct ExAHashMap<K, V, S>(ahash::AHashMap<K, V, S>);

/// ahash's hash set, opaque; what it holds is named by `cell_set_contents`.
#[verifier::external_type_specification]
#[verifier::external_body]
#[verifier::reject_recursive_types(T)]
#[verifier::reject_recursive_types(S)]
pub struct ExAHashSet<T, S>(ahash::AHashSet<T, S>);

/// ahash's hasher builder, the maps' and sets' default third parameter.
#[verifier::external_type_specification]
#[verifier::external_body]
pub struct ExRandomState(ahash::RandomState);

/// The hash-map key of a cell: its `x` and `y`.
pub type CellKey = (i32, i32);

/// A map from cells to bit masks.
pub type CellMap = ahash::AHashMap<(i32, i32), u8>;

/// A set of cells.
pub type CellSet = ahash::AHashSet<(i32, i32)>;

/// What a `CellMap` holds.
pub uninterp spec fn cell_map_contents(m: CellMap) -> Map<CellKey, u8>;

/// What a `CellSet` holds.
pub uninterp spec fn cell_set_contents(s: CellSet) -> Set<CellKey>;

/// Relies on `ahash::AHashMap::new`: an empty map.
#[verifier::external_body]
pub(crate) fn map_new() -> (r: CellMap)
    ensures
        cell_map_contents(r) =~= Map::empty(),
{
    ahash::AHashMap::new()
}

/// Relies on `ahash::AHashMap::get`: the value stored under `k`, if any.
#[verifier::external_body]
pub(crate) fn map_get(m: &CellMap, k: (i32, i32)) -> (r: Option<u8>)
    ensures
        r == (if cell_map_contents(*m).contains_key(k) {
            Some(cell_map_contents(*m)[k])
        } else {
            None
        }),
{
    m.get(&k).copied()
}

/// Relies on `ahash::AHashMap::insert`: `k` maps to `v` afterwards, other keys unchanged.
#[verifier::external_body]
pub(crate) fn map_insert(m: &mut CellMap, k: (i32, i32), v: u8)
    ensures
        cell_map_contents(*final(m)) == cell_map_contents(*old(m)).insert(k, v),
{
    m.insert(k, v);
}

/// Relies on `ahash::AHashMap::remove`: `k` is absent afterwards, other keys unchanged.
#[verifier::external_body]
pub(crate) fn map_remove(m: &mut CellMap, k: (i32, i32))
    ensures
        cell_map_contents(*final(m)) == cell_map_contents(*old(m)).remove(k),
{
    m.remove(&k);
}

/// Relies on `HashMap::keys` (reached through `AHashMap`'s `Deref`): every key once,
/// in an order that depends on the map's random hasher.
#[verifier::external_body]
pub(crate) fn map_keys(m: &CellMap) -> (r: Vec<(i32, i32)>)
    ensures
        r@.to_set() == cell_map_contents(*m).dom(),
        r@.no_duplicates(),
{
    m.keys().copied().collect()
}

/// Relies on `ahash::AHashSet::new`: an empty set.
#[verifier::external_body]
pub(crate) fn set_new() -> (r: CellSet)
    ensures
        cell_set_contents(r) =~= Set::empty(),
{
    ahash::AHashSet::new()
}

/// Relies on `HashSet::insert` (reached through `AHashSet`'s `DerefMut`): `k` is a
/// member afterwards, others unchanged.
#[verifier::external_body]
pub(crate) fn set_insert(s: &mut CellSet, k: (i32, i32))
    ensures
        cell_set_contents(*final(s)) == cell_set_contents(*old(s)).insert(k),
{
    s.insert(k);
}

/// Relies on `HashSet::contains` (reached through `AHashSet`'s `Deref`): membership.
#[verifier::external_body]
pub(crate) fn set_contains(s: &CellSet, k: (i32, i32)) -> (r: bool)
    ensures
        r == cell_set_contents(*s).contains(k),
{
    s.contains(&k)
}

} // verus!
