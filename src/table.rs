//! Insertion-ordered id tables backed by `indexmap` with the Fx hasher.
//!
//! Each table is modelled by the sequence of its entries in insertion order;
//! every operation the library uses is stated over that sequence.
use indexmap::{IndexMap, IndexSet};
use rustc_hash::FxBuildHasher;
use vstd::prelude::*;

verus! {

#[verifier::external_type_specification]
#[verifier::external_body]
#[verifier::reject_recursive_types(K)]
#[verifier::reject_recursive_types(V)]
#[verifier::reject_recursive_types(S)]
pub struct ExIndexMap<K, V, S>(IndexMap<K, V, S>);

#[verifier::external_type_specification]
#[verifier::external_body]
#[verifier::reject_recursive_types(T)]
#[verifier::reject_recursive_types(S)]
pub struct ExIndexSet<T, S>(IndexSet<T, S>);

#[verifier::external_type_specification]
#[verifier::external_body]
pub struct ExFxBuildHasher(FxBuildHasher);

/// Map from an id to an id, in insertion order.
pub(crate) type IdMap = IndexMap<u64, u64, FxBuildHasher>;

/// Set of ids, in insertion order.
pub(crate) type IdSet = IndexSet<u64, FxBuildHasher>;

/// The entries of an `IdMap`, in its order.
pub uninterp spec fn map_entries(m: IndexMap<u64, u64, FxBuildHasher>) -> Seq<(u64, u64)>;

/// The items of an `IdSet`, in its order.
pub uninterp spec fn set_items(s: IndexSet<u64, FxBuildHasher>) -> Seq<u64>;

/// No key occurs twice among the entries.
pub open spec fn keys_distinct(e: Seq<(u64, u64)>) -> bool {
    forall|i: int, j: int| 0 <= i < j < e.len() ==> e[i].0 != e[j].0
}

/// The key `k` stands at position `i` of the entries.
pub open spec fn key_at(e: Seq<(u64, u64)>, k: u64, i: int) -> bool {
    0 <= i < e.len() && e[i].0 == k
}

/// Some entry has key `k`.
pub open spec fn has_key(e: Seq<(u64, u64)>, k: u64) -> bool {
    exists|i: int| key_at(e, k, i)
}

/// Relies on `IndexMap::with_hasher`: a new map holds no entries.
#[verifier::external_body]
pub(crate) fn map_new() -> (r: IdMap)
    ensures
        map_entries(r) == Seq::<(u64, u64)>::empty(),
{
    IndexMap::with_hasher(FxBuildHasher)
}

/// Relies on `IndexMap::len`: the number of entries.
#[verifier::external_body]
pub(crate) fn map_len(m: &IdMap) -> (r: usize)
    ensures
        r == map_entries(*m).len(),
{
    m.len()
}

/// Relies on `IndexMap::insert` for a key that is not present: the entry is
/// appended last and `None` comes back.
#[verifier::external_body]
pub(crate) fn map_insert_new(m: &mut IdMap, k: u64, v: u64)
    requires
        !has_key(map_entries(*old(m)), k),
    ensures
        map_entries(*final(m)) == map_entries(*old(m)).push((k, v)),
{
    m.insert(k, v);
}

/// Relies on `IndexMap::get_index_of`: the position of the entry with key `k`.
#[verifier::external_body]
pub(crate) fn map_index_of(m: &IdMap, k: u64) -> (r: Option<usize>)
    ensures
        match r {
            Some(i) => key_at(map_entries(*m), k, i as int),
            None => !has_key(map_entries(*m), k),
        },
{
    m.get_index_of(&k)
}

/// Relies on `IndexMap::get_index`: the entry at position `i`.
#[verifier::external_body]
pub(crate) fn map_entry_at(m: &IdMap, i: usize) -> (r: (u64, u64))
    requires
        i < map_entries(*m).len(),
    ensures
        r == map_entries(*m)[i as int],
{
    let (k, v) = m.get_index(i).unwrap();
    (*k, *v)
}

/// Relies on `IndexMap::shift_remove_full`: the entry with key `k` is taken
/// out, the later entries keep their order, and its position and value come
/// back.
#[verifier::external_body]
pub(crate) fn map_shift_remove(m: &mut IdMap, k: u64) -> (r: Option<(usize, u64)>)
    ensures
        match r {
            Some((i, v)) => key_at(map_entries(*old(m)), k, i as int)
                && map_entries(*old(m))[i as int].1 == v
                && map_entries(*final(m)) == map_entries(*old(m)).remove(i as int),
            None => !has_key(map_entries(*old(m)), k)
                && map_entries(*final(m)) == map_entries(*old(m)),
        },
{
    m.shift_remove_full(&k).map(|(i, _, v)| (i, v))
}

/// Relies on `IndexSet::with_hasher`: a new set holds no items.
#[verifier::external_body]
pub(crate) fn set_new() -> (r: IdSet)
    ensures
        set_items(r) == Seq::<u64>::empty(),
{
    IndexSet::with_hasher(FxBuildHasher)
}

/// Relies on `IndexSet::len`: the number of items.
#[verifier::external_body]
pub(crate) fn set_len(s: &IdSet) -> (r: usize)
    ensures
        r == set_items(*s).len(),
{
    s.len()
}

/// Relies on `IndexSet::contains`: whether `x` is an item.
#[verifier::external_body]
pub(crate) fn set_contains(s: &IdSet, x: u64) -> (r: bool)
    ensures
        r == set_items(*s).contains(x),
{
    s.contains(&x)
}

/// Relies on `IndexSet::insert` for an item that is not present: it is
/// appended last.
#[verifier::external_body]
pub(crate) fn set_insert_new(s: &mut IdSet, x: u64)
    requires
        !set_items(*old(s)).contains(x),
    ensures
        set_items(*final(s)) == set_items(*old(s)).push(x),
{
    s.insert(x);
}

/// Relies on `IndexSet::get_index`: the item at position `i`.
#[verifier::external_body]
pub(crate) fn set_item_at(s: &IdSet, i: usize) -> (r: u64)
    requires
        i < set_items(*s).len(),
    ensures
        r == set_items(*s)[i as int],
{
    *s.get_index(i).unwrap()
}

/// Relies on `IndexSet::shift_remove_full`: the item `x` is taken out, the
/// later items keep their order, and its position comes back.
#[verifier::external_body]
pub(crate) fn set_shift_remove(s: &mut IdSet, x: u64) -> (r: Option<usize>)
    ensures
        match r {
            Some(i) => 0 <= i < set_items(*old(s)).len()
                && set_items(*old(s))[i as int] == x
                && set_items(*final(s)) == set_items(*old(s)).remove(i as int),
            None => !set_items(*old(s)).contains(x)
                && set_items(*final(s)) == set_items(*old(s)),
        },
{
    s.shift_remove_full(&x).map(|(i, _)| i)
}

} // verus!
