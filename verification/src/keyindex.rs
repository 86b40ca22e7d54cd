//! An index of keys in the order of their insertion, kept by the `indexmap`
//! crate: the parser finds out with it whether a key came before, and where.

use indexmap::IndexSet;
use vstd::prelude::*;

verus! {

/// The set of the `indexmap` crate that keeps its items in the order of
/// their insertion, carried through unopened.
#[verifier::external_type_specification]
#[verifier::external_body]
#[verifier::reject_recursive_types(T)]
#[verifier::reject_recursive_types(S)]
pub struct ExIndexSet<T, S>(indexmap::IndexSet<T, S>);

/// The keys that an index holds, in the order in which they were inserted.
pub uninterp spec fn index_keys(index: IndexSet<String>) -> Seq<Seq<char>>;

/// `IndexSet::new` creates a set without items.
#[verifier::external_body]
pub(crate) fn index_new() -> (index: IndexSet<String>)
    ensures
        index_keys(index) == Seq::<Seq<char>>::empty(),
{
    IndexSet::new()
}

/// `IndexSet::insert_full` inserts an item and returns its index. Where an
/// equal item is in the set, the set stays as it is, and the index of that
/// item comes back with `false`. Otherwise the item is inserted behind all
/// others, and its index comes back with `true`.
#[verifier::external_body]
pub(crate) fn index_insert(index: &mut IndexSet<String>, key: String) -> (r: (usize, bool))
    ensures
        r.1 ==> {
            &&& index_keys(*final(index)) == index_keys(*old(index)).push(key@)
            &&& r.0 == index_keys(*old(index)).len()
            &&& !index_keys(*old(index)).contains(key@)
        },
        !r.1 ==> {
            &&& index_keys(*final(index)) == index_keys(*old(index))
            &&& r.0 < index_keys(*old(index)).len()
            &&& index_keys(*old(index))[r.0 as int] == key@
        },
{
    index.insert_full(key)
}

} // verus!
