//! `indexmap::IndexSet<String>`, the insertion-ordered set that the key of a
//! materialized disjunction is collected in.
//!
//! Everything here is taken on trust from the `indexmap` crate: a name for what a set
//! holds, and one wrapper for each method that the lowering calls.

use vstd::prelude::*;

use crate::ast::{names, Name};
use crate::vars::{is_key_var, key_var, var_sets, VarSet};
use indexmap::IndexSet;

verus! {

/// `indexmap::IndexSet`, with its own parameters.
#[verifier::external_type_specification]
#[verifier::external_body]
#[verifier::reject_recursive_types(T)]
#[verifier::reject_recursive_types(S)]
pub struct ExIndexSet<T, S>(indexmap::IndexSet<T, S>);

/// What a set of strings holds, in its iteration order.
pub uninterp spec fn index_set_items(set: IndexSet<String>) -> Seq<Name>;

/// Wraps `IndexSet::new`: the new set is empty.
#[verifier::external_body]
pub(crate) fn index_set_new() -> (set: IndexSet<String>)
    ensures
        index_set_items(set) == Seq::<Name>::empty(),
{
    IndexSet::new()
}

/// Wraps `IndexSet::insert`: a value that the set holds already changes nothing, any
/// other value goes to the end; the result says which of the two happened.
#[verifier::external_body]
pub(crate) fn index_set_insert(set: &mut IndexSet<String>, value: String) -> (inserted: bool)
    ensures
        inserted == !index_set_items(*old(set)).contains(value@),
        index_set_items(*final(set)) == if index_set_items(*old(set)).contains(value@) {
            index_set_items(*old(set))
        } else {
            index_set_items(*old(set)).push(value@)
        },
{
    set.insert(value)
}

/// Wraps `IndexSet::retain`, with membership in the key of a disjunction as the
/// predicate: the values that are key variables stay, in their order.
#[verifier::external_body]
pub(crate) fn index_set_retain_key(
    set: &mut IndexSet<String>,
    bound: &VarSet,
    branch_vars: &Vec<VarSet>,
)
    ensures
        index_set_items(*final(set)) == index_set_items(*old(set)).filter(
            |v: Name| key_var(v, bound@.to_set(), var_sets(branch_vars@)),
        ),
{
    set.retain(|v| is_key_var(v, bound, branch_vars))
}

/// Wraps `IndexSet::contains`: whether the set holds the value.
#[verifier::external_body]
pub(crate) fn index_set_contains(set: &IndexSet<String>, value: &String) -> (found: bool)
    ensures
        found == index_set_items(*set).contains(value@),
{
    set.contains(value)
}

/// Wraps `IndexSet::into_iter`: the values come out in their order.
#[verifier::external_body]
pub(crate) fn index_set_into_vec(set: IndexSet<String>) -> (values: Vec<String>)
    ensures
        names(values@) == index_set_items(set),
{
    set.into_iter().collect()
}

} // verus!
