//! The insertion-ordered hash set that keeps the rows of a table.

use indexmap::IndexSet;
use vstd::prelude::*;

verus! {

/// `indexmap::IndexSet`, a hash set that keeps its items in the order in
/// which they were inserted; nothing of its inside is known here.
#[verifier::external_type_specification]
#[verifier::external_body]
#[verifier::reject_recursive_types(T)]
#[verifier::reject_recursive_types(S)]
pub struct ExIndexSet<T, S>(IndexSet<T, S>);

/// The rows held by an insertion-ordered set, in the order in which they were
/// first inserted.
pub uninterp spec fn set_rows(set: IndexSet<Vec<i32>>) -> Seq<Seq<i32>>;

/// `IndexSet::new`: the new set holds nothing.
#[verifier::external_body]
pub(crate) fn row_set_new() -> (set: IndexSet<Vec<i32>>)
    ensures
        set_rows(set) == Seq::<Seq<i32>>::empty(),
{
    IndexSet::new()
}

/// `IndexSet::insert`: a row equal to one already held leaves the set as it
/// was and gives `false`; any other row is appended after the rows already
/// held and gives `true`.
#[verifier::external_body]
pub(crate) fn row_set_insert(set: &mut IndexSet<Vec<i32>>, row: Vec<i32>) -> (added: bool)
    ensures
        added == !set_rows(*old(set)).contains(row@),
        set_rows(*final(set)) == if added {
            set_rows(*old(set)).push(row@)
        } else {
            set_rows(*old(set))
        },
{
    set.insert(row)
}

/// `IndexSet::clone`: a set that holds the same rows in the same order.
#[verifier::external_body]
pub(crate) fn row_set_clone(set: &IndexSet<Vec<i32>>) -> (copy: IndexSet<Vec<i32>>)
    ensures
        set_rows(copy) == set_rows(*set),
{
    set.clone()
}

/// `IndexSet::len`: the number of rows held.
#[verifier::external_body]
pub(crate) fn row_set_len(set: &IndexSet<Vec<i32>>) -> (n: usize)
    ensures
        n == set_rows(*set).len(),
{
    set.len()
}

/// `IndexSet::get_index`: the row at a valid index, nothing past the end.
#[verifier::external_body]
pub(crate) fn row_set_get(set: &IndexSet<Vec<i32>>, index: usize) -> (row: Option<&Vec<i32>>)
    ensures
        match row {
            Some(r) => index < set_rows(*set).len() && r@ == set_rows(*set)[index as int],
            None => index >= set_rows(*set).len(),
        },
{
    set.get_index(index)
}

/// `IndexSet::get_index_of`: the index at which an equal row is held, if any.
#[verifier::external_body]
pub(crate) fn row_set_position(set: &IndexSet<Vec<i32>>, row: &[i32]) -> (index: Option<usize>)
    ensures
        match index {
            Some(i) => i < set_rows(*set).len() && set_rows(*set)[i as int] == row@,
            None => !set_rows(*set).contains(row@),
        },
{
    set.get_index_of(row)
}

} // verus!
