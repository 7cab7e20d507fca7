//! Splitting the keys into the variables that leave them and those that stay.

use crate::array::Array;
use crate::descriptor::{columns_of, first_missing, indices_view, missing_message, project, Descriptor};
use crate::error::Error;
use crate::labels::{
    names_error, same_text, single_view, strs_view, LabelValue, Labels, LabelsBuilder, LabelsView,
};
use vstd::prelude::*;

verus! {

/// The distinct rows of `rows`, each at the place of its first occurrence.
pub open spec fn first_seen(rows: Seq<Seq<LabelValue>>) -> Seq<Seq<LabelValue>>
    decreases rows.len(),
{
    if rows.len() == 0 {
        Seq::empty()
    } else {
        let seen = first_seen(rows.drop_last());
        if seen.contains(rows.last()) {
            seen
        } else {
            seen.push(rows.last())
        }
    }
}

/// Every row reduced to its entries in `columns`.
pub open spec fn projections(rows: Seq<Seq<LabelValue>>, columns: Seq<int>) -> Seq<Seq<LabelValue>> {
    Seq::new(rows.len(), |i: int| project(rows[i], columns))
}

/// The indices of the columns whose name is not among `variables`, ascending.
pub open spec fn kept_columns(names: Seq<Seq<char>>, variables: Seq<Seq<char>>) -> Seq<int>
    decreases names.len(),
{
    if names.len() == 0 {
        Seq::empty()
    } else {
        let kept = kept_columns(names.drop_last(), variables);
        if variables.contains(names.last()) {
            kept
        } else {
            kept.push(names.len() - 1)
        }
    }
}

/// The names of the given columns.
pub open spec fn names_of(names: Seq<Seq<char>>, columns: Seq<int>) -> Seq<Seq<char>> {
    Seq::new(columns.len(), |k: int| names[columns[k]])
}

/// The variables to move are columns of the keys, each named once.
pub open spec fn valid_variables(names: Seq<Seq<char>>, variables: Seq<Seq<char>>) -> bool {
    &&& variables.no_duplicates()
    &&& forall|k: int| 0 <= k < variables.len() ==> names.contains(#[trigger] variables[k])
}

/// The message that refuses the variables, if they are refused: it names
/// the first that is no column of the keys, or tells that one is given twice.
pub open spec fn variables_error(names: Seq<Seq<char>>, variables: Seq<Seq<char>>) -> Option<Seq<char>> {
    if first_missing(names, variables, 0) < variables.len() {
        Some(missing_message(variables[first_missing(names, variables, 0)]))
    } else {
        names_error(variables)
    }
}

/// The values that the moved variables take in the keys: the distinct rows of
/// the keys reduced to the variables, in the order in which they first occur.
pub open spec fn moved_values(keys: LabelsView, variables: Seq<Seq<char>>) -> LabelsView {
    LabelsView { names: variables, rows: first_seen(projections(keys.rows, columns_of(keys.names, variables))) }
}

/// The keys without the moved variables: the distinct rows of the keys
/// reduced to the other columns, in the order in which they first occur; the
/// single-row table when no column is left.
pub open spec fn remaining_keys(keys: LabelsView, variables: Seq<Seq<char>>) -> LabelsView {
    let kept = kept_columns(keys.names, variables);
    if kept.len() == 0 {
        single_view()
    } else {
        LabelsView { names: names_of(keys.names, kept), rows: first_seen(projections(keys.rows, kept)) }
    }
}

/// The kept columns are columns of the table, in ascending order, and they
/// are those whose name is not a variable.
pub proof fn lemma_kept_columns(names: Seq<Seq<char>>, variables: Seq<Seq<char>>)
    ensures
        forall|k: int|
            0 <= k < kept_columns(names, variables).len() ==> 0 <= (#[trigger] kept_columns(names, variables)[k])
                < names.len() && !variables.contains(names[kept_columns(names, variables)[k]]),
        forall|k: int, l: int|
            0 <= k < l < kept_columns(names, variables).len() ==> kept_columns(names, variables)[k]
                < kept_columns(names, variables)[l],
        forall|i: int|
            0 <= i < names.len() && !variables.contains(names[i]) ==> kept_columns(names, variables).contains(i),
    decreases names.len(),
{
    if names.len() > 0 {
        let shorter = names.drop_last();
        lemma_kept_columns(shorter, variables);
        let kept = kept_columns(names, variables);
        let rest = kept_columns(shorter, variables);
        assert forall|i: int| 0 <= i < names.len() && !variables.contains(names[i]) implies kept.contains(i) by {
            if i < shorter.len() {
                assert(shorter[i] == names[i]);
                assert(rest.contains(i));
                let k = choose|k: int| 0 <= k < rest.len() && rest[k] == i;
                assert(kept[k] == i);
            } else {
                assert(kept[kept.len() - 1] == i);
            }
        }
        assert forall|k: int| 0 <= k < kept.len() implies 0 <= (#[trigger] kept[k]) < names.len()
            && !variables.contains(names[kept[k]]) by {
            if k < rest.len() {
                assert(shorter[rest[k]] == names[rest[k]]);
            }
        }
    }
}

/// A row is among the distinct rows exactly when it is among the rows.
pub proof fn lemma_first_seen_contains(rows: Seq<Seq<LabelValue>>, row: Seq<LabelValue>)
    ensures
        first_seen(rows).contains(row) <==> rows.contains(row),
    decreases rows.len(),
{
    if rows.len() > 0 {
        let shorter = rows.drop_last();
        lemma_first_seen_contains(shorter, row);
        let seen = first_seen(shorter);
        let all = first_seen(rows);
        if all.contains(row) {
            let k = choose|k: int| 0 <= k < all.len() && all[k] == row;
            if k < seen.len() {
                assert(seen[k] == row);
                assert(seen.contains(row));
                let i = choose|i: int| 0 <= i < shorter.len() && shorter[i] == row;
                assert(rows[i] == row);
            } else {
                assert(rows[rows.len() - 1] == row);
            }
        }
        if rows.contains(row) {
            let i = choose|i: int| 0 <= i < rows.len() && rows[i] == row;
            if i < shorter.len() {
                assert(shorter[i] == row);
                assert(shorter.contains(row));
                let k = choose|k: int| 0 <= k < seen.len() && seen[k] == row;
                assert(all[k] == row);
            } else if seen.contains(row) {
                let k = choose|k: int| 0 <= k < seen.len() && seen[k] == row;
                assert(all[k] == row);
            } else {
                assert(all[seen.len() as int] == row);
            }
        }
    }
}

/// The distinct rows hold no row twice.
pub proof fn lemma_first_seen_distinct(rows: Seq<Seq<LabelValue>>)
    ensures
        first_seen(rows).no_duplicates(),
    decreases rows.len(),
{
    if rows.len() > 0 {
        let shorter = rows.drop_last();
        lemma_first_seen_distinct(shorter);
        if !first_seen(shorter).contains(rows.last()) {
            crate::labels::lemma_push_new_keeps_distinct(first_seen(shorter), rows.last());
        }
    }
}

/// The entries of `row` in `columns`, in the order of `columns`.
pub fn project_row(row: &[LabelValue], columns: &Vec<usize>) -> (projected: Vec<LabelValue>)
    requires
        forall|k: int| 0 <= k < columns.len() ==> columns[k] < row.len(),
    ensures
        projected@ == project(row@, indices_view(columns@)),
{
    let mut projected: Vec<LabelValue> = Vec::new();
    let mut k: usize = 0;
    while k < columns.len()
        invariant
            k <= columns.len(),
            forall|c: int| 0 <= c < columns.len() ==> columns[c] < row.len(),
            projected.len() == k,
            forall|c: int| 0 <= c < k ==> projected[c] == row[columns[c] as int],
        decreases columns.len() - k,
    {
        projected.push(row[columns[k]]);
        k += 1;
    }
    assert(projected@ =~= project(row@, indices_view(columns@)));
    projected
}

/// Index of one of `names` equal to `name`, if there is one.
fn position_of(names: &Vec<&str>, name: &str) -> (r: Option<usize>)
    ensures
        match r {
            Some(i) => i < names.len() && names[i as int]@ == name@,
            None => !strs_view(names@).contains(name@),
        },
{
    let mut i: usize = 0;
    while i < names.len()
        invariant
            i <= names.len(),
            forall|j: int| 0 <= j < i ==> strs_view(names@)[j] != name@,
        decreases names.len() - i,
    {
        if same_text(names[i], name) {
            return Some(i);
        }
        i += 1;
    }
    None
}

impl<A: Array> Descriptor<A> {
    /// Splits the keys along the given variables: the keys that remain once
    /// the variables are taken out, and the values that the variables take.
    pub fn split_sparse_label(&self, variables: Vec<&str>) -> (r: Result<(Labels, Labels), Error>)
        requires
            self.wf(),
        ensures
            match r {
                Ok((keys, moved)) => {
                    &&& valid_variables(self@.keys.names, strs_view(variables@))
                    &&& keys.wf()
                    &&& moved.wf()
                    &&& keys@ == remaining_keys(self@.keys, strs_view(variables@))
                    &&& moved@ == moved_values(self@.keys, strs_view(variables@))
                },
                Err(e) => {
                    &&& !valid_variables(self@.keys.names, strs_view(variables@))
                    &&& e matches Error::InvalidParameter(m) && variables_error(
                        self@.keys.names,
                        strs_view(variables@),
                    ) == Some(m@)
                },
            },
    {
        let sparse = self.sparse();
        let ghost names = self@.keys.names;
        let ghost wanted = strs_view(variables@);
        let mut moved_columns: Vec<usize> = Vec::new();
        let mut k: usize = 0;
        while k < variables.len()
            invariant
                k <= variables.len(),
                self.wf(),
                sparse@ == self@.keys,
                names == self@.keys.names,
                wanted == strs_view(variables@),
                moved_columns.len() == k,
                first_missing(names, wanted, 0) == first_missing(names, wanted, k as int),
                forall|c: int| 0 <= c < k ==> names.contains(#[trigger] wanted[c]),
                forall|c: int|
                    0 <= c < k ==> (#[trigger] moved_columns[c]) < names.len() && moved_columns[c]
                        == names.index_of(wanted[c]),
            decreases variables.len() - k,
        {
            assert(wanted[k as int] == variables[k as int]@);
            match sparse.column(variables[k]) {
                Some(column) => {
                    proof {
                        let found = names.index_of(wanted[k as int]);
                        assert(names.contains(wanted[k as int]));
                        assert(names[found] == names[column as int]);
                    }
                    moved_columns.push(column);
                },
                None => {
                    let mut message = String::from_str("'");
                    message.append(variables[k]);
                    message.append("' is not part of the sparse labels for this descriptor");
                    assert(first_missing(names, wanted, k as int) == k);
                    return Err(Error::InvalidParameter(message));
                },
            }
            k += 1;
        }
        assert(first_missing(names, wanted, k as int) == wanted.len());
        assert(indices_view(moved_columns@) =~= columns_of(names, wanted));

        let sparse_names = sparse.names();
        let mut kept: Vec<usize> = Vec::new();
        let mut kept_names: Vec<&str> = Vec::new();
        let mut i: usize = 0;
        assert(names.take(0) =~= Seq::<Seq<char>>::empty());
        while i < sparse_names.len()
            invariant
                i <= sparse_names.len(),
                strs_view(sparse_names@) == names,
                wanted == strs_view(variables@),
                indices_view(kept@) == kept_columns(names.take(i as int), wanted),
                kept_names.len() == kept.len(),
                forall|c: int| 0 <= c < kept.len() ==> (#[trigger] kept[c]) < i,
                forall|c: int| 0 <= c < kept.len() ==> (#[trigger] kept_names[c])@ == names[kept[c] as int],
            decreases sparse_names.len() - i,
        {
            let name = sparse_names[i];
            proof {
                assert(strs_view(sparse_names@)[i as int] == name@);
                let next = names.take(i + 1);
                assert(next.drop_last() =~= names.take(i as int));
                assert(next.last() == name@);
            }
            let ghost before = indices_view(kept@);
            match position_of(&variables, name) {
                Some(found) => {
                    assert(wanted[found as int] == name@);
                },
                None => {
                    kept.push(i);
                    kept_names.push(name);
                    assert(indices_view(kept@) =~= before.push(i as int));
                },
            }
            i += 1;
        }
        assert(names.take(i as int) =~= names);
        proof {
            lemma_kept_columns(names, wanted);
            assert(strs_view(kept_names@) =~= names_of(names, kept_columns(names, wanted)));
        }

        let mut moved = match LabelsBuilder::new(variables) {
            Ok(builder) => builder,
            Err(e) => {
                proof {
                    if wanted.no_duplicates() {
                        assert forall|c: int| 0 <= c < wanted.len() implies crate::labels::valid_name(
                            #[trigger] wanted[c],
                        ) by {
                            let at = names.index_of(wanted[c]);
                            assert(names[at] == wanted[c]);
                        }
                    }
                }
                return Err(e);
            },
        };
        let no_column_left = kept.len() == 0;
        let mut remaining = match LabelsBuilder::new(kept_names) {
            Ok(builder) => builder,
            Err(e) => {
                proof {
                    let kept_view = kept_columns(names, wanted);
                    let kept_names_view = names_of(names, kept_view);
                    assert forall|a: int, b: int|
                        0 <= a < kept_names_view.len() && 0 <= b < kept_names_view.len() && a != b implies kept_names_view[a]
                        != kept_names_view[b] by {
                        if a < b {
                            assert(kept_view[a] < kept_view[b]);
                        } else {
                            assert(kept_view[b] < kept_view[a]);
                        }
                    }
                    assert(false);
                }
                return Err(e);
            },
        };

        let ghost moved_view = columns_of(names, wanted);
        let ghost kept_view = kept_columns(names, wanted);
        let mut n: usize = 0;
        assert(projections(self@.keys.rows.take(0), moved_view) =~= Seq::<Seq<LabelValue>>::empty());
        assert(projections(self@.keys.rows.take(0), kept_view) =~= Seq::<Seq<LabelValue>>::empty());
        while n < sparse.count()
            invariant
                n <= sparse@.count(),
                self.wf(),
                sparse@ == self@.keys,
                names == self@.keys.names,
                moved.wf(),
                remaining.wf(),
                moved@.names == wanted,
                remaining@.names == names_of(names, kept_view),
                indices_view(moved_columns@) == moved_view,
                indices_view(kept@) == kept_view,
                moved_view.len() == wanted.len(),
                forall|c: int| 0 <= c < moved_columns.len() ==> (#[trigger] moved_columns[c]) < names.len(),
                forall|c: int| 0 <= c < kept.len() ==> (#[trigger] kept[c]) < names.len(),
                moved@.rows == first_seen(projections(self@.keys.rows.take(n as int), moved_view)),
                remaining@.rows == first_seen(projections(self@.keys.rows.take(n as int), kept_view)),
            decreases sparse@.count() - n,
        {
            let row = sparse.row(n);
            proof {
                assert(self@.keys.rows[n as int].len() == names.len());
                let rows = self@.keys.rows;
                assert(rows.take(n + 1).drop_last() =~= rows.take(n as int));
                assert(projections(rows.take(n + 1), moved_view).drop_last() =~= projections(
                    rows.take(n as int),
                    moved_view,
                ));
                assert(projections(rows.take(n + 1), kept_view).drop_last() =~= projections(
                    rows.take(n as int),
                    kept_view,
                ));
                assert(projections(rows.take(n + 1), moved_view).last() == project(row@, moved_view));
                assert(projections(rows.take(n + 1), kept_view).last() == project(row@, kept_view));
            }
            moved.insert(project_row(row, &moved_columns));
            remaining.insert(project_row(row, &kept));
            n += 1;
        }
        assert(self@.keys.rows.take(n as int) =~= self@.keys.rows);
        let keys = if no_column_left {
            Labels::single()
        } else {
            remaining.finish()
        };
        Ok((keys, moved.finish()))
    }
}

} // verus!
