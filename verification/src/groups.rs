//! The groups of blocks that are merged when variables leave the keys.

use crate::array::Array;
use crate::descriptor::{
    columns_of, indices_view, lemma_all_rows_match, lemma_matching_rows, matching_rows, project, selected_blocks,
    Descriptor,
};
use crate::labels::{single_view, LabelValue, Labels, LabelsBuilder, LabelsView};
use crate::sorted::copy_row;
use crate::split::{
    first_seen, kept_columns, lemma_first_seen_contains, lemma_first_seen_distinct, lemma_kept_columns, moved_values,
    names_of, projections, remaining_keys, valid_variables,
};
use vstd::prelude::*;

verus! {

/// The distinct values that the columns other than `variables` take in the
/// keys, in the order in which they first occur. The blocks whose keys share
/// one of them are merged into one block.
pub open spec fn group_keys(keys: LabelsView, variables: Seq<Seq<char>>) -> Seq<Seq<LabelValue>> {
    first_seen(projections(keys.rows, kept_columns(keys.names, variables)))
}

/// The indices of the blocks that are merged into block `n`, ascending.
pub open spec fn group(keys: LabelsView, variables: Seq<Seq<char>>, n: int) -> Seq<int> {
    matching_rows(keys.rows, kept_columns(keys.names, variables), group_keys(keys, variables)[n])
}

/// Every column of the keys is a kept column or the column of a variable.
proof fn lemma_column_covered(names: Seq<Seq<char>>, variables: Seq<Seq<char>>, c: int)
    requires
        names.no_duplicates(),
        0 <= c < names.len(),
    ensures
        kept_columns(names, variables).contains(c) || columns_of(names, variables).contains(c),
{
    lemma_kept_columns(names, variables);
    if variables.contains(names[c]) {
        let v = choose|v: int| 0 <= v < variables.len() && variables[v] == names[c];
        let found = names.index_of(variables[v]);
        assert(names.contains(variables[v]));
        assert(names[found] == names[c]);
        assert(columns_of(names, variables)[v] == c);
    }
}

/// A group is not empty, holds indices of blocks, and has at most as many
/// blocks as the moved variables take values.
pub proof fn lemma_group(keys: LabelsView, variables: Seq<Seq<char>>, n: int)
    requires
        keys.wf(),
        valid_variables(keys.names, variables),
        0 <= n < group_keys(keys, variables).len(),
    ensures
        0 < group(keys, variables, n).len() <= moved_values(keys, variables).count(),
        forall|k: int|
            0 <= k < group(keys, variables, n).len() ==> 0 <= #[trigger] group(keys, variables, n)[k] < keys.count(),
{
    let names = keys.names;
    let rows = keys.rows;
    let kept = kept_columns(names, variables);
    let moved = columns_of(names, variables);
    let reduced = projections(rows, kept);
    let wanted = group_keys(keys, variables)[n];
    let members = group(keys, variables, n);
    lemma_matching_rows(rows, kept, wanted);
    lemma_first_seen_contains(reduced, wanted);
    assert(first_seen(reduced).contains(wanted));
    let i = choose|i: int| 0 <= i < reduced.len() && reduced[i] == wanted;
    assert(project(rows[i], kept) == wanted);
    assert(members.contains(i));

    let taken = projections(rows, moved);
    let values = Seq::new(members.len(), |k: int| project(rows[members[k]], moved));
    assert forall|k: int| 0 <= k < values.len() implies first_seen(taken).contains(#[trigger] values[k]) by {
        assert(taken[members[k]] == values[k]);
        assert(taken.contains(values[k]));
        lemma_first_seen_contains(taken, values[k]);
    }
    assert forall|k: int, l: int| 0 <= k < values.len() && 0 <= l < values.len() && k != l implies values[k]
        != values[l] by {
        let a = rows[members[k]];
        let b = rows[members[l]];
        if k < l {
            assert(members[k] < members[l]);
        } else {
            assert(members[l] < members[k]);
        }
        assert(a != b);
        if values[k] == values[l] {
            assert(a.len() == names.len() && b.len() == names.len());
            assert forall|c: int| 0 <= c < names.len() implies a[c] == b[c] by {
                lemma_column_covered(names, variables, c);
                if kept.contains(c) {
                    let at = choose|at: int| 0 <= at < kept.len() && kept[at] == c;
                    assert(project(a, kept)[at] == a[c]);
                    assert(project(b, kept)[at] == b[c]);
                } else {
                    let at = choose|at: int| 0 <= at < moved.len() && moved[at] == c;
                    assert(project(a, moved)[at] == a[c]);
                    assert(project(b, moved)[at] == b[c]);
                }
            }
            assert(a =~= b);
        }
    }
    crate::counting::lemma_contained_is_shorter(values, first_seen(taken));
}

/// There are as many groups as the remaining keys have rows, as long as
/// there is a key at all.
pub proof fn lemma_group_count(keys: LabelsView, variables: Seq<Seq<char>>)
    requires
        keys.wf(),
        keys.count() > 0,
    ensures
        group_keys(keys, variables).len() == remaining_keys(keys, variables).count(),
{
    let kept = kept_columns(keys.names, variables);
    if kept.len() == 0 {
        let reduced = projections(keys.rows, kept);
        let seen = first_seen(reduced);
        lemma_first_seen_distinct(reduced);
        lemma_first_seen_contains(reduced, reduced[0]);
        assert(reduced.contains(reduced[0]));
        assert(seen.len() >= 1);
        if seen.len() > 1 {
            lemma_first_seen_contains(reduced, seen[0]);
            lemma_first_seen_contains(reduced, seen[1]);
            assert(seen.contains(seen[0]) && seen.contains(seen[1]));
            let a = choose|a: int| 0 <= a < reduced.len() && reduced[a] == seen[0];
            let b = choose|b: int| 0 <= b < reduced.len() && reduced[b] == seen[1];
            assert(reduced[a] =~= reduced[b]);
            assert(false);
        }
        assert(single_view().rows.len() == 1);
    }
}

impl<A: Array> Descriptor<A> {
    /// For each row of the keys that remain once the variables are taken
    /// out, the indices of the blocks that merge into the block under that
    /// row, in the order of the keys.
    pub(crate) fn key_groups(&self, new_keys: &Labels, Ghost(variables): Ghost<Seq<Seq<char>>>) -> (groups: Vec<Vec<usize>>)
        requires
            self.wf(),
            self@.keys.count() > 0,
            valid_variables(self@.keys.names, variables),
            new_keys.wf(),
            new_keys@ == remaining_keys(self@.keys, variables),
        ensures
            groups.len() == group_keys(self@.keys, variables).len(),
            groups.len() == new_keys@.count(),
            forall|n: int|
                0 <= n < groups.len() ==> indices_view((#[trigger] groups[n])@) == group(self@.keys, variables, n),
            forall|n: int|
                0 <= n < groups.len() ==> 0 < (#[trigger] groups[n]).len() <= moved_values(
                    self@.keys,
                    variables,
                ).count(),
            forall|n: int, k: int|
                0 <= n < groups.len() && 0 <= k < groups[n].len() ==> (#[trigger] groups[n][k]) < self@.blocks.len(),
    {
        let ghost keys = self@.keys;
        let ghost kept = kept_columns(keys.names, variables);
        let ghost reduced = projections(keys.rows, kept);
        proof {
            lemma_group_count(keys, variables);
            lemma_kept_columns(keys.names, variables);
        }
        let mut groups: Vec<Vec<usize>> = Vec::new();
        if new_keys.count() == 1 {
            let mut all: Vec<usize> = Vec::new();
            let mut i: usize = 0;
            while i < self.blocks().len()
                invariant
                    i <= self@.blocks.len(),
                    all.len() == i,
                    forall|k: int| 0 <= k < i ==> (#[trigger] all[k]) == k,
                decreases self@.blocks.len() - i,
            {
                all.push(i);
                i += 1;
            }
            proof {
                let wanted = group_keys(keys, variables)[0];
                assert forall|r: int| 0 <= r < keys.rows.len() implies project(#[trigger] keys.rows[r], kept)
                    == wanted by {
                    assert(reduced[r] == project(keys.rows[r], kept));
                    assert(reduced.contains(reduced[r]));
                    lemma_first_seen_contains(reduced, reduced[r]);
                    let at = choose|at: int| 0 <= at < first_seen(reduced).len() && first_seen(reduced)[at]
                        == reduced[r];
                    assert(at == 0);
                }
                lemma_all_rows_match(keys.rows, kept, wanted);
                assert(indices_view(all@) =~= group(keys, variables, 0));
                lemma_group(keys, variables, 0);
            }
            groups.push(all);
            return groups;
        }
        assert(kept.len() > 0);
        let mut n: usize = 0;
        while n < new_keys.count()
            invariant
                n <= new_keys@.count(),
                self.wf(),
                keys == self@.keys,
                keys.count() > 0,
                valid_variables(keys.names, variables),
                kept == kept_columns(keys.names, variables),
                kept.len() > 0,
                new_keys.wf(),
                new_keys@ == remaining_keys(keys, variables),
                new_keys@.count() == group_keys(keys, variables).len(),
                groups.len() == n,
                forall|m: int| 0 <= m < n ==> indices_view((#[trigger] groups[m])@) == group(keys, variables, m),
                forall|m: int|
                    0 <= m < n ==> 0 < (#[trigger] groups[m]).len() <= moved_values(keys, variables).count(),
                forall|m: int, k: int|
                    0 <= m < n && 0 <= k < groups[m].len() ==> (#[trigger] groups[m][k]) < self@.blocks.len(),
            decreases new_keys@.count() - n,
        {
            let mut selection = match LabelsBuilder::new(new_keys.names()) {
                Ok(builder) => builder,
                Err(e) => {
                    assert(false);
                    return groups;
                },
            };
            assert(new_keys@.rows[n as int].len() == new_keys@.arity());
            match selection.add(copy_row(new_keys.row(n))) {
                Ok(()) => {},
                Err(e) => {
                    assert(false);
                    return groups;
                },
            }
            let selection = selection.finish();
            proof {
                lemma_kept_columns(keys.names, variables);
                assert(selection@.rows =~= seq![new_keys@.rows[n as int]]);
                assert(selection@.names == names_of(keys.names, kept));
                assert forall|k: int| 0 <= k < selection@.names.len() implies keys.names.contains(
                    #[trigger] selection@.names[k],
                ) by {
                    assert(keys.names[kept[k]] == selection@.names[k]);
                }
                assert(columns_of(keys.names, selection@.names) =~= kept) by {
                    assert forall|k: int| 0 <= k < kept.len() implies columns_of(keys.names, selection@.names)[k]
                        == kept[k] by {
                        let found = keys.names.index_of(keys.names[kept[k]]);
                        assert(keys.names.contains(keys.names[kept[k]]));
                        assert(keys.names[found] == keys.names[kept[k]]);
                    }
                }
                assert(selected_blocks(keys, selection@) == group(keys, variables, n as int));
                lemma_group(keys, variables, n as int);
            }
            match self.find_matching_blocks(&selection) {
                Ok(matching) => {
                    assert(indices_view(matching@).len() == matching.len());
                    groups.push(matching);
                },
                Err(e) => {
                    assert(false);
                    return groups;
                },
            }
            n += 1;
        }
        groups
    }
}

} // verus!
