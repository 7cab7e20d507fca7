//! Merging rows and arrays: the sorted union of lists of rows, and an array
//! gathered from the rows of several arrays.

use crate::array::{in_bounds, Array, ArrayCells};
use crate::error::{BackendError, Error};
use crate::labels::{strs_view, valid_names, LabelValue, Labels, LabelsBuilder};
use crate::sorted::{copy_row, lemma_sorted_distinct, rows_view, slices_view, sorted_rows, strictly_sorted};
use vstd::prelude::*;

verus! {

/// The rows of several lists of rows.
pub open spec fn nested_view(sources: Seq<Vec<Vec<LabelValue>>>) -> Seq<Seq<Seq<LabelValue>>> {
    Seq::new(sources.len(), |i: int| rows_view(sources[i]@))
}

/// `rows` holds every row of every source once, in ascending lexicographic
/// order, and nothing else.
pub open spec fn is_sorted_union(rows: Seq<Seq<LabelValue>>, sources: Seq<Seq<Seq<LabelValue>>>) -> bool {
    &&& strictly_sorted(rows)
    &&& forall|row: Seq<LabelValue>|
        rows.contains(row) <==> exists|i: int| 0 <= i < sources.len() && (#[trigger] sources[i]).contains(row)
}

/// The sources have one sorted union only.
pub proof fn lemma_sorted_union_unique(
    rows: Seq<Seq<LabelValue>>,
    others: Seq<Seq<LabelValue>>,
    sources: Seq<Seq<Seq<LabelValue>>>,
)
    requires
        is_sorted_union(rows, sources),
        is_sorted_union(others, sources),
    ensures
        rows == others,
{
    crate::sorted::lemma_sorted_same_rows(rows, others);
}

/// The rows of all the sources, one source after the other.
pub open spec fn all_rows(sources: Seq<Seq<Seq<LabelValue>>>) -> Seq<Seq<LabelValue>>
    decreases sources.len(),
{
    if sources.len() == 0 {
        Seq::empty()
    } else {
        all_rows(sources.drop_last()) + sources.last()
    }
}

/// A row of a source is among the rows of all the sources.
pub proof fn lemma_all_rows_contains(sources: Seq<Seq<Seq<LabelValue>>>, i: int, row: Seq<LabelValue>)
    requires
        0 <= i < sources.len(),
        sources[i].contains(row),
    ensures
        all_rows(sources).contains(row),
    decreases sources.len(),
{
    let shorter = sources.drop_last();
    let all = all_rows(sources);
    if i == sources.len() - 1 {
        let j = choose|j: int| 0 <= j < sources[i].len() && sources[i][j] == row;
        assert(all[all_rows(shorter).len() + j] == row);
    } else {
        assert(shorter[i] == sources[i]);
        lemma_all_rows_contains(shorter, i, row);
        let k = choose|k: int| 0 <= k < all_rows(shorter).len() && all_rows(shorter)[k] == row;
        assert(all[k] == row);
    }
}

/// The sorted union of the sources has at most as many rows as the sources
/// have together.
pub proof fn lemma_union_is_short(rows: Seq<Seq<LabelValue>>, sources: Seq<Seq<Seq<LabelValue>>>)
    requires
        is_sorted_union(rows, sources),
    ensures
        rows.len() <= all_rows(sources).len(),
{
    lemma_sorted_distinct(rows);
    assert forall|n: int| 0 <= n < rows.len() implies all_rows(sources).contains(#[trigger] rows[n]) by {
        assert(rows.contains(rows[n]));
        let i = choose|i: int| 0 <= i < sources.len() && (#[trigger] sources[i]).contains(rows[n]);
        lemma_all_rows_contains(sources, i, rows[n]);
    }
    crate::counting::lemma_contained_is_shorter(rows, all_rows(sources));
}

/// The rows of all the sources, each once, in ascending lexicographic order.
pub fn sorted_union(sources: &Vec<Vec<Vec<LabelValue>>>) -> (rows: Vec<Vec<LabelValue>>)
    ensures
        is_sorted_union(rows_view(rows@), nested_view(sources@)),
{
    let ghost all = nested_view(sources@);
    let mut borrowed: Vec<&[LabelValue]> = Vec::new();
    let mut i: usize = 0;
    assert forall|row: Seq<LabelValue>| !slices_view(borrowed@).contains(row) by {
        assert(slices_view(borrowed@).len() == 0);
    }
    while i < sources.len()
        invariant
            i <= sources.len(),
            all == nested_view(sources@),
            forall|row: Seq<LabelValue>|
                slices_view(borrowed@).contains(row) <==> exists|n: int|
                    0 <= n < i && (#[trigger] all[n]).contains(row),
        decreases sources.len() - i,
    {
        let source = &sources[i];
        let ghost source_rows = rows_view(source@);
        assert(all[i as int] == source_rows);
        let mut j: usize = 0;
        while j < source.len()
            invariant
                j <= source.len(),
                i < sources.len(),
                all == nested_view(sources@),
                source_rows == rows_view(source@),
                all[i as int] == source_rows,
                forall|row: Seq<LabelValue>|
                    slices_view(borrowed@).contains(row) <==> ((exists|n: int|
                        0 <= n < i && (#[trigger] all[n]).contains(row)) || (exists|m: int|
                        0 <= m < j && #[trigger] source_rows[m] == row)),
            decreases source.len() - j,
        {
            let ghost before = slices_view(borrowed@);
            borrowed.push(source[j].as_slice());
            proof {
                let after = slices_view(borrowed@);
                let added = source_rows[j as int];
                assert(added == source[j as int]@);
                assert(after =~= before.push(added));
                assert forall|row: Seq<LabelValue>| after.contains(row) <==> ((exists|n: int|
                    0 <= n < i && (#[trigger] all[n]).contains(row)) || (exists|m: int|
                    0 <= m < j + 1 && #[trigger] source_rows[m] == row)) by {
                    if after.contains(row) {
                        let k = choose|k: int| 0 <= k < after.len() && after[k] == row;
                        if k < before.len() {
                            assert(before[k] == row);
                            assert(before.contains(row));
                        } else {
                            assert(source_rows[j as int] == row);
                        }
                    }
                    if before.contains(row) {
                        let k = choose|k: int| 0 <= k < before.len() && before[k] == row;
                        assert(after[k] == row);
                    }
                    if exists|m: int| 0 <= m < j + 1 && #[trigger] source_rows[m] == row {
                        let m = choose|m: int| 0 <= m < j + 1 && #[trigger] source_rows[m] == row;
                        if m < j {
                            assert(before.contains(row));
                        } else {
                            assert(after[before.len() as int] == row);
                        }
                    }
                }
            }
            j += 1;
        }
        proof {
            let current = slices_view(borrowed@);
            assert forall|row: Seq<LabelValue>| current.contains(row) <==> exists|n: int|
                0 <= n < i + 1 && (#[trigger] all[n]).contains(row) by {
                if current.contains(row) {
                    if exists|n: int| 0 <= n < i && (#[trigger] all[n]).contains(row) {
                    } else {
                        let m = choose|m: int| 0 <= m < j && #[trigger] source_rows[m] == row;
                        assert(all[i as int].contains(row));
                    }
                }
                if exists|n: int| 0 <= n < i + 1 && (#[trigger] all[n]).contains(row) {
                    let n = choose|n: int| 0 <= n < i + 1 && (#[trigger] all[n]).contains(row);
                    if n == i {
                        let m = choose|m: int| 0 <= m < source_rows.len() && source_rows[m] == row;
                        assert(source_rows[m] == row);
                    }
                }
            }
        }
        i += 1;
    }
    let sorted = sorted_rows(&borrowed, 0, borrowed.len());
    let ghost wanted = slices_view(sorted@);
    proof {
        assert forall|row: Seq<LabelValue>| wanted.contains(row) <==> slices_view(borrowed@).contains(row) by {
            if wanted.contains(row) {
                let k = choose|k: int| 0 <= k < borrowed.len() && #[trigger] slices_view(borrowed@)[k] == row;
                assert(slices_view(borrowed@)[k] == row);
            }
            if slices_view(borrowed@).contains(row) {
                let k = choose|k: int| 0 <= k < borrowed.len() && slices_view(borrowed@)[k] == row;
                assert(slices_view(borrowed@)[k] == row);
            }
        }
    }
    let mut rows: Vec<Vec<LabelValue>> = Vec::new();
    let mut k: usize = 0;
    while k < sorted.len()
        invariant
            k <= sorted.len(),
            wanted == slices_view(sorted@),
            rows.len() == k,
            forall|n: int| 0 <= n < k ==> (#[trigger] rows[n])@ == wanted[n],
        decreases sorted.len() - k,
    {
        assert(wanted[k as int] == sorted[k as int]@);
        rows.push(copy_row(sorted[k]));
        k += 1;
    }
    assert(rows_view(rows@) =~= wanted);
    rows
}

/// The table with the given column names and the given rows, which come in
/// ascending order.
pub fn sorted_labels(names: Vec<&str>, rows: &Vec<Vec<LabelValue>>) -> (r: Result<Labels, Error>)
    requires
        strictly_sorted(rows_view(rows@)),
        forall|j: int| 0 <= j < rows.len() ==> (#[trigger] rows[j]).len() == names.len(),
    ensures
        match r {
            Ok(labels) => {
                &&& valid_names(strs_view(names@))
                &&& labels.wf()
                &&& labels@.names == strs_view(names@)
                &&& labels@.rows == rows_view(rows@)
            },
            Err(e) => e is InvalidParameter && !valid_names(strs_view(names@)),
        },
{
    let ghost wanted = rows_view(rows@);
    let ghost arity = names.len();
    let ghost columns = strs_view(names@);
    let mut builder = match LabelsBuilder::new(names) {
        Ok(builder) => builder,
        Err(e) => {
            return Err(e);
        },
    };
    proof {
        lemma_sorted_distinct(wanted);
    }
    let mut j: usize = 0;
    while j < rows.len()
        invariant
            j <= rows.len(),
            wanted == rows_view(rows@),
            wanted.no_duplicates(),
            builder.wf(),
            builder@.names == columns,
            columns.len() == arity,
            valid_names(columns),
            forall|n: int| 0 <= n < rows.len() ==> (#[trigger] rows[n]).len() == arity,
            builder@.rows == wanted.take(j as int),
        decreases rows.len() - j,
    {
        let row = copy_row(rows[j].as_slice());
        assert(wanted[j as int] == row@);
        proof {
            if wanted.take(j as int).contains(row@) {
                let n = choose|n: int| 0 <= n < j && wanted.take(j as int)[n] == row@;
                assert(wanted[n] == wanted[j as int]);
            }
        }
        match builder.add(row) {
            Ok(()) => {},
            Err(e) => {
                assert(false);
                return Err(e);
            },
        }
        assert(wanted.take(j + 1) =~= wanted.take(j as int).push(wanted[j as int]));
        j += 1;
    }
    assert(wanted.take(rows.len() as int) =~= wanted);
    Ok(builder.finish())
}

/// For each of `rows`, its index in `labels`, which holds them all.
pub fn positions_in(labels: &Labels, rows: &Vec<Vec<LabelValue>>) -> (positions: Vec<usize>)
    requires
        forall|j: int| 0 <= j < rows.len() ==> labels@.rows.contains(#[trigger] rows_view(rows@)[j]),
    ensures
        positions.len() == rows.len(),
        forall|j: int|
            0 <= j < rows.len() ==> (#[trigger] positions[j]) < labels@.count() && labels@.rows[positions[j] as int]
                == rows_view(rows@)[j],
{
    let mut positions: Vec<usize> = Vec::new();
    let mut j: usize = 0;
    while j < rows.len()
        invariant
            j <= rows.len(),
            positions.len() == j,
            forall|n: int| 0 <= n < rows.len() ==> labels@.rows.contains(#[trigger] rows_view(rows@)[n]),
            forall|n: int|
                0 <= n < j ==> (#[trigger] positions[n]) < labels@.count() && labels@.rows[positions[n] as int]
                    == rows_view(rows@)[n],
        decreases rows.len() - j,
    {
        assert(rows_view(rows@)[j as int] == rows[j as int]@);
        match labels.position(rows[j].as_slice()) {
            Some(position) => {
                positions.push(position);
            },
            None => {
                assert(false);
                positions.push(vstd::pervasive::unreached());
            },
        }
        j += 1;
    }
    positions
}

/// Copies every row of `source` into `target`: row `j` goes to row
/// `positions[j]`, into the columns from `start` up to `end`.
pub fn copy_rows<A: Array>(target: &mut A, source: &A, positions: &Vec<usize>, start: usize, end: usize) -> (r:
    Result<(), BackendError>)
    requires
        positions.len() == source.dims().0,
        forall|j: int| 0 <= j < positions.len() ==> (#[trigger] positions[j]) < old(target).dims().0,
        forall|j: int, k: int| 0 <= j < k < positions.len() ==> positions[j] != positions[k],
        start <= end <= old(target).dims().2,
        end - start == source.dims().2,
        source.dims().1 == old(target).dims().1,
    ensures
        final(target).dims() == old(target).dims(),
        final(target).origin_tag() == old(target).origin_tag(),
        final(target).zero() == old(target).zero(),
        positions.len() == 0 ==> r is Ok,
        r is Ok ==> {
            &&& forall|j: int, c: int, p: int|
                in_bounds(source.dims(), j, c, p) ==> #[trigger] source.cell(j, c, p) == final(target).cell(
                    positions[j] as int,
                    c,
                    start + p,
                )
            &&& forall|i: int, c: int, q: int|
                in_bounds(old(target).dims(), i, c, q) && (q < start || q >= end || forall|j: int|
                    0 <= j < positions.len() ==> positions[j] != i) ==> #[trigger] final(target).cell(i, c, q)
                    == old(target).cell(i, c, q)
        },
{
    let ghost before = *target;
    let mut j: usize = 0;
    while j < positions.len()
        invariant
            j <= positions.len(),
            before == *old(target),
            positions.len() == source.dims().0,
            forall|n: int| 0 <= n < positions.len() ==> (#[trigger] positions[n]) < before.dims().0,
            forall|n: int, k: int| 0 <= n < k < positions.len() ==> positions[n] != positions[k],
            start <= end <= before.dims().2,
            end - start == source.dims().2,
            source.dims().1 == before.dims().1,
            target.dims() == before.dims(),
            target.origin_tag() == before.origin_tag(),
            target.zero() == before.zero(),
            forall|n: int, c: int, p: int|
                in_bounds(source.dims(), n, c, p) && n < j ==> #[trigger] source.cell(n, c, p) == target.cell(
                    positions[n] as int,
                    c,
                    start + p,
                ),
            forall|i: int, c: int, q: int|
                in_bounds(before.dims(), i, c, q) && (q < start || q >= end || forall|n: int|
                    0 <= n < j ==> positions[n] != i) ==> #[trigger] target.cell(i, c, q) == before.cell(i, c, q),
        decreases positions.len() - j,
    {
        let ghost previous = *target;
        match target.set_from(positions[j], start..end, source, j) {
            Ok(()) => {},
            Err(e) => {
                return Err(e);
            },
        }
        proof {
            assert forall|n: int, c: int, p: int| in_bounds(source.dims(), n, c, p) && n < j + 1 implies #[trigger] source.cell(
                n,
                c,
                p,
            ) == target.cell(positions[n] as int, c, start + p) by {
                assert(in_bounds(previous.dims(), positions[n] as int, c, start + p));
                if n < j {
                    assert(positions[n] != positions[j as int]);
                }
            }
            assert forall|i: int, c: int, q: int|
                in_bounds(before.dims(), i, c, q) && (q < start || q >= end || forall|n: int|
                    0 <= n < j + 1 ==> positions[n] != i) implies #[trigger] target.cell(i, c, q) == before.cell(
                i,
                c,
                q,
            ) by {
                assert(in_bounds(previous.dims(), i, c, q));
                assert(target.at(i as usize, c as usize, q as usize) == previous.at(
                    i as usize,
                    c as usize,
                    q as usize,
                ));
                assert(previous.cell(i, c, q) == before.cell(i, c, q));
            }
        }
        j += 1;
    }
    Ok(())
}

/// The columns `a.0..a.1` and `b.0..b.1` have nothing in common.
pub open spec fn disjoint_columns(a: (usize, usize), b: (usize, usize)) -> bool {
    a.1 <= b.0 || b.1 <= a.0
}

/// No row index occurs in both lists.
pub open spec fn disjoint_positions(a: Seq<usize>, b: Seq<usize>) -> bool {
    forall|j: int, k: int| 0 <= j < a.len() && 0 <= k < b.len() ==> a[j] != b[k]
}

/// The place of each source in the target: for each of its rows a row of the
/// target, no row twice, and a range of columns as wide as the source.
pub open spec fn placement_fits<A: Array>(
    dims: (usize, usize, usize),
    source: &A,
    positions: Seq<usize>,
    columns: (usize, usize),
) -> bool {
    &&& positions.len() == source.dims().0
    &&& forall|j: int| 0 <= j < positions.len() ==> (#[trigger] positions[j]) < dims.0
    &&& forall|j: int, k: int| 0 <= j < k < positions.len() ==> positions[j] != positions[k]
    &&& columns.0 <= columns.1 <= dims.2
    &&& columns.1 - columns.0 == source.dims().2
    &&& source.dims().1 == dims.1
}

/// Row `row`, column `column` of the target is outside the place of the source.
pub open spec fn outside_placement(positions: Seq<usize>, columns: (usize, usize), row: int, column: int) -> bool {
    column < columns.0 || column >= columns.1 || forall|j: int| 0 <= j < positions.len() ==> positions[j] != row
}

/// Copies the rows of every source to their places in `target`. Two sources
/// never write to the same cell: their columns or their rows are disjoint.
pub fn scatter<A: Array>(
    target: &mut A,
    sources: &Vec<&A>,
    positions: &Vec<Vec<usize>>,
    columns: &Vec<(usize, usize)>,
) -> (r: Result<(), BackendError>)
    requires
        positions.len() == sources.len(),
        columns.len() == sources.len(),
        forall|i: int|
            0 <= i < sources.len() ==> placement_fits(
                old(target).dims(),
                #[trigger] sources[i],
                positions[i]@,
                columns[i],
            ),
        forall|i: int, k: int|
            0 <= i < k < sources.len() ==> disjoint_columns(#[trigger] columns[i], #[trigger] columns[k])
                || disjoint_positions(positions[i]@, positions[k]@),
    ensures
        final(target).dims() == old(target).dims(),
        final(target).origin_tag() == old(target).origin_tag(),
        final(target).zero() == old(target).zero(),
        (forall|i: int| 0 <= i < positions.len() ==> (#[trigger] positions[i]).len() == 0) ==> r is Ok,
        r is Ok ==> {
            &&& forall|i: int, j: int, c: int, p: int|
                0 <= i < sources.len() && in_bounds(sources[i].dims(), j, c, p) ==> #[trigger] sources[i].cell(
                    j,
                    c,
                    p,
                ) == final(target).cell(positions[i][j] as int, c, columns[i].0 + p)
            &&& forall|row: int, c: int, q: int|
                in_bounds(old(target).dims(), row, c, q) && (forall|i: int|
                    0 <= i < sources.len() ==> outside_placement(positions[i]@, #[trigger] columns[i], row, q))
                    ==> #[trigger] final(target).cell(row, c, q) == old(target).cell(row, c, q)
        },
{
    let ghost before = *target;
    let mut i: usize = 0;
    while i < sources.len()
        invariant
            i <= sources.len(),
            before == *old(target),
            positions.len() == sources.len(),
            columns.len() == sources.len(),
            forall|n: int|
                0 <= n < sources.len() ==> placement_fits(
                    before.dims(),
                    #[trigger] sources[n],
                    positions[n]@,
                    columns[n],
                ),
            forall|n: int, k: int|
                0 <= n < k < sources.len() ==> disjoint_columns(#[trigger] columns[n], #[trigger] columns[k])
                    || disjoint_positions(positions[n]@, positions[k]@),
            target.dims() == before.dims(),
            target.origin_tag() == before.origin_tag(),
            target.zero() == before.zero(),
            forall|n: int, j: int, c: int, p: int|
                0 <= n < i && in_bounds(sources[n].dims(), j, c, p) ==> #[trigger] sources[n].cell(j, c, p)
                    == target.cell(positions[n][j] as int, c, columns[n].0 + p),
            forall|row: int, c: int, q: int|
                in_bounds(before.dims(), row, c, q) && (forall|n: int|
                    0 <= n < i ==> outside_placement(positions[n]@, #[trigger] columns[n], row, q))
                    ==> #[trigger] target.cell(row, c, q) == before.cell(row, c, q),
        decreases sources.len() - i,
    {
        let ghost previous = *target;
        let source: &A = sources[i];
        assert(placement_fits(before.dims(), sources[i as int], positions[i as int]@, columns[i as int]));
        match copy_rows(target, source, &positions[i], columns[i].0, columns[i].1) {
            Ok(()) => {},
            Err(e) => {
                return Err(e);
            },
        }
        proof {
            let here = positions[i as int]@;
            let range = columns[i as int];
            assert forall|n: int, j: int, c: int, p: int|
                0 <= n < i + 1 && in_bounds(sources[n].dims(), j, c, p) implies #[trigger] sources[n].cell(j, c, p)
                == target.cell(positions[n][j] as int, c, columns[n].0 + p) by {
                if n < i {
                    assert(placement_fits(before.dims(), sources[n], positions[n]@, columns[n]));
                    let row = positions[n][j] as int;
                    let q = columns[n].0 + p;
                    assert(in_bounds(previous.dims(), row, c, q));
                    assert(disjoint_columns(columns[n], columns[i as int]) || disjoint_positions(
                        positions[n]@,
                        positions[i as int]@,
                    ));
                    if disjoint_columns(columns[n], columns[i as int]) {
                        assert(q < range.0 || q >= range.1);
                    } else {
                        assert forall|m: int| 0 <= m < here.len() implies here[m] != row by {
                            assert(positions[n]@[j] != here[m]);
                        }
                    }
                    assert(target.cell(row, c, q) == previous.cell(row, c, q));
                }
            }
            assert forall|row: int, c: int, q: int|
                in_bounds(before.dims(), row, c, q) && (forall|n: int|
                    0 <= n < i + 1 ==> outside_placement(
                        positions[n]@,
                        #[trigger] columns[n],
                        row,
                        q,
                    )) implies #[trigger] target.cell(row, c, q) == before.cell(row, c, q) by {
                assert(outside_placement(here, columns[i as int], row, q));
                assert(in_bounds(previous.dims(), row, c, q));
                assert(target.cell(row, c, q) == previous.cell(row, c, q));
            }
        }
        i += 1;
    }
    Ok(())
}

/// In a sequence without repeats a value is found where it stands.
pub proof fn lemma_index_of_unique<T>(items: Seq<T>, i: int)
    requires
        items.no_duplicates(),
        0 <= i < items.len(),
    ensures
        items.index_of(items[i]) == i,
        items.contains(items[i]),
{
    let found = items.index_of(items[i]);
    assert(items.contains(items[i]));
    assert(items[found] == items[i]);
}

/// The sorted union of the rows of the sources, as a table under the given
/// names, together with the index in that table of every row of every source.
pub fn merge_rows(names: Vec<&str>, placed: &Vec<Vec<Vec<LabelValue>>>) -> (r: Result<
    (Labels, Vec<Vec<usize>>),
    Error,
>)
    requires
        forall|i: int, j: int|
            0 <= i < placed.len() && 0 <= j < placed[i].len() ==> (#[trigger] placed[i][j]).len() == names.len(),
    ensures
        match r {
            Ok((labels, positions)) => {
                &&& valid_names(strs_view(names@))
                &&& labels.wf()
                &&& labels@.names == strs_view(names@)
                &&& is_sorted_union(labels@.rows, nested_view(placed@))
                &&& positions.len() == placed.len()
                &&& forall|i: int| 0 <= i < placed.len() ==> (#[trigger] positions[i]).len() == placed[i].len()
                &&& forall|i: int, j: int|
                    0 <= i < placed.len() && 0 <= j < placed[i].len() ==> (#[trigger] positions[i][j])
                        < labels@.count() && labels@.rows[positions[i][j] as int] == nested_view(placed@)[i][j]
            },
            Err(e) => e is InvalidParameter && !valid_names(strs_view(names@)),
        },
{
    let rows = sorted_union(placed);
    let ghost all = nested_view(placed@);
    proof {
        let merged = rows_view(rows@);
        assert forall|n: int| 0 <= n < rows.len() implies (#[trigger] rows[n]).len() == names.len() by {
            assert(merged[n] == rows[n]@);
            assert(merged.contains(merged[n]));
            let i = choose|i: int| 0 <= i < all.len() && (#[trigger] all[i]).contains(merged[n]);
            let j = choose|j: int| 0 <= j < all[i].len() && all[i][j] == merged[n];
            assert(all[i][j] == placed[i][j]@);
        }
    }
    let labels = match sorted_labels(names, &rows) {
        Ok(labels) => labels,
        Err(e) => {
            return Err(e);
        },
    };
    let mut positions: Vec<Vec<usize>> = Vec::new();
    let mut i: usize = 0;
    while i < placed.len()
        invariant
            i <= placed.len(),
            all == nested_view(placed@),
            is_sorted_union(labels@.rows, all),
            positions.len() == i,
            forall|n: int| 0 <= n < i ==> (#[trigger] positions[n]).len() == placed[n].len(),
            forall|n: int, j: int|
                0 <= n < i && 0 <= j < placed[n].len() ==> (#[trigger] positions[n][j]) < labels@.count()
                    && labels@.rows[positions[n][j] as int] == all[n][j],
        decreases placed.len() - i,
    {
        let source = &placed[i];
        proof {
            assert(all[i as int] == rows_view(source@));
            assert forall|j: int| 0 <= j < source.len() implies labels@.rows.contains(
                #[trigger] rows_view(source@)[j],
            ) by {
                assert(all[i as int].contains(rows_view(source@)[j]));
            }
        }
        positions.push(positions_in(&labels, source));
        i += 1;
    }
    Ok((labels, positions))
}

/// The arrays of which `target` was gathered stand in it row by row: row `j`
/// of source `i` is the row of the target labelled `source_rows[i][j]`, in the
/// columns `columns[i]`, and every cell that no source fills holds zero.
pub open spec fn is_gathered<A: Array>(
    target: &A,
    sources: Seq<A>,
    target_rows: Seq<Seq<LabelValue>>,
    source_rows: Seq<Seq<Seq<LabelValue>>>,
    columns: Seq<(usize, usize)>,
) -> bool {
    &&& forall|i: int, j: int, c: int, p: int|
        0 <= i < sources.len() && in_bounds(sources[i].dims(), j, c, p) ==> #[trigger] sources[i].cell(j, c, p)
            == target.cell(target_rows.index_of(source_rows[i][j]), c, columns[i].0 + p)
    &&& forall|row: int, c: int, q: int|
        in_bounds(target.dims(), row, c, q) && (forall|i: int|
            0 <= i < sources.len() ==> q < (#[trigger] columns[i]).0 || q >= columns[i].1
                || !source_rows[i].contains(target_rows[row])) ==> #[trigger] target.cell(row, c, q)
            == target.zero()
}

/// The arrays behind a list of references.
pub open spec fn arrays_view<A: Array>(sources: Seq<&A>) -> Seq<A> {
    Seq::new(sources.len(), |i: int| *sources[i])
}

/// Two lists of rows have no row in common.
pub open spec fn disjoint_rows(a: Seq<Seq<LabelValue>>, b: Seq<Seq<LabelValue>>) -> bool {
    forall|j: int, k: int| 0 <= j < a.len() && 0 <= k < b.len() ==> a[j] != b[k]
}

/// A new array like `like`, of the given shape, filled with zeros and then
/// with the rows of the sources at the places that `positions` and `columns`
/// give them.
pub fn gather<A: Array>(
    like: &A,
    shape: (usize, usize, usize),
    labels: &Labels,
    placed: &Vec<Vec<Vec<LabelValue>>>,
    sources: &Vec<&A>,
    positions: &Vec<Vec<usize>>,
    columns: &Vec<(usize, usize)>,
) -> (r: Result<A, BackendError>)
    requires
        labels.wf(),
        shape.0 == labels@.count(),
        placed.len() == sources.len(),
        positions.len() == sources.len(),
        columns.len() == sources.len(),
        forall|i: int|
            0 <= i < sources.len() ==> {
                &&& (#[trigger] sources[i]).dims().0 == placed[i].len()
                &&& sources[i].dims().1 == shape.1
                &&& columns[i].0 <= columns[i].1 <= shape.2
                &&& columns[i].1 - columns[i].0 == sources[i].dims().2
            },
        forall|i: int| 0 <= i < sources.len() ==> (#[trigger] positions[i]).len() == placed[i].len(),
        forall|i: int| 0 <= i < sources.len() ==> (#[trigger] nested_view(placed@)[i]).no_duplicates(),
        forall|i: int, j: int|
            0 <= i < placed.len() && 0 <= j < placed[i].len() ==> (#[trigger] positions[i][j]) < labels@.count()
                && labels@.rows[positions[i][j] as int] == nested_view(placed@)[i][j],
        forall|i: int, k: int|
            0 <= i < k < sources.len() ==> disjoint_columns(#[trigger] columns[i], #[trigger] columns[k])
                || disjoint_rows(nested_view(placed@)[i], nested_view(placed@)[k]),
    ensures
        r matches Ok(array) ==> {
            &&& array.dims() == shape
            &&& array.origin_tag() == like.origin_tag()
            &&& array.zero() == like.zero()
            &&& is_gathered(&array, arrays_view(sources@), labels@.rows, nested_view(placed@), columns@)
        },
{
    let mut array = match like.create(shape) {
        Ok(array) => array,
        Err(e) => {
            return Err(e);
        },
    };
    let ghost blank = array;
    let ghost all = nested_view(placed@);
    let ghost rows = labels@.rows;
    proof {
        assert forall|i: int| 0 <= i < sources.len() implies placement_fits(
            array.dims(),
            #[trigger] sources[i],
            positions[i]@,
            columns[i],
        ) by {
            assert(positions[i].len() == placed[i].len());
            assert(all[i].no_duplicates());
            assert forall|j: int, k: int| 0 <= j < k < positions[i].len() implies positions[i]@[j]
                != positions[i]@[k] by {
                assert(rows[positions[i][j] as int] == all[i][j]);
                assert(rows[positions[i][k] as int] == all[i][k]);
            }
        }
        assert forall|i: int, k: int| 0 <= i < k < sources.len() implies disjoint_columns(
            #[trigger] columns[i],
            #[trigger] columns[k],
        ) || disjoint_positions(positions[i]@, positions[k]@) by {
            if !disjoint_columns(columns[i], columns[k]) {
                assert(disjoint_rows(all[i], all[k]));
                assert(positions[i].len() == placed[i].len());
                assert(positions[k].len() == placed[k].len());
                assert forall|j: int, m: int|
                    0 <= j < positions[i]@.len() && 0 <= m < positions[k]@.len() implies positions[i]@[j]
                    != positions[k]@[m] by {
                    assert(rows[positions[i][j] as int] == all[i][j]);
                    assert(rows[positions[k][m] as int] == all[k][m]);
                }
            }
        }
    }
    match scatter(&mut array, sources, positions, columns) {
        Ok(()) => {},
        Err(e) => {
            return Err(e);
        },
    }
    proof {
        let arrays = arrays_view(sources@);
        assert forall|i: int, j: int, c: int, p: int|
            0 <= i < arrays.len() && in_bounds(arrays[i].dims(), j, c, p) implies #[trigger] arrays[i].cell(j, c, p)
            == array.cell(rows.index_of(all[i][j]), c, columns@[i].0 + p) by {
            assert(sources[i].cell(j, c, p) == array.cell(positions[i][j] as int, c, columns[i].0 + p));
            assert(rows[positions[i][j] as int] == all[i][j]);
            lemma_index_of_unique(rows, positions[i][j] as int);
        }
        assert forall|row: int, c: int, q: int|
            in_bounds(array.dims(), row, c, q) && (forall|i: int|
                0 <= i < arrays.len() ==> q < (#[trigger] columns@[i]).0 || q >= columns@[i].1 || !all[i].contains(
                    rows[row],
                )) implies #[trigger] array.cell(row, c, q) == array.zero() by {
            assert forall|i: int| 0 <= i < sources.len() implies outside_placement(
                positions[i]@,
                #[trigger] columns[i],
                row,
                q,
            ) by {
                assert(q < columns@[i].0 || q >= columns@[i].1 || !all[i].contains(rows[row]));
                assert(positions[i].len() == placed[i].len());
                if !(q < columns[i].0 || q >= columns[i].1) {
                    assert forall|j: int| 0 <= j < positions[i]@.len() implies positions[i]@[j] != row by {
                        assert(rows[positions[i][j] as int] == all[i][j]);
                        assert(all[i].contains(all[i][j]));
                    }
                }
            }
            assert(in_bounds(blank.dims(), row, c, q));
            assert(array.cell(row, c, q) == blank.cell(row, c, q));
        }
    }
    Ok(array)
}

} // verus!
