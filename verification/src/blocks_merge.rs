//! Merging several blocks into one: what the merged block is, and how it is
//! made from the samples, arrays and gradients of its sources.

use crate::array::Array;
use crate::blocks::{gradient_of, BasicBlock, Block};
use crate::error::Error;
use crate::labels::{strs_view, valid_names, LabelValue, Labels, LabelsView};
use crate::merge::{
    arrays_view, disjoint_columns, disjoint_rows, gather, is_gathered, is_sorted_union, lemma_index_of_unique,
    merge_rows, nested_view,
};
use crate::sorted::{copy_row, rows_view};
use std::sync::Arc;
use vstd::prelude::*;

verus! {

/// A row of gradient samples whose first entry, the index of a sample of the
/// source, is replaced by the index that this sample has in the merged block.
pub open spec fn repointed(row: Seq<LabelValue>, placed: Seq<Seq<LabelValue>>, merged: Seq<Seq<LabelValue>>) -> Seq<
    LabelValue,
> {
    row.update(0, merged.index_of(placed[row[0] as int]) as LabelValue)
}

/// The rows of gradient samples of one source, each pointed at the merged samples.
pub open spec fn repointed_rows(
    rows: Seq<Seq<LabelValue>>,
    placed: Seq<Seq<LabelValue>>,
    merged: Seq<Seq<LabelValue>>,
) -> Seq<Seq<LabelValue>> {
    Seq::new(rows.len(), |j: int| repointed(rows[j], placed, merged))
}

/// For each source, the rows of its gradient samples with respect to `name`,
/// pointed at the merged samples.
pub open spec fn gradient_rows<A: Array>(
    sources: Seq<Block<A>>,
    name: Seq<char>,
    placed: Seq<Seq<Seq<LabelValue>>>,
    merged: Seq<Seq<LabelValue>>,
) -> Seq<Seq<Seq<LabelValue>>> {
    Seq::new(
        sources.len(),
        |i: int| repointed_rows(gradient_of(&sources[i], name).samples()@.rows, placed[i], merged),
    )
}

/// The arrays of the values of the sources.
pub open spec fn value_arrays<A: Array>(sources: Seq<Block<A>>) -> Seq<A> {
    Seq::new(sources.len(), |i: int| *sources[i].values().data())
}

/// The arrays of the gradients of the sources with respect to `name`.
pub open spec fn gradient_arrays<A: Array>(sources: Seq<Block<A>>, name: Seq<char>) -> Seq<A> {
    Seq::new(sources.len(), |i: int| *gradient_of(&sources[i], name).data())
}

/// The blocks behind a list of references.
pub open spec fn blocks_view<A: Array>(blocks: Seq<&Block<A>>) -> Seq<Block<A>> {
    Seq::new(blocks.len(), |i: int| *blocks[i])
}

/// `gradient` merges the gradients of the sources with respect to `name`:
/// its samples are the sorted union of theirs, pointed at the merged samples,
/// and its array is gathered from theirs.
pub open spec fn is_merged_gradient<A: Array>(
    sources: Seq<Block<A>>,
    name: Seq<char>,
    placed: Seq<Seq<Seq<LabelValue>>>,
    columns: Seq<(usize, usize)>,
    merged_samples: Seq<Seq<LabelValue>>,
    gradient: &BasicBlock<A>,
) -> bool {
    &&& gradient.samples()@.names == gradient_of(&sources[0], name).samples()@.names
    &&& is_sorted_union(gradient.samples()@.rows, gradient_rows(sources, name, placed, merged_samples))
    &&& gradient.data().zero() == sources[0].values().data().zero()
    &&& is_gathered(
        gradient.data(),
        gradient_arrays(sources, name),
        gradient.samples()@.rows,
        gradient_rows(sources, name, placed, merged_samples),
        columns,
    )
}

/// `merged` merges the sources. Its samples are the sorted union of the rows
/// that `placed` gives for the samples of each source, its array is gathered
/// from the arrays of the sources, source `i` filling the columns
/// `columns[i]`, and it has the gradients of the first source, each merged in
/// the same way.
pub open spec fn is_merged_block<A: Array>(
    sources: Seq<Block<A>>,
    sample_names: Seq<Seq<char>>,
    placed: Seq<Seq<Seq<LabelValue>>>,
    components: LabelsView,
    properties: LabelsView,
    columns: Seq<(usize, usize)>,
    merged: &Block<A>,
) -> bool {
    &&& merged.wf()
    &&& merged.values().samples()@.names == sample_names
    &&& is_sorted_union(merged.values().samples()@.rows, placed)
    &&& merged.values().components()@ == components
    &&& merged.values().properties()@ == properties
    &&& merged.values().data().origin_tag() == sources[0].values().data().origin_tag()
    &&& merged.values().data().zero() == sources[0].values().data().zero()
    &&& is_gathered(
        merged.values().data(),
        value_arrays(sources),
        merged.values().samples()@.rows,
        placed,
        columns,
    )
    &&& merged.gradient_names() == sources[0].gradient_names()
    &&& forall|g: int|
        0 <= g < merged.gradients().len() ==> is_merged_gradient(
            sources,
            sources[0].gradient_names()[g],
            placed,
            columns,
            merged.values().samples()@.rows,
            &#[trigger] merged.gradients()[g],
        )
}

/// What a merge asks of its sources and of the places given to them.
pub open spec fn fit_to_merge<A: Array>(
    sources: Seq<Block<A>>,
    sample_names: Seq<Seq<char>>,
    placed: Seq<Seq<Seq<LabelValue>>>,
    components: LabelsView,
    properties: LabelsView,
    columns: Seq<(usize, usize)>,
) -> bool {
    &&& sources.len() > 0
    &&& placed.len() == sources.len()
    &&& columns.len() == sources.len()
    &&& valid_names(sample_names)
    &&& components.wf()
    &&& properties.wf()
    &&& forall|i: int| 0 <= i < sources.len() ==> (#[trigger] sources[i]).wf()
    &&& forall|i: int| 0 <= i < sources.len() ==> (#[trigger] sources[i]).values().components()@ == components
    &&& forall|i: int|
        0 <= i < sources.len() ==> (#[trigger] placed[i]).len() == sources[i].values().samples()@.count()
            && placed[i].no_duplicates()
    &&& forall|i: int, j: int|
        0 <= i < placed.len() && 0 <= j < placed[i].len() ==> (#[trigger] placed[i][j]).len() == sample_names.len()
    &&& forall|i: int|
        0 <= i < sources.len() ==> (#[trigger] columns[i]).0 <= columns[i].1 <= properties.count() && columns[i].1
            - columns[i].0 == sources[i].values().properties()@.count()
    &&& forall|i: int, k: int|
        0 <= i < k < sources.len() ==> disjoint_columns(#[trigger] columns[i], #[trigger] columns[k])
            || disjoint_rows(placed[i], placed[k])
    &&& forall|i: int, g: int|
        0 <= i < sources.len() && 0 <= g < sources[0].gradient_names().len() ==> has_gradient_like(
            &sources[0],
            #[trigger] sources[i],
            #[trigger] sources[0].gradient_names()[g],
        )
}

/// `block` has a gradient with respect to `name` whose samples have the same
/// column names as those of the gradient of `first`.
pub open spec fn has_gradient_like<A: Array>(first: &Block<A>, block: Block<A>, name: Seq<char>) -> bool {
    &&& block.gradient_names().contains(name)
    &&& gradient_of(&block, name).samples()@.names == gradient_of(first, name).samples()@.names
}

/// The rows of gradient samples with the first entry of each replaced by what
/// `mapping` gives for it.
pub open spec fn mapped_rows(rows: Seq<Seq<LabelValue>>, mapping: Seq<usize>) -> Seq<Seq<LabelValue>> {
    Seq::new(rows.len(), |j: int| rows[j].update(0, mapping[rows[j][0] as int] as LabelValue))
}

/// The rows of the samples of `gradient`, each pointed at the merged samples
/// by `mapping`, which gives the new index of every sample of the source.
pub fn repoint_gradient_rows<A: Array>(gradient: &BasicBlock<A>, mapping: &Vec<usize>) -> (rows: Vec<
    Vec<LabelValue>,
>)
    requires
        gradient.wf(),
        crate::blocks::valid_gradient_samples(gradient.samples()@, mapping.len() as nat),
        forall|j: int| 0 <= j < mapping.len() ==> mapping[j] <= i32::MAX,
    ensures
        rows_view(rows@) == mapped_rows(gradient.samples()@.rows, mapping@),
{
    let samples = gradient.samples();
    let mut rows: Vec<Vec<LabelValue>> = Vec::new();
    let mut j: usize = 0;
    while j < samples.count()
        invariant
            j <= samples@.count(),
            samples.wf(),
            crate::blocks::valid_gradient_samples(samples@, mapping.len() as nat),
            forall|n: int| 0 <= n < mapping.len() ==> mapping[n] <= i32::MAX,
            rows.len() == j,
            forall|n: int|
                0 <= n < j ==> (#[trigger] rows[n])@ == samples@.rows[n].update(
                    0,
                    mapping[samples@.rows[n][0] as int] as LabelValue,
                ),
        decreases samples@.count() - j,
    {
        let mut row = copy_row(samples.row(j));
        assert(samples@.rows[j as int].len() == samples@.arity());
        let old_sample = row[0] as usize;
        row[0] = mapping[old_sample] as LabelValue;
        rows.push(row);
        j += 1;
    }
    assert(rows_view(rows@) =~= mapped_rows(samples@.rows, mapping@));
    rows
}

/// `mapping` gives, for every row of `placed`, the index of that row in `merged`.
pub open spec fn is_mapping(mapping: Seq<usize>, placed: Seq<Seq<LabelValue>>, merged: Seq<Seq<LabelValue>>) -> bool {
    &&& mapping.len() == placed.len()
    &&& forall|j: int|
        0 <= j < mapping.len() ==> (#[trigger] mapping[j]) < merged.len() && mapping[j] <= i32::MAX
            && merged[mapping[j] as int] == placed[j]
}

/// The first entry of every row is the index of a sample, below `count`.
pub open spec fn points_below(rows: Seq<Seq<LabelValue>>, count: nat) -> bool {
    forall|n: int| 0 <= n < rows.len() ==> (#[trigger] rows[n]).len() >= 1 && 0 <= rows[n][0] < count
}

/// Rows pointed by a mapping into the merged samples are the repointed rows.
proof fn lemma_mapped_is_repointed(
    rows: Seq<Seq<LabelValue>>,
    mapping: Seq<usize>,
    placed: Seq<Seq<LabelValue>>,
    merged: Seq<Seq<LabelValue>>,
)
    requires
        merged.no_duplicates(),
        is_mapping(mapping, placed, merged),
        points_below(rows, mapping.len()),
    ensures
        mapped_rows(rows, mapping) == repointed_rows(rows, placed, merged),
        points_below(repointed_rows(rows, placed, merged), merged.len()),
        forall|n: int|
            0 <= n < rows.len() ==> (#[trigger] repointed_rows(rows, placed, merged)[n]).len() == rows[n].len(),
{
    let a = mapped_rows(rows, mapping);
    let b = repointed_rows(rows, placed, merged);
    assert forall|n: int| 0 <= n < rows.len() implies a[n] == b[n] && (#[trigger] b[n]).len() >= 1 && 0 <= b[n][0]
        < merged.len() && b[n].len() == rows[n].len() by {
        let j = rows[n][0] as int;
        assert(rows[n].len() >= 1);
        assert(mapping[j] < merged.len());
        lemma_index_of_unique(merged, mapping[j] as int);
    }
    assert(a =~= b);
}

/// Distinct rows of gradient samples stay distinct when they are repointed.
proof fn lemma_repointed_distinct(
    rows: Seq<Seq<LabelValue>>,
    mapping: Seq<usize>,
    placed: Seq<Seq<LabelValue>>,
    merged: Seq<Seq<LabelValue>>,
)
    requires
        merged.no_duplicates(),
        placed.no_duplicates(),
        rows.no_duplicates(),
        is_mapping(mapping, placed, merged),
        points_below(rows, mapping.len()),
    ensures
        repointed_rows(rows, placed, merged).no_duplicates(),
{
    lemma_mapped_is_repointed(rows, mapping, placed, merged);
    let b = mapped_rows(rows, mapping);
    assert forall|n: int, m: int| 0 <= n < b.len() && 0 <= m < b.len() && n != m implies b[n] != b[m] by {
        let jn = rows[n][0] as int;
        let jm = rows[m][0] as int;
        assert(rows[n].len() >= 1 && rows[m].len() >= 1);
        if jn == jm {
            if b[n] == b[m] {
                assert(rows[n].len() == rows[m].len());
                assert forall|c: int| 0 <= c < rows[n].len() implies rows[n][c] == rows[m][c] by {
                    if c > 0 {
                        assert(b[n][c] == rows[n][c]);
                        assert(b[m][c] == rows[m][c]);
                    }
                }
                assert(rows[n] =~= rows[m]);
            }
        } else {
            assert(mapping[jn] < merged.len() && mapping[jm] < merged.len());
            assert(merged[mapping[jn] as int] == placed[jn]);
            assert(merged[mapping[jm] as int] == placed[jm]);
            assert(placed[jn] != placed[jm]);
            assert(mapping[jn] != mapping[jm]);
            assert(b[n][0] == mapping[jn] as LabelValue);
            assert(b[m][0] == mapping[jm] as LabelValue);
        }
    }
}

/// Gradient samples of two sources whose samples stand at different rows of
/// the merged block have no row in common once they are repointed.
proof fn lemma_repointed_disjoint(
    rows: Seq<Seq<LabelValue>>,
    mapping: Seq<usize>,
    placed: Seq<Seq<LabelValue>>,
    other_rows: Seq<Seq<LabelValue>>,
    other_mapping: Seq<usize>,
    other_placed: Seq<Seq<LabelValue>>,
    merged: Seq<Seq<LabelValue>>,
)
    requires
        merged.no_duplicates(),
        is_mapping(mapping, placed, merged),
        is_mapping(other_mapping, other_placed, merged),
        points_below(rows, mapping.len()),
        points_below(other_rows, other_mapping.len()),
        disjoint_rows(placed, other_placed),
    ensures
        disjoint_rows(repointed_rows(rows, placed, merged), repointed_rows(other_rows, other_placed, merged)),
{
    lemma_mapped_is_repointed(rows, mapping, placed, merged);
    lemma_mapped_is_repointed(other_rows, other_mapping, other_placed, merged);
    let a = mapped_rows(rows, mapping);
    let b = mapped_rows(other_rows, other_mapping);
    assert forall|n: int, m: int| 0 <= n < a.len() && 0 <= m < b.len() implies a[n] != b[m] by {
        let jn = rows[n][0] as int;
        let jm = other_rows[m][0] as int;
        assert(rows[n].len() >= 1 && other_rows[m].len() >= 1);
        assert(mapping[jn] < merged.len() && other_mapping[jm] < merged.len());
        assert(merged[mapping[jn] as int] == placed[jn]);
        assert(merged[other_mapping[jm] as int] == other_placed[jm]);
        assert(placed[jn] != other_placed[jm]);
        assert(a[n][0] == mapping[jn] as LabelValue);
        assert(b[m][0] == other_mapping[jm] as LabelValue);
    }
}

/// The index lists behind a list of vectors.
pub open spec fn mappings_view(mapping: Seq<Vec<usize>>) -> Seq<Seq<usize>> {
    Seq::new(mapping.len(), |i: int| mapping[i]@)
}

/// What merging the gradients with respect to `name` asks for: every source
/// has that gradient, with the column names of the first, and `mapping` gives
/// the index in `merged` of every sample of every source.
pub open spec fn gradients_fit<A: Array>(
    sources: Seq<Block<A>>,
    name: Seq<char>,
    mapping: Seq<Seq<usize>>,
    placed: Seq<Seq<Seq<LabelValue>>>,
    merged: Seq<Seq<LabelValue>>,
) -> bool {
    &&& sources.len() > 0
    &&& mapping.len() == sources.len()
    &&& placed.len() == sources.len()
    &&& merged.no_duplicates()
    &&& forall|i: int| 0 <= i < sources.len() ==> (#[trigger] sources[i]).wf()
    &&& forall|i: int| 0 <= i < sources.len() ==> has_gradient_like(&sources[0], #[trigger] sources[i], name)
    &&& forall|i: int| 0 <= i < sources.len() ==> is_mapping(#[trigger] mapping[i], placed[i], merged)
    &&& forall|i: int|
        0 <= i < sources.len() ==> (#[trigger] placed[i]).len() == sources[i].values().samples()@.count()
            && placed[i].no_duplicates()
}

/// The samples of a gradient of a well-formed block point at samples of its values.
proof fn lemma_gradient_points_below<A: Array>(block: &Block<A>, name: Seq<char>)
    requires
        block.wf(),
        block.gradient_names().contains(name),
    ensures
        gradient_of(block, name).wf(),
        crate::blocks::gradient_agrees(block.values(), &gradient_of(block, name)),
        points_below(gradient_of(block, name).samples()@.rows, block.values().samples()@.count()),
{
    let at = block.gradient_names().index_of(name);
    assert(block.gradient_names()[at] == name);
    let gradient = block.gradients()[at];
    assert(crate::blocks::gradient_agrees(block.values(), &gradient));
    let samples = gradient.samples()@;
    assert forall|n: int| 0 <= n < samples.rows.len() implies (#[trigger] samples.rows[n]).len() >= 1 && 0
        <= samples.rows[n][0] < block.values().samples()@.count() by {
        assert(samples.rows[n].len() == samples.arity());
    }
}

/// The samples of the merged gradient with respect to `gradient_name`: the
/// sorted union of the gradient samples of the blocks, each pointed at the
/// merged samples by `mapping`. With the table come the pointed rows of each
/// block and the index of each in the table.
pub(crate) fn merge_gradient_samples<A: Array>(
    blocks: &Vec<&Block<A>>,
    gradient_name: &str,
    mapping: &Vec<Vec<usize>>,
    Ghost(placed): Ghost<Seq<Seq<Seq<LabelValue>>>>,
    Ghost(merged): Ghost<Seq<Seq<LabelValue>>>,
) -> (r: (Labels, Vec<Vec<Vec<LabelValue>>>, Vec<Vec<usize>>))
    requires
        gradients_fit(blocks_view(blocks@), gradient_name@, mappings_view(mapping@), placed, merged),
    ensures
        r.0.wf(),
        r.0@.names == gradient_of(blocks[0], gradient_name@).samples()@.names,
        nested_view(r.1@) == gradient_rows(blocks_view(blocks@), gradient_name@, placed, merged),
        is_sorted_union(r.0@.rows, nested_view(r.1@)),
        crate::blocks::valid_gradient_samples(r.0@, merged.len()),
        r.1.len() == blocks.len(),
        r.2.len() == blocks.len(),
        forall|i: int| 0 <= i < blocks.len() ==> (#[trigger] r.2[i]).len() == r.1[i].len(),
        forall|i: int, j: int|
            0 <= i < blocks.len() && 0 <= j < r.1[i].len() ==> (#[trigger] r.2[i][j]) < r.0@.count()
                && r.0@.rows[r.2[i][j] as int] == nested_view(r.1@)[i][j],
{
    let ghost sources = blocks_view(blocks@);
    let ghost maps = mappings_view(mapping@);
    let ghost wanted = gradient_rows(sources, gradient_name@, placed, merged);
    let mut rows: Vec<Vec<Vec<LabelValue>>> = Vec::new();
    let mut i: usize = 0;
    while i < blocks.len()
        invariant
            i <= blocks.len(),
            sources == blocks_view(blocks@),
            maps == mappings_view(mapping@),
            wanted == gradient_rows(sources, gradient_name@, placed, merged),
            gradients_fit(sources, gradient_name@, maps, placed, merged),
            rows.len() == i,
            forall|n: int| 0 <= n < i ==> rows_view((#[trigger] rows[n])@) == wanted[n],
        decreases blocks.len() - i,
    {
        let block: &Block<A> = blocks[i];
        proof {
            assert(sources[i as int] == *block);
            assert(sources[i as int].wf());
            assert(has_gradient_like(&sources[0], sources[i as int], gradient_name@));
            assert(is_mapping(maps[i as int], placed[i as int], merged));
            assert(placed[i as int].len() == sources[i as int].values().samples()@.count());
            lemma_gradient_points_below(block, gradient_name@);
        }
        let gradient = match block.get_gradient(gradient_name) {
            Some(gradient) => gradient,
            None => {
                assert(false);
                vstd::pervasive::unreached()
            },
        };
        assert(maps[i as int] == mapping[i as int]@);
        let pointed = repoint_gradient_rows(gradient, &mapping[i]);
        proof {
            lemma_mapped_is_repointed(gradient.samples()@.rows, maps[i as int], placed[i as int], merged);
        }
        rows.push(pointed);
        i += 1;
    }
    assert(nested_view(rows@) =~= wanted);
    let first: &Block<A> = blocks[0];
    proof {
        assert(sources[0] == *first);
        assert(sources[0].wf());
        assert(has_gradient_like(&sources[0], sources[0], gradient_name@));
        lemma_gradient_points_below(first, gradient_name@);
    }
    let names = match first.get_gradient(gradient_name) {
        Some(gradient) => gradient.samples().names(),
        None => {
            assert(false);
            vstd::pervasive::unreached()
        },
    };
    let ghost columns = strs_view(names@);
    proof {
        assert forall|n: int, j: int| 0 <= n < rows.len() && 0 <= j < rows[n].len() implies (#[trigger] rows[n][j]).len()
            == names.len() by {
            assert(sources[n].wf());
            assert(has_gradient_like(&sources[0], sources[n], gradient_name@));
            assert(is_mapping(maps[n], placed[n], merged));
            assert(placed[n].len() == sources[n].values().samples()@.count());
            lemma_gradient_points_below(&sources[n], gradient_name@);
            let table = gradient_of(&sources[n], gradient_name@).samples()@;
            lemma_mapped_is_repointed(table.rows, maps[n], placed[n], merged);
            assert(rows_view(rows[n]@) == wanted[n]);
            assert(rows_view(rows[n]@)[j] == rows[n][j]@);
            assert(wanted[n][j].len() == table.rows[j].len());
            assert(table.rows[j].len() == table.arity());
        }
    }
    match merge_rows(names, &rows) {
        Ok((labels, positions)) => {
            proof {
                assert forall|n: int| 0 <= n < labels@.rows.len() implies 0 <= (#[trigger] labels@.rows[n])[0]
                    < merged.len() by {
                    let row = labels@.rows[n];
                    assert(labels@.rows.contains(row));
                    let b = choose|b: int| 0 <= b < wanted.len() && (#[trigger] wanted[b]).contains(row);
                    let j = choose|j: int| 0 <= j < wanted[b].len() && wanted[b][j] == row;
                    assert(sources[b].wf());
                    assert(has_gradient_like(&sources[0], sources[b], gradient_name@));
                    assert(is_mapping(maps[b], placed[b], merged));
                    assert(placed[b].len() == sources[b].values().samples()@.count());
                    lemma_gradient_points_below(&sources[b], gradient_name@);
                    let table = gradient_of(&sources[b], gradient_name@).samples()@;
                    lemma_mapped_is_repointed(table.rows, maps[b], placed[b], merged);
                    assert(0 <= wanted[b][j][0] < merged.len());
                }
            }
            (labels, rows, positions)
        },
        Err(e) => {
            assert(false);
            vstd::pervasive::unreached()
        },
    }
}

/// The message for merged samples that are too many.
pub open spec fn too_many_message() -> Seq<char> {
    "too many samples in the merged block for its gradients to refer to"@
}

/// The merged samples are too many for the gradients to point at: label
/// values are 32-bit integers.
pub open spec fn too_many_samples<A: Array>(sources: Seq<Block<A>>, placed: Seq<Seq<Seq<LabelValue>>>) -> bool {
    &&& sources[0].gradient_names().len() > 0
    &&& exists|rows: Seq<Seq<LabelValue>>| is_sorted_union(rows, placed) && rows.len() > i32::MAX
}

/// The arrays of the values of the blocks.
fn value_arrays_of<'a, A: Array>(blocks: &Vec<&'a Block<A>>) -> (arrays: Vec<&'a A>)
    ensures
        arrays.len() == blocks.len(),
        arrays_view(arrays@) == value_arrays(blocks_view(blocks@)),
{
    let mut arrays: Vec<&'a A> = Vec::new();
    let mut i: usize = 0;
    while i < blocks.len()
        invariant
            i <= blocks.len(),
            arrays.len() == i,
            forall|n: int| 0 <= n < i ==> *(#[trigger] arrays[n]) == *blocks[n].values().data(),
        decreases blocks.len() - i,
    {
        let block: &'a Block<A> = blocks[i];
        arrays.push(block.values().data());
        i += 1;
    }
    assert(arrays_view(arrays@) =~= value_arrays(blocks_view(blocks@)));
    arrays
}

/// The arrays of the gradients of the blocks with respect to `name`.
fn gradient_arrays_of<'a, A: Array>(blocks: &Vec<&'a Block<A>>, name: &str) -> (arrays: Vec<&'a A>)
    requires
        forall|i: int| 0 <= i < blocks.len() ==> (#[trigger] blocks[i]).wf() && blocks[i].gradient_names().contains(name@),
    ensures
        arrays.len() == blocks.len(),
        arrays_view(arrays@) == gradient_arrays(blocks_view(blocks@), name@),
{
    let mut arrays: Vec<&'a A> = Vec::new();
    let mut i: usize = 0;
    while i < blocks.len()
        invariant
            i <= blocks.len(),
            arrays.len() == i,
            forall|n: int|
                0 <= n < blocks.len() ==> (#[trigger] blocks[n]).wf() && blocks[n].gradient_names().contains(name@),
            forall|n: int| 0 <= n < i ==> *(#[trigger] arrays[n]) == *gradient_of(blocks[n], name@).data(),
        decreases blocks.len() - i,
    {
        let block: &'a Block<A> = blocks[i];
        match block.get_gradient(name) {
            Some(gradient) => {
                arrays.push(gradient.data());
            },
            None => {
                assert(false);
            },
        }
        i += 1;
    }
    assert(arrays_view(arrays@) =~= gradient_arrays(blocks_view(blocks@), name@));
    arrays
}

/// The gradients with respect to `name` can be gathered at the places that
/// their repointed samples give them.
proof fn lemma_gradient_places<A: Array>(
    sources: Seq<Block<A>>,
    name: Seq<char>,
    mapping: Seq<Seq<usize>>,
    placed: Seq<Seq<Seq<LabelValue>>>,
    merged: Seq<Seq<LabelValue>>,
    columns: Seq<(usize, usize)>,
)
    requires
        gradients_fit(sources, name, mapping, placed, merged),
        columns.len() == sources.len(),
        forall|i: int, k: int|
            0 <= i < k < sources.len() ==> disjoint_columns(#[trigger] columns[i], #[trigger] columns[k])
                || disjoint_rows(placed[i], placed[k]),
    ensures
        forall|i: int|
            0 <= i < sources.len() ==> (#[trigger] gradient_rows(sources, name, placed, merged)[i]).no_duplicates(),
        forall|i: int, k: int|
            0 <= i < k < sources.len() ==> disjoint_columns(#[trigger] columns[i], #[trigger] columns[k])
                || disjoint_rows(
                gradient_rows(sources, name, placed, merged)[i],
                gradient_rows(sources, name, placed, merged)[k],
            ),
        forall|i: int|
            0 <= i < sources.len() ==> {
                let gradient = #[trigger] gradient_arrays(sources, name)[i];
                &&& gradient.dims().0 == gradient_rows(sources, name, placed, merged)[i].len()
                &&& gradient.dims().1 == sources[i].values().components()@.count()
                &&& gradient.dims().2 == sources[i].values().properties()@.count()
                &&& gradient.origin_tag() == sources[i].values().data().origin_tag()
            },
{
    let all = gradient_rows(sources, name, placed, merged);
    assert forall|i: int| 0 <= i < sources.len() implies (#[trigger] all[i]).no_duplicates() by {
        assert(sources[i].wf());
        assert(has_gradient_like(&sources[0], sources[i], name));
        assert(is_mapping(mapping[i], placed[i], merged));
        assert(placed[i].len() == sources[i].values().samples()@.count());
        lemma_gradient_points_below(&sources[i], name);
        let table = gradient_of(&sources[i], name).samples()@;
        lemma_repointed_distinct(table.rows, mapping[i], placed[i], merged);
    }
    assert forall|i: int| 0 <= i < sources.len() implies ({
        let gradient = #[trigger] gradient_arrays(sources, name)[i];
        &&& gradient.dims().0 == all[i].len()
        &&& gradient.dims().1 == sources[i].values().components()@.count()
        &&& gradient.dims().2 == sources[i].values().properties()@.count()
        &&& gradient.origin_tag() == sources[i].values().data().origin_tag()
    }) by {
        assert(sources[i].wf());
        assert(has_gradient_like(&sources[0], sources[i], name));
        lemma_gradient_points_below(&sources[i], name);
    }
    assert forall|i: int, k: int| 0 <= i < k < sources.len() implies disjoint_columns(
        #[trigger] columns[i],
        #[trigger] columns[k],
    ) || disjoint_rows(all[i], all[k]) by {
        if !disjoint_columns(columns[i], columns[k]) {
            assert(sources[i].wf() && sources[k].wf());
            assert(has_gradient_like(&sources[0], sources[i], name));
            assert(has_gradient_like(&sources[0], sources[k], name));
            assert(is_mapping(mapping[i], placed[i], merged));
            assert(is_mapping(mapping[k], placed[k], merged));
            assert(placed[i].len() == sources[i].values().samples()@.count());
            assert(placed[k].len() == sources[k].values().samples()@.count());
            lemma_gradient_points_below(&sources[i], name);
            lemma_gradient_points_below(&sources[k], name);
            lemma_repointed_disjoint(
                gradient_of(&sources[i], name).samples()@.rows,
                mapping[i],
                placed[i],
                gradient_of(&sources[k], name).samples()@.rows,
                mapping[k],
                placed[k],
                merged,
            );
        }
    }
}

/// The merged values, without gradients yet, and for every sample of every
/// block its index among the merged samples.
fn merge_values<A: Array>(
    blocks: &Vec<&Block<A>>,
    sample_names: Vec<&str>,
    placed: &Vec<Vec<Vec<LabelValue>>>,
    components: Arc<Labels>,
    properties: Arc<Labels>,
    columns: &Vec<(usize, usize)>,
) -> (r: Result<(Block<A>, Vec<Vec<usize>>), Error>)
    requires
        fit_to_merge(
            blocks_view(blocks@),
            strs_view(sample_names@),
            nested_view(placed@),
            components@,
            properties@,
            columns@,
        ),
    ensures
        too_many_samples(blocks_view(blocks@), nested_view(placed@)) <==> r matches Err(Error::InvalidParameter(_)),
        match r {
            Ok((merged, mapping)) => {
                let sources = blocks_view(blocks@);
                let samples = merged.values().samples()@;
                &&& merged.wf()
                &&& samples.names == strs_view(sample_names@)
                &&& is_sorted_union(samples.rows, nested_view(placed@))
                &&& merged.values().components()@ == components@
                &&& merged.values().properties()@ == properties@
                &&& merged.values().data().origin_tag() == sources[0].values().data().origin_tag()
                &&& merged.values().data().zero() == sources[0].values().data().zero()
                &&& is_gathered(
                    merged.values().data(),
                    value_arrays(sources),
                    samples.rows,
                    nested_view(placed@),
                    columns@,
                )
                &&& merged.gradient_names().len() == 0
                &&& mapping.len() == blocks.len()
                &&& sources[0].gradient_names().len() > 0 ==> samples.count() <= i32::MAX
                &&& forall|i: int| 0 <= i < blocks.len() ==> (#[trigger] mapping[i]).len() == placed[i].len()
                &&& forall|i: int, j: int|
                    0 <= i < blocks.len() && 0 <= j < placed[i].len() ==> (#[trigger] mapping[i][j])
                        < samples.count() && samples.rows[mapping[i][j] as int] == nested_view(placed@)[i][j]
            },
            Err(Error::InvalidParameter(m)) => m@ == too_many_message(),
            Err(Error::ArrayBackend(_)) => true,
            Err(Error::Unimplemented(_)) => false,
        },
{
    let ghost sources = blocks_view(blocks@);
    let ghost all = nested_view(placed@);
    proof {
        assert forall|i: int, j: int| 0 <= i < placed.len() && 0 <= j < placed[i].len() implies (#[trigger] placed[i][j]).len()
            == sample_names.len() by {
            assert(all[i][j] == placed[i][j]@);
        }
    }
    let (samples, mapping) = match merge_rows(sample_names, placed) {
        Ok(merged) => merged,
        Err(e) => {
            assert(false);
            return Err(e);
        },
    };
    let first: &Block<A> = blocks[0];
    assert(sources[0] == *first);
    assert(sources[0].wf());
    let gradient_names = first.gradients_list();
    assert(strs_view(gradient_names@).len() == gradient_names.len());
    if gradient_names.len() > 0 && samples.count() > 2147483647 {
        return Err(
            Error::InvalidParameter(
                String::from_str("too many samples in the merged block for its gradients to refer to"),
            ),
        );
    }
    proof {
        if too_many_samples(sources, all) {
            let rows = choose|rows: Seq<Seq<LabelValue>>| is_sorted_union(rows, all) && rows.len() > i32::MAX;
            crate::merge::lemma_sorted_union_unique(rows, samples@.rows, all);
        }
    }
    let arrays = value_arrays_of(blocks);
    let shape = (samples.count(), components.count(), properties.count());
    proof {
        assert forall|i: int| 0 <= i < arrays.len() implies {
            &&& (#[trigger] arrays[i]).dims().0 == placed[i].len()
            &&& arrays[i].dims().1 == shape.1
            &&& columns[i].0 <= columns[i].1 <= shape.2
            &&& columns[i].1 - columns[i].0 == arrays[i].dims().2
        } by {
            assert(*arrays[i] == arrays_view(arrays@)[i]);
            assert(value_arrays(sources)[i] == *sources[i].values().data());
            assert(sources[i].wf());
            assert(sources[i].values().components()@ == components@);
            assert(all[i].len() == sources[i].values().samples()@.count());
            assert(columns@[i].0 <= columns@[i].1);
        }
        assert forall|i: int| 0 <= i < arrays.len() implies (#[trigger] nested_view(placed@)[i]).no_duplicates() by {
            assert(all[i].len() == sources[i].values().samples()@.count());
        }
        assert forall|i: int, k: int| 0 <= i < k < arrays.len() implies disjoint_columns(
            #[trigger] columns[i],
            #[trigger] columns[k],
        ) || disjoint_rows(nested_view(placed@)[i], nested_view(placed@)[k]) by {
            assert(disjoint_columns(columns@[i], columns@[k]) || disjoint_rows(all[i], all[k]));
        }
    }
    let data = match gather(first.values().data(), shape, &samples, placed, &arrays, &mapping, columns) {
        Ok(data) => data,
        Err(e) => {
            return Err(Error::ArrayBackend(e));
        },
    };
    match Block::new(data, samples, components, properties) {
        Ok(merged) => Ok((merged, mapping)),
        Err(e) => {
            assert(!(e is InvalidParameter));
            Err(e)
        },
    }
}

/// Merges the blocks into one. `placed` gives, for every block, the rows
/// under which its samples stand in the merged block, and `columns` the range
/// of properties of the merged block that the block fills. The gradients of
/// the blocks are merged along with their values.
pub fn merge_blocks<A: Array>(
    blocks: &Vec<&Block<A>>,
    sample_names: Vec<&str>,
    placed: &Vec<Vec<Vec<LabelValue>>>,
    components: Arc<Labels>,
    properties: Arc<Labels>,
    columns: &Vec<(usize, usize)>,
) -> (r: Result<Block<A>, Error>)
    requires
        fit_to_merge(
            blocks_view(blocks@),
            strs_view(sample_names@),
            nested_view(placed@),
            components@,
            properties@,
            columns@,
        ),
    ensures
        too_many_samples(blocks_view(blocks@), nested_view(placed@)) <==> r matches Err(Error::InvalidParameter(_)),
        match r {
            Ok(merged) => is_merged_block(
                blocks_view(blocks@),
                strs_view(sample_names@),
                nested_view(placed@),
                components@,
                properties@,
                columns@,
                &merged,
            ),
            Err(Error::InvalidParameter(m)) => m@ == too_many_message(),
            Err(Error::ArrayBackend(_)) => true,
            Err(Error::Unimplemented(_)) => false,
        },
{
    let ghost sources = blocks_view(blocks@);
    let ghost all = nested_view(placed@);
    let ghost names_view = strs_view(sample_names@);
    let components_count = components.count();
    let properties_count = properties.count();
    let (mut merged, mapping) = match merge_values(blocks, sample_names, placed, components, properties, columns) {
        Ok(merged) => merged,
        Err(e) => {
            return Err(e);
        },
    };
    let first: &Block<A> = blocks[0];
    assert(sources[0] == *first);
    assert(sources[0].wf());
    let gradient_names = first.gradients_list();
    let ghost values = *merged.values();
    let ghost merged_rows = merged.values().samples()@.rows;
    let ghost maps = mappings_view(mapping@);
    let samples_count = merged.values().samples().count();
    proof {
        assert(strs_view(gradient_names@).len() == gradient_names.len());
        assert(merged.gradient_names() =~= first.gradient_names().take(0));
        crate::sorted::lemma_sorted_distinct(merged_rows);
    }
    let mut g: usize = 0;
    while g < gradient_names.len()
        invariant
            g <= gradient_names.len(),
            sources == blocks_view(blocks@),
            all == nested_view(placed@),
            maps == mappings_view(mapping@),
            sources[0] == *first,
            strs_view(gradient_names@) == first.gradient_names(),
            fit_to_merge(sources, names_view, all, values.components()@, values.properties()@, columns@),
            !too_many_samples(sources, all),
            merged.wf(),
            *merged.values() == values,
            merged_rows == values.samples()@.rows,
            merged_rows.no_duplicates(),
            samples_count == merged_rows.len(),
            components_count == values.components()@.count(),
            properties_count == values.properties()@.count(),
            values.data().origin_tag() == first.values().data().origin_tag(),
            mapping.len() == blocks.len(),
            gradient_names.len() > 0 ==> merged_rows.len() <= i32::MAX,
            forall|i: int| 0 <= i < blocks.len() ==> (#[trigger] mapping[i]).len() == placed[i].len(),
            forall|i: int, j: int|
                0 <= i < blocks.len() && 0 <= j < placed[i].len() ==> (#[trigger] mapping[i][j]) < merged_rows.len()
                    && merged_rows[mapping[i][j] as int] == all[i][j],
            merged.gradient_names() == first.gradient_names().take(g as int),
            merged.gradients().len() == g,
            forall|n: int|
                0 <= n < g ==> is_merged_gradient(
                    sources,
                    first.gradient_names()[n],
                    all,
                    columns@,
                    merged_rows,
                    &#[trigger] merged.gradients()[n],
                ),
        decreases gradient_names.len() - g,
    {
        let name = gradient_names[g];
        let ghost name_view = first.gradient_names()[g as int];
        proof {
            assert(strs_view(gradient_names@)[g as int] == name@);
            assert forall|i: int| 0 <= i < sources.len() implies is_mapping(#[trigger] maps[i], all[i], merged_rows) by {
                assert(maps[i] == mapping[i]@);
                assert(all[i].len() == placed[i].len());
                assert forall|j: int| 0 <= j < maps[i].len() implies (#[trigger] maps[i][j]) < merged_rows.len()
                    && maps[i][j] <= i32::MAX && merged_rows[maps[i][j] as int] == all[i][j] by {
                    assert(mapping[i][j] < merged_rows.len());
                }
            }
            assert forall|i: int| 0 <= i < sources.len() implies has_gradient_like(
                &sources[0],
                #[trigger] sources[i],
                name_view,
            ) by {
                assert(has_gradient_like(&sources[0], sources[i], sources[0].gradient_names()[g as int]));
            }
            assert(gradients_fit(sources, name_view, maps, all, merged_rows));
        }
        let (labels, rows, positions) = merge_gradient_samples(
            blocks,
            name,
            &mapping,
            Ghost(all),
            Ghost(merged_rows),
        );
        proof {
            assert forall|i: int| 0 <= i < blocks.len() implies (#[trigger] blocks[i]).wf()
                && blocks[i].gradient_names().contains(name@) by {
                assert(sources[i] == *blocks[i]);
                assert(sources[i].wf());
                assert(has_gradient_like(&sources[0], sources[i], name_view));
            }
        }
        let arrays = gradient_arrays_of(blocks, name);
        let shape = (labels.count(), components_count, properties_count);
        proof {
            lemma_gradient_places(sources, name_view, maps, all, merged_rows, columns@);
            let wanted = gradient_rows(sources, name_view, all, merged_rows);
            assert forall|i: int| 0 <= i < arrays.len() implies {
                &&& (#[trigger] arrays[i]).dims().0 == rows[i].len()
                &&& arrays[i].dims().1 == shape.1
                &&& columns[i].0 <= columns[i].1 <= shape.2
                &&& columns[i].1 - columns[i].0 == arrays[i].dims().2
            } by {
                assert(*arrays[i] == arrays_view(arrays@)[i]);
                let gradient = gradient_arrays(sources, name_view)[i];
                assert(gradient.dims().0 == wanted[i].len());
                assert(nested_view(rows@)[i] == rows_view(rows[i]@));
                assert(sources[i].wf());
                assert(sources[i].values().components()@ == values.components()@);
                assert(columns@[i].0 <= columns@[i].1);
            }
            assert forall|i: int| 0 <= i < arrays.len() implies (#[trigger] positions[i]).len() == rows[i].len() by {}
            assert forall|i: int| 0 <= i < arrays.len() implies (#[trigger] nested_view(rows@)[i]).no_duplicates() by {
                assert(wanted[i].no_duplicates());
            }
            assert forall|i: int, k: int| 0 <= i < k < arrays.len() implies disjoint_columns(
                #[trigger] columns[i],
                #[trigger] columns[k],
            ) || disjoint_rows(nested_view(rows@)[i], nested_view(rows@)[k]) by {
                assert(disjoint_columns(columns@[i], columns@[k]) || disjoint_rows(wanted[i], wanted[k]));
            }
        }
        let data = match gather(first.values().data(), shape, &labels, &rows, &arrays, &positions, columns) {
            Ok(data) => data,
            Err(e) => {
                return Err(Error::ArrayBackend(e));
            },
        };
        let ghost before = merged;
        proof {
            let taken = first.gradient_names().take(g as int);
            assert(!taken.contains(name_view)) by {
                if taken.contains(name_view) {
                    let at = choose|at: int| 0 <= at < taken.len() && taken[at] == name_view;
                    assert(first.gradient_names()[at] == first.gradient_names()[g as int]);
                }
            }
            assert(crate::blocks::valid_gradient_name(name_view));
            assert(merged.accepts_gradient(name@, labels@, &data));
        }
        match merged.add_gradient(name, labels, data) {
            Ok(()) => {},
            Err(e) => {
                assert(!(e is InvalidParameter));
                return Err(e);
            },
        }
        proof {
            assert(merged.gradient_names() =~= first.gradient_names().take(g + 1));
            assert forall|n: int| 0 <= n < g + 1 implies is_merged_gradient(
                sources,
                first.gradient_names()[n],
                all,
                columns@,
                merged_rows,
                &#[trigger] merged.gradients()[n],
            ) by {
                if n < g {
                    assert(merged.gradients()[n] == before.gradients()[n]);
                } else {
                    assert(merged.gradients()[n] == merged.gradients().last());
                }
            }
        }
        g += 1;
    }
    proof {
        assert(first.gradient_names().take(g as int) =~= first.gradient_names());
    }
    Ok(merged)
}

} // verus!
