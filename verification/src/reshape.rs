//! Moving variables from the keys to the properties or to the samples of the
//! blocks, which merges the blocks whose keys differ in these variables only.

use crate::array::Array;
use crate::blocks::{gradient_of, share, Block};
use crate::blocks_merge::{blocks_view, is_merged_block, merge_blocks, too_many_message, too_many_samples};
use crate::descriptor::{
    blocks_agree, indices_view, lemma_blocks_agree, same_layout, Descriptor, DescriptorView,
};
use crate::groups::{group, group_keys};
use crate::split::{moved_values, remaining_keys, valid_variables, variables_error};
use crate::error::Error;
use crate::labels::{names_error, strs_view, valid_names, LabelValue, Labels, LabelsBuilder, LabelsView};
use crate::merge::{disjoint_columns, disjoint_rows, nested_view};
use crate::sorted::{copy_row, rows_view};
use std::sync::Arc;
use vstd::prelude::*;

verus! {

/// The blocks at the given indices, in the order of the indices.
pub open spec fn picked<A: Array>(blocks: Seq<Block<A>>, indices: Seq<int>) -> Seq<Block<A>> {
    Seq::new(indices.len(), |k: int| blocks[indices[k]])
}

/// The rows of the samples of each source.
pub open spec fn sample_rows<A: Array>(sources: Seq<Block<A>>) -> Seq<Seq<Seq<LabelValue>>> {
    Seq::new(sources.len(), |i: int| sources[i].values().samples()@.rows)
}

/// The rows of the samples of each source, each followed by the values that
/// the moved variables take for that source.
pub open spec fn extended_rows<A: Array>(sources: Seq<Block<A>>, moved: LabelsView) -> Seq<Seq<Seq<LabelValue>>> {
    Seq::new(
        sources.len(),
        |i: int|
            Seq::new(
                sources[i].values().samples()@.rows.len(),
                |j: int| sources[i].values().samples()@.rows[j] + moved.rows[i],
            ),
    )
}

/// The number of properties of the sources before source `i`.
pub open spec fn property_start<A: Array>(sources: Seq<Block<A>>, i: int) -> int
    decreases i,
{
    if i <= 0 {
        0
    } else {
        property_start(sources, i - 1) + sources[i - 1].values().properties()@.count()
    }
}

/// The columns that each source fills when the properties of the sources
/// stand one after the other.
pub open spec fn property_columns<A: Array>(sources: Seq<Block<A>>) -> Seq<(usize, usize)> {
    Seq::new(
        sources.len(),
        |i: int| (property_start(sources, i) as usize, property_start(sources, i + 1) as usize),
    )
}

/// The columns that each source fills when every source fills all of them.
pub open spec fn full_columns<A: Array>(sources: Seq<Block<A>>) -> Seq<(usize, usize)> {
    Seq::new(sources.len(), |i: int| (0usize, sources[0].values().properties()@.count() as usize))
}

/// `properties` has the moved variables as its first columns, then those of
/// the properties of the sources. Its rows are, source after source, the
/// values of the moved variables for that source followed by each of the
/// rows of the properties of the source.
pub open spec fn is_merged_properties<A: Array>(
    sources: Seq<Block<A>>,
    moved: LabelsView,
    properties: LabelsView,
) -> bool {
    &&& properties.names == moved.names + sources[0].values().properties()@.names
    &&& properties.rows.len() == property_start(sources, sources.len() as int)
    &&& forall|i: int, p: int|
        0 <= i < sources.len() && 0 <= p < sources[i].values().properties()@.count() ==> properties.rows[property_start(
            sources,
            i,
        ) + p] == moved.rows[i] + #[trigger] sources[i].values().properties()@.rows[p]
}

/// The sources can be merged along the properties: they have the same
/// components, and no moved variable is named like a property column.
pub open spec fn properties_mergeable<A: Array>(sources: Seq<Block<A>>, moved: LabelsView) -> bool {
    &&& forall|i: int|
        0 <= i < sources.len() ==> (#[trigger] sources[i]).values().components()@
            == sources[0].values().components()@
    &&& valid_names(moved.names + sources[0].values().properties()@.names)
}

/// The sources can be merged along the samples: they have the same
/// components and the same properties, and no moved variable is named like a
/// sample column.
pub open spec fn samples_mergeable<A: Array>(sources: Seq<Block<A>>, moved: LabelsView) -> bool {
    &&& forall|i: int|
        0 <= i < sources.len() ==> (#[trigger] sources[i]).values().components()@
            == sources[0].values().components()@
    &&& forall|i: int|
        0 <= i < sources.len() ==> (#[trigger] sources[i]).values().properties()@
            == sources[0].values().properties()@
    &&& valid_names(sources[0].values().samples()@.names + moved.names)
}

/// The message for blocks with different components.
pub open spec fn different_components_message(axis: Seq<char>) -> Seq<char> {
    "can not move sparse label to "@ + axis
        + " if the blocks have different components labels, call components_to_properties first"@
}

/// The message that refuses to merge the sources along the properties, if it
/// is refused.
pub open spec fn properties_merge_error<A: Array>(sources: Seq<Block<A>>, moved: LabelsView) -> Option<Seq<char>> {
    if !(forall|i: int|
        0 <= i < sources.len() ==> (#[trigger] sources[i]).values().components()@
            == sources[0].values().components()@) {
        Some(different_components_message("properties"@))
    } else if !valid_names(moved.names + sources[0].values().properties()@.names) {
        names_error(moved.names + sources[0].values().properties()@.names)
    } else if too_many_samples(sources, sample_rows(sources)) {
        Some(too_many_message())
    } else {
        None
    }
}

/// The message that refuses to merge the sources along the samples, if it is
/// refused.
pub open spec fn samples_merge_error<A: Array>(sources: Seq<Block<A>>, moved: LabelsView) -> Option<Seq<char>> {
    if !(forall|i: int|
        0 <= i < sources.len() ==> (#[trigger] sources[i]).values().components()@
            == sources[0].values().components()@) {
        Some(different_components_message("samples"@))
    } else if !(forall|i: int|
        0 <= i < sources.len() ==> (#[trigger] sources[i]).values().properties()@
            == sources[0].values().properties()@) {
        Some("can not move sparse label to samples if the blocks have different property labels"@)
    } else if !valid_names(sources[0].values().samples()@.names + moved.names) {
        Some("can not move sparse label to samples under the name of a samples variable"@)
    } else if too_many_samples(sources, extended_rows(sources, moved)) {
        Some(too_many_message())
    } else {
        None
    }
}

/// The merge of the sources along the properties is refused: they can not be
/// merged, or the merged samples are too many for the gradients.
pub open spec fn properties_merge_refused<A: Array>(sources: Seq<Block<A>>, moved: LabelsView) -> bool {
    !properties_mergeable(sources, moved) || too_many_samples(sources, sample_rows(sources))
}

/// The merge of the sources along the samples is refused: they can not be
/// merged, or the merged samples are too many for the gradients.
pub open spec fn samples_merge_refused<A: Array>(sources: Seq<Block<A>>, moved: LabelsView) -> bool {
    !samples_mergeable(sources, moved) || too_many_samples(sources, extended_rows(sources, moved))
}

/// `merged` is the merge of the sources along the properties, source `i`
/// standing under the row `i` of `moved`.
pub open spec fn is_properties_merge<A: Array>(sources: Seq<Block<A>>, moved: LabelsView, merged: &Block<A>) -> bool {
    &&& is_merged_properties(sources, moved, merged.values().properties()@)
    &&& is_merged_block(
        sources,
        sources[0].values().samples()@.names,
        sample_rows(sources),
        sources[0].values().components()@,
        merged.values().properties()@,
        property_columns(sources),
        merged,
    )
}

/// `merged` is the merge of the sources along the samples, source `i`
/// standing under the row `i` of `moved`.
pub open spec fn is_samples_merge<A: Array>(sources: Seq<Block<A>>, moved: LabelsView, merged: &Block<A>) -> bool {
    is_merged_block(
        sources,
        sources[0].values().samples()@.names + moved.names,
        extended_rows(sources, moved),
        sources[0].values().components()@,
        sources[0].values().properties()@,
        full_columns(sources),
        merged,
    )
}

/// Rows of one length followed by different rows, or different rows of one
/// length followed by anything, are different.
pub proof fn lemma_concat_parts<T>(a: Seq<T>, b: Seq<T>, c: Seq<T>, d: Seq<T>)
    requires
        a.len() == c.len(),
        a + b == c + d,
    ensures
        a == c,
        b == d,
{
    assert((a + b).len() == a.len() + b.len());
    assert((c + d).len() == c.len() + d.len());
    assert(b.len() == d.len());
    assert forall|i: int| 0 <= i < a.len() implies a[i] == c[i] by {
        assert((a + b)[i] == a[i]);
        assert((c + d)[i] == c[i]);
    }
    assert(a =~= c);
    assert forall|i: int| 0 <= i < b.len() implies b[i] == d[i] by {
        assert((a + b)[a.len() + i] == b[i]);
        assert((c + d)[c.len() + i] == d[i]);
    }
    assert(b =~= d);
}

/// The blocks at the given indices.
fn select_blocks<'a, A: Array>(blocks: &'a [Block<A>], indices: &Vec<usize>) -> (selected: Vec<&'a Block<A>>)
    requires
        forall|k: int| 0 <= k < indices.len() ==> (#[trigger] indices[k]) < blocks.len(),
    ensures
        selected.len() == indices.len(),
        blocks_view(selected@) == picked(blocks@, indices_view(indices@)),
{
    let mut selected: Vec<&'a Block<A>> = Vec::new();
    let mut k: usize = 0;
    while k < indices.len()
        invariant
            k <= indices.len(),
            selected.len() == k,
            forall|n: int| 0 <= n < indices.len() ==> (#[trigger] indices[n]) < blocks.len(),
            forall|n: int| 0 <= n < k ==> *(#[trigger] selected[n]) == blocks@[indices[n] as int],
        decreases indices.len() - k,
    {
        selected.push(&blocks[indices[k]]);
        k += 1;
    }
    assert(blocks_view(selected@) =~= picked(blocks@, indices_view(indices@)));
    selected
}

/// Copies of the rows of the samples of each block.
fn sample_rows_of<A: Array>(blocks: &Vec<&Block<A>>) -> (rows: Vec<Vec<Vec<LabelValue>>>)
    ensures
        rows.len() == blocks.len(),
        nested_view(rows@) == sample_rows(blocks_view(blocks@)),
{
    let mut rows: Vec<Vec<Vec<LabelValue>>> = Vec::new();
    let mut i: usize = 0;
    while i < blocks.len()
        invariant
            i <= blocks.len(),
            rows.len() == i,
            forall|n: int| 0 <= n < i ==> rows_view((#[trigger] rows[n])@) == blocks[n].values().samples()@.rows,
        decreases blocks.len() - i,
    {
        let block: &Block<A> = blocks[i];
        let samples = block.values().samples();
        let mut copied: Vec<Vec<LabelValue>> = Vec::new();
        let mut j: usize = 0;
        while j < samples.count()
            invariant
                j <= samples@.count(),
                copied.len() == j,
                forall|n: int| 0 <= n < j ==> (#[trigger] copied[n])@ == samples@.rows[n],
            decreases samples@.count() - j,
        {
            copied.push(copy_row(samples.row(j)));
            j += 1;
        }
        assert(rows_view(copied@) =~= samples@.rows);
        rows.push(copied);
        i += 1;
    }
    assert(nested_view(rows@) =~= sample_rows(blocks_view(blocks@)));
    rows
}

/// The rows of the samples of each block, each followed by the row of
/// `moved` that the block stands under.
fn extended_sample_rows_of<A: Array>(blocks: &Vec<&Block<A>>, moved: &Labels) -> (rows: Vec<Vec<Vec<LabelValue>>>)
    requires
        blocks.len() <= moved@.count(),
    ensures
        rows.len() == blocks.len(),
        nested_view(rows@) == extended_rows(blocks_view(blocks@), moved@),
{
    let ghost wanted = extended_rows(blocks_view(blocks@), moved@);
    let mut rows: Vec<Vec<Vec<LabelValue>>> = Vec::new();
    let mut i: usize = 0;
    while i < blocks.len()
        invariant
            i <= blocks.len(),
            blocks.len() <= moved@.count(),
            wanted == extended_rows(blocks_view(blocks@), moved@),
            rows.len() == i,
            forall|n: int| 0 <= n < i ==> rows_view((#[trigger] rows[n])@) == wanted[n],
        decreases blocks.len() - i,
    {
        let block: &Block<A> = blocks[i];
        let samples = block.values().samples();
        let suffix = moved.row(i);
        let mut extended: Vec<Vec<LabelValue>> = Vec::new();
        let mut j: usize = 0;
        while j < samples.count()
            invariant
                j <= samples@.count(),
                extended.len() == j,
                suffix@ == moved@.rows[i as int],
                forall|n: int| 0 <= n < j ==> (#[trigger] extended[n])@ == samples@.rows[n] + suffix@,
            decreases samples@.count() - j,
        {
            let mut row = copy_row(samples.row(j));
            let mut c: usize = 0;
            while c < suffix.len()
                invariant
                    c <= suffix.len(),
                    row@ == samples@.rows[j as int] + suffix@.take(c as int),
                decreases suffix.len() - c,
            {
                row.push(suffix[c]);
                assert(suffix@.take(c + 1) =~= suffix@.take(c as int).push(suffix[c as int]));
                assert(row@ =~= samples@.rows[j as int] + suffix@.take(c + 1));
                c += 1;
            }
            assert(suffix@.take(suffix.len() as int) =~= suffix@);
            extended.push(row);
            j += 1;
        }
        assert(rows_view(extended@) =~= wanted[i as int]);
        rows.push(extended);
        i += 1;
    }
    assert(nested_view(rows@) =~= wanted);
    rows
}

/// The names of `first` followed by those of `second`.
fn joined_names<'a>(first: Vec<&'a str>, second: Vec<&'a str>) -> (names: Vec<&'a str>)
    ensures
        strs_view(names@) == strs_view(first@) + strs_view(second@),
{
    let mut names = first;
    let mut i: usize = 0;
    while i < second.len()
        invariant
            i <= second.len(),
            strs_view(names@) == strs_view(first@) + strs_view(second@).take(i as int),
        decreases second.len() - i,
    {
        let ghost before = strs_view(names@);
        names.push(second[i]);
        assert(strs_view(names@) =~= before.push(second[i as int]@));
        assert(strs_view(second@).take(i + 1) =~= strs_view(second@).take(i as int).push(second[i as int]@));
        assert(strs_view(names@) =~= strs_view(first@) + strs_view(second@).take(i + 1));
        i += 1;
    }
    assert(strs_view(second@).take(second.len() as int) =~= strs_view(second@));
    names
}

/// Whether all the blocks have the components of the first.
fn same_components<A: Array>(blocks: &Vec<&Block<A>>) -> (same: bool)
    requires
        blocks.len() > 0,
    ensures
        same == (forall|i: int|
            0 <= i < blocks.len() ==> (#[trigger] blocks_view(blocks@)[i]).values().components()@ == blocks_view(
                blocks@,
            )[0].values().components()@),
{
    let first: &Block<A> = blocks[0];
    let ghost sources = blocks_view(blocks@);
    let mut i: usize = 0;
    while i < blocks.len()
        invariant
            i <= blocks.len(),
            sources == blocks_view(blocks@),
            sources[0] == *first,
            forall|n: int| 0 <= n < i ==> (#[trigger] sources[n]).values().components()@ == first.values().components()@,
        decreases blocks.len() - i,
    {
        let block: &Block<A> = blocks[i];
        assert(sources[i as int] == *block);
        if !block.values().components().equals(first.values().components()) {
            return false;
        }
        i += 1;
    }
    true
}

/// Whether all the blocks have the properties of the first.
fn same_properties<A: Array>(blocks: &Vec<&Block<A>>) -> (same: bool)
    requires
        blocks.len() > 0,
    ensures
        same == (forall|i: int|
            0 <= i < blocks.len() ==> (#[trigger] blocks_view(blocks@)[i]).values().properties()@ == blocks_view(
                blocks@,
            )[0].values().properties()@),
{
    let first: &Block<A> = blocks[0];
    let ghost sources = blocks_view(blocks@);
    let mut i: usize = 0;
    while i < blocks.len()
        invariant
            i <= blocks.len(),
            sources == blocks_view(blocks@),
            sources[0] == *first,
            forall|n: int| 0 <= n < i ==> (#[trigger] sources[n]).values().properties()@ == first.values().properties()@,
        decreases blocks.len() - i,
    {
        let block: &Block<A> = blocks[i];
        assert(sources[i as int] == *block);
        if !block.values().properties().equals(first.values().properties()) {
            return false;
        }
        i += 1;
    }
    true
}

/// The starts of the sources grow with the sources.
pub proof fn lemma_property_start_grows<A: Array>(sources: Seq<Block<A>>, i: int, k: int)
    requires
        0 <= i <= k,
    ensures
        property_start(sources, i) <= property_start(sources, k),
        0 <= property_start(sources, i),
    decreases k,
{
    if i < k {
        lemma_property_start_grows(sources, i, k - 1);
    } else if i > 0 {
        lemma_property_start_grows(sources, i - 1, k - 1);
    }
}

/// The properties of the block that merges the given blocks along the
/// properties, and the columns of it that each block fills.
fn merged_properties<A: Array>(blocks: &Vec<&Block<A>>, moved: &Labels) -> (r: Result<
    (Labels, Vec<(usize, usize)>),
    Error,
>)
    requires
        0 < blocks.len() <= moved@.count(),
        moved.wf(),
        forall|i: int| 0 <= i < blocks.len() ==> (#[trigger] blocks[i]).wf(),
        forall|i: int|
            0 <= i < blocks.len() ==> (#[trigger] blocks[i]).values().properties()@.names
                == blocks[0].values().properties()@.names,
    ensures
        match r {
            Ok((properties, columns)) => {
                &&& valid_names(moved@.names + blocks[0].values().properties()@.names)
                &&& properties.wf()
                &&& is_merged_properties(blocks_view(blocks@), moved@, properties@)
                &&& columns@ == property_columns(blocks_view(blocks@))
            },
            Err(e) => {
                &&& !valid_names(moved@.names + blocks[0].values().properties()@.names)
                &&& e matches Error::InvalidParameter(m) && names_error(
                    moved@.names + blocks[0].values().properties()@.names,
                ) == Some(m@)
            },
        },
{
    let ghost sources = blocks_view(blocks@);
    let first: &Block<A> = blocks[0];
    assert(sources[0] == *first);
    let names = joined_names(moved.names(), first.values().properties().names());
    let ghost columns_names = strs_view(names@);
    let mut builder = match LabelsBuilder::new(names) {
        Ok(builder) => builder,
        Err(e) => {
            return Err(e);
        },
    };
    let mut columns: Vec<(usize, usize)> = Vec::new();
    let ghost mut origins: Seq<(int, int)> = Seq::empty();
    let mut i: usize = 0;
    while i < blocks.len()
        invariant
            i <= blocks.len(),
            0 < blocks.len() <= moved@.count(),
            moved.wf(),
            sources == blocks_view(blocks@),
            sources[0] == *first,
            forall|n: int| 0 <= n < blocks.len() ==> (#[trigger] blocks[n]).wf(),
            forall|n: int|
                0 <= n < blocks.len() ==> (#[trigger] blocks[n]).values().properties()@.names
                    == first.values().properties()@.names,
            builder.wf(),
            builder@.names == columns_names,
            columns_names == moved@.names + first.values().properties()@.names,
            builder@.rows.len() == property_start(sources, i as int),
            origins.len() == builder@.rows.len(),
            forall|n: int|
                0 <= n < origins.len() ==> {
                    let at = #[trigger] origins[n];
                    &&& 0 <= at.0 < i
                    &&& 0 <= at.1 < sources[at.0].values().properties()@.count()
                    &&& builder@.rows[n] == moved@.rows[at.0] + sources[at.0].values().properties()@.rows[at.1]
                },
            forall|b: int, p: int|
                0 <= b < i && 0 <= p < sources[b].values().properties()@.count() ==> builder@.rows[property_start(
                    sources,
                    b,
                ) + p] == moved@.rows[b] + #[trigger] sources[b].values().properties()@.rows[p],
            columns.len() == i,
            forall|b: int|
                0 <= b < i ==> (#[trigger] columns[b]) == (
                    property_start(sources, b) as usize,
                    property_start(sources, b + 1) as usize,
                ),
        decreases blocks.len() - i,
    {
        let block: &Block<A> = blocks[i];
        assert(sources[i as int] == *block);
        let properties = block.values().properties();
        let prefix = moved.row(i);
        let start = builder.count();
        let ghost table = properties@;
        proof {
            lemma_property_start_grows(sources, 0, i as int);
        }
        let mut p: usize = 0;
        while p < properties.count()
            invariant
                p <= table.count(),
                i < blocks.len(),
                blocks.len() <= moved@.count(),
                moved.wf(),
                sources == blocks_view(blocks@),
                sources[i as int] == *block,
                table == properties@,
                table == sources[i as int].values().properties()@,
                table.wf(),
                table.names == first.values().properties()@.names,
                prefix@ == moved@.rows[i as int],
                builder.wf(),
                builder@.names == columns_names,
                columns_names == moved@.names + first.values().properties()@.names,
                start == property_start(sources, i as int),
                builder@.rows.len() == start + p,
                origins.len() == builder@.rows.len(),
                forall|n: int|
                    0 <= n < origins.len() ==> {
                        let at = #[trigger] origins[n];
                        &&& 0 <= at.0 <= i
                        &&& at.0 == i ==> at.1 < p
                        &&& 0 <= at.1 < sources[at.0].values().properties()@.count()
                        &&& builder@.rows[n] == moved@.rows[at.0] + sources[at.0].values().properties()@.rows[at.1]
                    },
                forall|b: int, q: int|
                    0 <= b < i && 0 <= q < sources[b].values().properties()@.count() ==> builder@.rows[property_start(
                        sources,
                        b,
                    ) + q] == moved@.rows[b] + #[trigger] sources[b].values().properties()@.rows[q],
                forall|q: int| 0 <= q < p ==> builder@.rows[start + q] == prefix@ + #[trigger] table.rows[q],
            decreases table.count() - p,
        {
            let old_row = properties.row(p);
            let mut row = copy_row(prefix);
            let mut c: usize = 0;
            while c < old_row.len()
                invariant
                    c <= old_row.len(),
                    row@ == prefix@ + old_row@.take(c as int),
                decreases old_row.len() - c,
            {
                row.push(old_row[c]);
                assert(old_row@.take(c + 1) =~= old_row@.take(c as int).push(old_row[c as int]));
                assert(row@ =~= prefix@ + old_row@.take(c + 1));
                c += 1;
            }
            assert(old_row@.take(old_row.len() as int) =~= old_row@);
            let ghost before = builder@.rows;
            proof {
                assert(moved@.rows[i as int].len() == moved@.arity());
                assert(table.rows[p as int].len() == table.arity());
                assert(row@.len() == columns_names.len());
                if before.contains(row@) {
                    let n = choose|n: int| 0 <= n < before.len() && before[n] == row@;
                    let at = origins[n];
                    assert(moved@.rows[at.0].len() == moved@.arity());
                    lemma_concat_parts(
                        moved@.rows[at.0],
                        sources[at.0].values().properties()@.rows[at.1],
                        prefix@,
                        old_row@,
                    );
                    assert(at.0 == i);
                    assert(table.rows[at.1] == table.rows[p as int]);
                    assert(false);
                }
            }
            match builder.add(row) {
                Ok(()) => {},
                Err(e) => {
                    assert(false);
                    return Err(e);
                },
            }
            proof {
                origins = origins.push((i as int, p as int));
                assert forall|b: int, q: int|
                    0 <= b < i && 0 <= q < sources[b].values().properties()@.count() implies builder@.rows[property_start(
                    sources,
                    b,
                ) + q] == moved@.rows[b] + #[trigger] sources[b].values().properties()@.rows[q] by {
                    lemma_property_start_grows(sources, b + 1, i as int);
                    lemma_property_start_grows(sources, 0, b);
                    assert(before[property_start(sources, b) + q] == moved@.rows[b]
                        + sources[b].values().properties()@.rows[q]);
                }
            }
            p += 1;
        }
        let end = builder.count();
        assert(end == property_start(sources, i + 1));
        columns.push((start, end));
        i += 1;
    }
    proof {
        assert(columns@ =~= property_columns(sources));
    }
    Ok((builder.finish(), columns))
}

/// The number of samples of the first `n` sources together.
pub open spec fn total_samples<A: Array>(sources: Seq<Block<A>>, n: int) -> int
    decreases n,
{
    if n <= 0 {
        0
    } else {
        total_samples(sources, n - 1) + sources[n - 1].values().samples()@.count()
    }
}

/// Lists of rows, one for each sample of each source, hold as many rows
/// together as the sources have samples.
proof fn lemma_all_rows_len<A: Array>(sources: Seq<Block<A>>, placed: Seq<Seq<Seq<LabelValue>>>, n: int)
    requires
        0 <= n <= sources.len(),
        placed.len() == sources.len(),
        forall|i: int| 0 <= i < sources.len() ==> (#[trigger] placed[i]).len() == sources[i].values().samples()@.count(),
    ensures
        crate::merge::all_rows(placed.take(n)).len() == total_samples(sources, n),
    decreases n,
{
    if n > 0 {
        lemma_all_rows_len(sources, placed, n - 1);
        assert(placed.take(n).drop_last() =~= placed.take(n - 1));
        assert(placed.take(n).last() == placed[n - 1]);
    }
}

/// The number of samples of all the blocks together, if it fits in `usize`.
fn count_samples<A: Array>(blocks: &Vec<&Block<A>>) -> (r: Option<usize>)
    ensures
        match r {
            Some(count) => count == total_samples(blocks_view(blocks@), blocks.len() as int),
            None => total_samples(blocks_view(blocks@), blocks.len() as int) > usize::MAX,
        },
{
    let ghost sources = blocks_view(blocks@);
    let mut count: usize = 0;
    let mut i: usize = 0;
    while i < blocks.len()
        invariant
            i <= blocks.len(),
            sources == blocks_view(blocks@),
            count == total_samples(sources, i as int),
        decreases blocks.len() - i,
    {
        let block: &Block<A> = blocks[i];
        assert(sources[i as int] == *block);
        match count.checked_add(block.values().samples().count()) {
            Some(sum) => {
                count = sum;
            },
            None => {
                proof {
                    lemma_total_samples_grows(sources, i + 1, blocks.len() as int);
                }
                return None;
            },
        }
        i += 1;
    }
    Some(count)
}

/// More sources have at least as many samples together.
proof fn lemma_total_samples_grows<A: Array>(sources: Seq<Block<A>>, n: int, m: int)
    requires
        0 <= n <= m,
    ensures
        total_samples(sources, n) <= total_samples(sources, m),
    decreases m,
{
    if n < m {
        lemma_total_samples_grows(sources, n, m - 1);
    }
}

/// The rows under which the samples of the sources stand in the merged
/// block: their own, or their own followed by the values of the moved
/// variables.
pub open spec fn placed_rows<A: Array>(sources: Seq<Block<A>>, moved: Option<LabelsView>) -> Seq<
    Seq<Seq<LabelValue>>,
> {
    match moved {
        None => sample_rows(sources),
        Some(moved) => extended_rows(sources, moved),
    }
}

/// Whether the merged samples of the blocks are too many for their
/// gradients. The samples are merged as they are, or each followed by the
/// row of `moved` that its block stands under.
fn too_many_for<A: Array>(blocks: &Vec<&Block<A>>, moved: Option<&Labels>) -> (r: bool)
    requires
        blocks.len() > 0,
        forall|i: int| 0 <= i < blocks.len() ==> (#[trigger] blocks[i]).wf(),
        moved matches Some(moved) ==> blocks.len() <= moved@.count(),
    ensures
        r == too_many_samples(
            blocks_view(blocks@),
            placed_rows(
                blocks_view(blocks@),
                match moved {
                    Some(moved) => Some(moved@),
                    None => None,
                },
            ),
        ),
{
    let ghost sources = blocks_view(blocks@);
    let ghost placed = placed_rows(
        sources,
        match moved {
            Some(moved) => Some(moved@),
            None => None,
        },
    );
    let first: &Block<A> = blocks[0];
    assert(sources[0] == *first);
    let gradients = first.gradients_list();
    assert(strs_view(gradients@).len() == gradients.len());
    if gradients.len() == 0 {
        return false;
    }
    proof {
        assert forall|i: int| 0 <= i < sources.len() implies (#[trigger] placed[i]).len()
            == sources[i].values().samples()@.count() by {}
        lemma_all_rows_len(sources, placed, sources.len() as int);
        assert(placed.take(sources.len() as int) =~= placed);
    }
    match count_samples(blocks) {
        Some(count) => {
            if count <= 2147483647 {
                proof {
                    if too_many_samples(sources, placed) {
                        let rows = choose|rows: Seq<Seq<LabelValue>>|
                            crate::merge::is_sorted_union(rows, placed) && rows.len() > i32::MAX;
                        crate::merge::lemma_union_is_short(rows, placed);
                    }
                }
                return false;
            }
        },
        None => {},
    }
    let rows = match moved {
        Some(moved) => crate::merge::sorted_union(&extended_sample_rows_of(blocks, moved)),
        None => crate::merge::sorted_union(&sample_rows_of(blocks)),
    };
    proof {
        if too_many_samples(sources, placed) {
            let other = choose|other: Seq<Seq<LabelValue>>|
                crate::merge::is_sorted_union(other, placed) && other.len() > i32::MAX;
            crate::merge::lemma_sorted_union_unique(other, rows_view(rows@), placed);
        }
    }
    rows.len() > 2147483647
}

/// The error for blocks with different components.
fn different_components(axis: &str) -> (e: Error)
    ensures
        e matches Error::InvalidParameter(m) && m@ == different_components_message(axis@),
{
    let mut message = String::from_str("can not move sparse label to ");
    message.append(axis);
    message.append(" if the blocks have different components labels, call components_to_properties first");
    Error::InvalidParameter(message)
}

/// The blocks picked from a descriptor are well formed and agree with each other.
proof fn lemma_picked_agree<A: Array>(descriptor: &Descriptor<A>, indices: Seq<int>)
    requires
        descriptor.wf(),
        forall|k: int| 0 <= k < indices.len() ==> 0 <= #[trigger] indices[k] < descriptor@.blocks.len(),
    ensures
        forall|k: int| 0 <= k < indices.len() ==> (#[trigger] picked(descriptor@.blocks, indices)[k]).wf(),
        forall|k: int, n: int|
            0 <= k < indices.len() && 0 <= n < indices.len() ==> blocks_agree(
                &#[trigger] picked(descriptor@.blocks, indices)[k],
                &#[trigger] picked(descriptor@.blocks, indices)[n],
            ),
{
    let sources = picked(descriptor@.blocks, indices);
    assert forall|k: int| 0 <= k < indices.len() implies (#[trigger] sources[k]).wf() by {
        assert(descriptor@.blocks[indices[k]].wf());
    }
    assert forall|k: int, n: int| 0 <= k < indices.len() && 0 <= n < indices.len() implies blocks_agree(
        &#[trigger] sources[k],
        &#[trigger] sources[n],
    ) by {
        lemma_blocks_agree(descriptor, indices[k], indices[n]);
    }
}

/// Blocks that agree with each other all have the gradients of the first.
proof fn lemma_sources_have_gradients<A: Array>(sources: Seq<Block<A>>)
    requires
        sources.len() > 0,
        forall|k: int| 0 <= k < sources.len() ==> (#[trigger] sources[k]).wf(),
        forall|k: int, n: int|
            0 <= k < sources.len() && 0 <= n < sources.len() ==> blocks_agree(
                &#[trigger] sources[k],
                &#[trigger] sources[n],
            ),
    ensures
        forall|i: int, g: int|
            0 <= i < sources.len() && 0 <= g < sources[0].gradient_names().len()
                ==> crate::blocks_merge::has_gradient_like(
                &sources[0],
                #[trigger] sources[i],
                #[trigger] sources[0].gradient_names()[g],
            ),
{
    assert forall|i: int, g: int|
        0 <= i < sources.len() && 0 <= g < sources[0].gradient_names().len()
            implies crate::blocks_merge::has_gradient_like(
        &sources[0],
        #[trigger] sources[i],
        #[trigger] sources[0].gradient_names()[g],
    ) by {
        let name = sources[0].gradient_names()[g];
        assert(sources[0].gradient_names().contains(name));
        assert(blocks_agree(&sources[0], &sources[i]));
    }
}

impl<A: Array> Descriptor<A> {
    /// Checks that the blocks at the indices `block_idx` can be merged along
    /// the properties; the error says why they can not.
    pub fn check_properties_merge(&self, block_idx: &Vec<usize>, new_property_labels: &Labels) -> (r: Result<
        (),
        Error,
    >)
        requires
            self.wf(),
            new_property_labels.wf(),
            0 < block_idx.len() <= new_property_labels@.count(),
            forall|k: int| 0 <= k < block_idx.len() ==> (#[trigger] block_idx[k]) < self@.blocks.len(),
        ensures
            match properties_merge_error(picked(self@.blocks, indices_view(block_idx@)), new_property_labels@) {
                None => r is Ok,
                Some(text) => r matches Err(Error::InvalidParameter(m)) && m@ == text,
            },
    {
        let ghost sources = picked(self@.blocks, indices_view(block_idx@));
        let blocks = select_blocks(self.blocks(), block_idx);
        proof {
            lemma_picked_agree(self, indices_view(block_idx@));
        }
        if !same_components(&blocks) {
            return Err(different_components("properties"));
        }
        let first: &Block<A> = blocks[0];
        assert(sources[0] == *first);
        let names = joined_names(new_property_labels.names(), first.values().properties().names());
        match LabelsBuilder::new(names) {
            Ok(_) => {},
            Err(e) => {
                return Err(e);
            },
        }
        proof {
            assert forall|i: int| 0 <= i < blocks.len() implies (#[trigger] blocks[i]).wf() by {
                assert(sources[i] == *blocks[i]);
            }
        }
        if too_many_for(&blocks, None) {
            return Err(
                Error::InvalidParameter(
                    String::from_str("too many samples in the merged block for its gradients to refer to"),
                ),
            );
        }
        Ok(())
    }

    /// Checks that the blocks at the indices `block_idx` can be merged along
    /// the samples; the error says why they can not.
    pub fn check_samples_merge(&self, block_idx: &Vec<usize>, new_sample_labels: &Labels) -> (r: Result<(), Error>)
        requires
            self.wf(),
            new_sample_labels.wf(),
            0 < block_idx.len() <= new_sample_labels@.count(),
            forall|k: int| 0 <= k < block_idx.len() ==> (#[trigger] block_idx[k]) < self@.blocks.len(),
        ensures
            match samples_merge_error(picked(self@.blocks, indices_view(block_idx@)), new_sample_labels@) {
                None => r is Ok,
                Some(text) => r matches Err(Error::InvalidParameter(m)) && m@ == text,
            },
    {
        let ghost sources = picked(self@.blocks, indices_view(block_idx@));
        let blocks = select_blocks(self.blocks(), block_idx);
        proof {
            lemma_picked_agree(self, indices_view(block_idx@));
        }
        if !same_components(&blocks) {
            return Err(different_components("samples"));
        }
        if !same_properties(&blocks) {
            return Err(
                Error::InvalidParameter(
                    String::from_str(
                        "can not move sparse label to samples if the blocks have different property labels",
                    ),
                ),
            );
        }
        let first: &Block<A> = blocks[0];
        assert(sources[0] == *first);
        let names = joined_names(first.values().samples().names(), new_sample_labels.names());
        if !crate::labels::names_are_valid(&names) {
            return Err(
                Error::InvalidParameter(
                    String::from_str("can not move sparse label to samples under the name of a samples variable"),
                ),
            );
        }
        proof {
            assert forall|i: int| 0 <= i < blocks.len() implies (#[trigger] blocks[i]).wf() by {
                assert(sources[i] == *blocks[i]);
            }
        }
        if too_many_for(&blocks, Some(new_sample_labels)) {
            return Err(
                Error::InvalidParameter(
                    String::from_str("too many samples in the merged block for its gradients to refer to"),
                ),
            );
        }
        Ok(())
    }

    /// Merges the blocks at the indices `block_idx` along the properties. The
    /// block at `block_idx[i]` stands under the row `i` of
    /// `new_property_labels`, whose values come before its own in the
    /// properties of the merged block.
    pub fn merge_blocks_along_properties(&self, block_idx: &Vec<usize>, new_property_labels: &Labels) -> (r:
        Result<Block<A>, Error>)
        requires
            self.wf(),
            new_property_labels.wf(),
            0 < block_idx.len() <= new_property_labels@.count(),
            forall|k: int| 0 <= k < block_idx.len() ==> (#[trigger] block_idx[k]) < self@.blocks.len(),
        ensures
            properties_merge_refused(picked(self@.blocks, indices_view(block_idx@)), new_property_labels@)
                <==> r matches Err(Error::InvalidParameter(_)),
            match r {
                Ok(merged) => {
                    &&& properties_mergeable(picked(self@.blocks, indices_view(block_idx@)), new_property_labels@)
                    &&& is_properties_merge(
                        picked(self@.blocks, indices_view(block_idx@)),
                        new_property_labels@,
                        &merged,
                    )
                },
                Err(Error::InvalidParameter(m)) => properties_merge_error(
                    picked(self@.blocks, indices_view(block_idx@)),
                    new_property_labels@,
                ) == Some(m@),
                Err(Error::ArrayBackend(_)) => true,
                Err(Error::Unimplemented(_)) => false,
            },
    {
        let ghost sources = picked(self@.blocks, indices_view(block_idx@));
        let ghost moved = new_property_labels@;
        let blocks = select_blocks(self.blocks(), block_idx);
        proof {
            lemma_picked_agree(self, indices_view(block_idx@));
            lemma_sources_have_gradients(sources);
        }
        if !same_components(&blocks) {
            return Err(different_components("properties"));
        }
        proof {
            assert forall|i: int| 0 <= i < blocks.len() implies (#[trigger] blocks[i]).wf()
                && blocks[i].values().properties()@.names == blocks[0].values().properties()@.names by {
                assert(sources[i] == *blocks[i]);
                assert(sources[0] == *blocks[0]);
                assert(blocks_agree(&sources[i], &sources[0]));
            }
        }
        let (properties, columns) = match merged_properties(&blocks, new_property_labels) {
            Ok(merged) => merged,
            Err(e) => {
                return Err(e);
            },
        };
        let placed = sample_rows_of(&blocks);
        let first: &Block<A> = blocks[0];
        assert(sources[0] == *first);
        let names = first.values().samples().names();
        let components = share(first.values().components());
        let total = properties.count();
        let ghost merged_properties_view = properties@;
        let properties = Arc::new(properties);
        assert(properties@ == merged_properties_view);
        proof {
            let all = nested_view(placed@);
            assert(total == property_start(sources, sources.len() as int));
            assert forall|i: int| 0 <= i < sources.len() implies (#[trigger] all[i]).len()
                == sources[i].values().samples()@.count() && all[i].no_duplicates() by {
                assert(sources[i].wf());
            }
            assert forall|i: int, j: int| 0 <= i < all.len() && 0 <= j < all[i].len() implies (#[trigger] all[i][j]).len()
                == strs_view(names@).len() by {
                assert(sources[i].wf());
                assert(blocks_agree(&sources[i], &sources[0]));
                let table = sources[i].values().samples()@;
                assert(table.rows[j].len() == table.arity());
            }
            assert forall|i: int| 0 <= i < sources.len() implies (#[trigger] columns@[i]).0 <= columns@[i].1
                <= properties@.count() && columns@[i].1 - columns@[i].0 == sources[i].values().properties()@.count() by {
                lemma_property_start_grows(sources, 0, i);
                lemma_property_start_grows(sources, i + 1, sources.len() as int);
                assert(columns@[i] == property_columns(sources)[i]);
                assert(property_start(sources, i + 1) == property_start(sources, i)
                    + sources[i].values().properties()@.count());
            }
            assert forall|i: int, k: int| 0 <= i < k < sources.len() implies disjoint_columns(
                #[trigger] columns@[i],
                #[trigger] columns@[k],
            ) || disjoint_rows(all[i], all[k]) by {
                lemma_property_start_grows(sources, 0, i);
                lemma_property_start_grows(sources, i + 1, k);
                lemma_property_start_grows(sources, k + 1, sources.len() as int);
                lemma_property_start_grows(sources, k, k + 1);
                assert(columns@[i] == property_columns(sources)[i]);
                assert(columns@[k] == property_columns(sources)[k]);
            }
        }
        merge_blocks(&blocks, names, &placed, components, properties, &columns)
    }

    /// Merges the blocks at the indices `block_idx` along the samples. The
    /// block at `block_idx[i]` stands under the row `i` of
    /// `new_sample_labels`, whose values come after its own in the samples of
    /// the merged block.
    pub fn merge_blocks_along_samples(&self, block_idx: &Vec<usize>, new_sample_labels: &Labels) -> (r: Result<
        Block<A>,
        Error,
    >)
        requires
            self.wf(),
            new_sample_labels.wf(),
            0 < block_idx.len() <= new_sample_labels@.count(),
            forall|k: int| 0 <= k < block_idx.len() ==> (#[trigger] block_idx[k]) < self@.blocks.len(),
        ensures
            samples_merge_refused(picked(self@.blocks, indices_view(block_idx@)), new_sample_labels@)
                <==> r matches Err(Error::InvalidParameter(_)),
            match r {
                Ok(merged) => {
                    &&& samples_mergeable(picked(self@.blocks, indices_view(block_idx@)), new_sample_labels@)
                    &&& is_samples_merge(picked(self@.blocks, indices_view(block_idx@)), new_sample_labels@, &merged)
                },
                Err(Error::InvalidParameter(m)) => samples_merge_error(
                    picked(self@.blocks, indices_view(block_idx@)),
                    new_sample_labels@,
                ) == Some(m@),
                Err(Error::ArrayBackend(_)) => true,
                Err(Error::Unimplemented(_)) => false,
            },
    {
        let ghost sources = picked(self@.blocks, indices_view(block_idx@));
        let ghost moved = new_sample_labels@;
        let blocks = select_blocks(self.blocks(), block_idx);
        proof {
            lemma_picked_agree(self, indices_view(block_idx@));
            lemma_sources_have_gradients(sources);
        }
        if !same_components(&blocks) {
            return Err(different_components("samples"));
        }
        if !same_properties(&blocks) {
            return Err(
                Error::InvalidParameter(
                    String::from_str(
                        "can not move sparse label to samples if the blocks have different property labels",
                    ),
                ),
            );
        }
        let first: &Block<A> = blocks[0];
        assert(sources[0] == *first);
        assert(sources[0].wf());
        let names = joined_names(first.values().samples().names(), new_sample_labels.names());
        if !crate::labels::names_are_valid(&names) {
            return Err(
                Error::InvalidParameter(
                    String::from_str("can not move sparse label to samples under the name of a samples variable"),
                ),
            );
        }
        let placed = extended_sample_rows_of(&blocks, new_sample_labels);
        let width = first.values().properties().count();
        let mut columns: Vec<(usize, usize)> = Vec::new();
        while columns.len() < blocks.len()
            invariant
                columns.len() <= blocks.len(),
                forall|i: int| 0 <= i < columns.len() ==> (#[trigger] columns[i]) == (0usize, width),
            decreases blocks.len() - columns.len(),
        {
            columns.push((0, width));
        }
        assert(columns@ =~= full_columns(sources));
        let components = share(first.values().components());
        let properties = share(first.values().properties());
        proof {
            let all = nested_view(placed@);
            let arity = sources[0].values().samples()@.arity();
            assert forall|i: int| 0 <= i < sources.len() implies (#[trigger] all[i]).len()
                == sources[i].values().samples()@.count() && all[i].no_duplicates() by {
                assert(sources[i].wf());
                let table = sources[i].values().samples()@;
                assert forall|a: int, b: int| 0 <= a < all[i].len() && 0 <= b < all[i].len() && a != b implies all[i][a]
                    != all[i][b] by {
                    if all[i][a] == all[i][b] {
                        lemma_concat_parts(table.rows[a], moved.rows[i], table.rows[b], moved.rows[i]);
                    }
                }
            }
            assert forall|i: int, j: int| 0 <= i < all.len() && 0 <= j < all[i].len() implies (#[trigger] all[i][j]).len()
                == strs_view(names@).len() by {
                assert(sources[i].wf());
                assert(blocks_agree(&sources[i], &sources[0]));
                let table = sources[i].values().samples()@;
                assert(table.rows[j].len() == table.arity());
                assert(moved.rows[i].len() == moved.arity());
            }
            assert forall|i: int| 0 <= i < sources.len() implies (#[trigger] columns@[i]).0 <= columns@[i].1
                <= properties@.count() && columns@[i].1 - columns@[i].0 == sources[i].values().properties()@.count() by {
                assert(sources[i].values().properties()@ == sources[0].values().properties()@);
            }
            assert forall|i: int, k: int| 0 <= i < k < sources.len() implies disjoint_columns(
                #[trigger] columns@[i],
                #[trigger] columns@[k],
            ) || disjoint_rows(all[i], all[k]) by {
                assert(sources[i].wf() && sources[k].wf());
                assert(blocks_agree(&sources[i], &sources[k]));
                let mine = sources[i].values().samples()@;
                let theirs = sources[k].values().samples()@;
                assert forall|a: int, b: int| 0 <= a < all[i].len() && 0 <= b < all[k].len() implies all[i][a]
                    != all[k][b] by {
                    assert(mine.rows[a].len() == mine.arity());
                    assert(theirs.rows[b].len() == theirs.arity());
                    if all[i][a] == all[k][b] {
                        lemma_concat_parts(mine.rows[a], moved.rows[i], theirs.rows[b], moved.rows[k]);
                    }
                }
            }
        }
        merge_blocks(&blocks, names, &placed, components, properties, &columns)
    }
}

/// The descriptor `after` holds what `before` held, with the variables moved
/// from the keys to the properties: its keys are those that remain, and the
/// block under each of them merges, along the properties, the blocks of
/// `before` whose keys share its values.
pub open spec fn is_moved_to_properties<A: Array>(
    before: DescriptorView<A>,
    variables: Seq<Seq<char>>,
    after: DescriptorView<A>,
) -> bool {
    &&& after.keys == remaining_keys(before.keys, variables)
    &&& after.blocks.len() == group_keys(before.keys, variables).len()
    &&& forall|n: int|
        0 <= n < after.blocks.len() ==> is_properties_merge(
            picked(before.blocks, group(before.keys, variables, n)),
            moved_values(before.keys, variables),
            &#[trigger] after.blocks[n],
        )
}

/// The descriptor `after` holds what `before` held, with the variables moved
/// from the keys to the samples: its keys are those that remain, and the
/// block under each of them merges, along the samples, the blocks of
/// `before` whose keys share its values.
pub open spec fn is_moved_to_samples<A: Array>(
    before: DescriptorView<A>,
    variables: Seq<Seq<char>>,
    after: DescriptorView<A>,
) -> bool {
    &&& after.keys == remaining_keys(before.keys, variables)
    &&& after.blocks.len() == group_keys(before.keys, variables).len()
    &&& forall|n: int|
        0 <= n < after.blocks.len() ==> is_samples_merge(
            picked(before.blocks, group(before.keys, variables, n)),
            moved_values(before.keys, variables),
            &#[trigger] after.blocks[n],
        )
}

/// What moving the variables from the keys to the properties makes of
/// `before`: nothing else when no variable is given or there is no block.
pub open spec fn properties_moved<A: Array>(
    before: DescriptorView<A>,
    variables: Seq<Seq<char>>,
    after: DescriptorView<A>,
) -> bool {
    if variables.len() == 0 || before.keys.count() == 0 {
        after == before
    } else {
        is_moved_to_properties(before, variables, after)
    }
}

/// What moving the variables from the keys to the samples makes of `before`:
/// nothing else when no variable is given or there is no block.
pub open spec fn samples_moved<A: Array>(
    before: DescriptorView<A>,
    variables: Seq<Seq<char>>,
    after: DescriptorView<A>,
) -> bool {
    if variables.len() == 0 || before.keys.count() == 0 {
        after == before
    } else {
        is_moved_to_samples(before, variables, after)
    }
}

/// The first group, from the one at `from` on, whose blocks can not be
/// merged along the properties; the number of groups if there is none.
pub open spec fn first_refused_properties<A: Array>(
    before: DescriptorView<A>,
    variables: Seq<Seq<char>>,
    from: int,
) -> int
    decreases group_keys(before.keys, variables).len() - from,
{
    if from < 0 || from >= group_keys(before.keys, variables).len() {
        group_keys(before.keys, variables).len() as int
    } else if properties_merge_error(
        picked(before.blocks, group(before.keys, variables, from)),
        moved_values(before.keys, variables),
    ) is Some {
        from
    } else {
        first_refused_properties(before, variables, from + 1)
    }
}

/// The first group, from the one at `from` on, whose blocks can not be
/// merged along the samples; the number of groups if there is none.
pub open spec fn first_refused_samples<A: Array>(
    before: DescriptorView<A>,
    variables: Seq<Seq<char>>,
    from: int,
) -> int
    decreases group_keys(before.keys, variables).len() - from,
{
    if from < 0 || from >= group_keys(before.keys, variables).len() {
        group_keys(before.keys, variables).len() as int
    } else if samples_merge_error(
        picked(before.blocks, group(before.keys, variables, from)),
        moved_values(before.keys, variables),
    ) is Some {
        from
    } else {
        first_refused_samples(before, variables, from + 1)
    }
}

/// When no group from the one at `from` on is refused, the group at `n` is not.
proof fn lemma_properties_none_refused<A: Array>(
    before: DescriptorView<A>,
    variables: Seq<Seq<char>>,
    from: int,
    n: int,
)
    requires
        0 <= from <= n < group_keys(before.keys, variables).len(),
        first_refused_properties(before, variables, from) >= group_keys(before.keys, variables).len(),
    ensures
        properties_merge_error(
            picked(before.blocks, group(before.keys, variables, n)),
            moved_values(before.keys, variables),
        ) is None,
    decreases n - from,
{
    if from < n {
        lemma_properties_none_refused(before, variables, from + 1, n);
    }
}

/// When no group from the one at `from` on is refused, the group at `n` is not.
proof fn lemma_samples_none_refused<A: Array>(
    before: DescriptorView<A>,
    variables: Seq<Seq<char>>,
    from: int,
    n: int,
)
    requires
        0 <= from <= n < group_keys(before.keys, variables).len(),
        first_refused_samples(before, variables, from) >= group_keys(before.keys, variables).len(),
    ensures
        samples_merge_error(
            picked(before.blocks, group(before.keys, variables, n)),
            moved_values(before.keys, variables),
        ) is None,
    decreases n - from,
{
    if from < n {
        lemma_samples_none_refused(before, variables, from + 1, n);
    }
}

/// The message that refuses to move the variables to the properties, if the
/// move is refused: that for the variables, or else that for the first
/// group of blocks that can not be merged.
pub open spec fn properties_move_error<A: Array>(before: DescriptorView<A>, variables: Seq<Seq<char>>) -> Option<
    Seq<char>,
> {
    if variables.len() == 0 {
        None
    } else if !valid_variables(before.keys.names, variables) {
        variables_error(before.keys.names, variables)
    } else if before.keys.count() == 0 || first_refused_properties(before, variables, 0) >= group_keys(
        before.keys,
        variables,
    ).len() {
        None
    } else {
        properties_merge_error(
            picked(before.blocks, group(before.keys, variables, first_refused_properties(before, variables, 0))),
            moved_values(before.keys, variables),
        )
    }
}

/// The message that refuses to move the variables to the samples, if the
/// move is refused: that for the variables, or else that for the first
/// group of blocks that can not be merged.
pub open spec fn samples_move_error<A: Array>(before: DescriptorView<A>, variables: Seq<Seq<char>>) -> Option<
    Seq<char>,
> {
    if variables.len() == 0 {
        None
    } else if !valid_variables(before.keys.names, variables) {
        variables_error(before.keys.names, variables)
    } else if before.keys.count() == 0 || first_refused_samples(before, variables, 0) >= group_keys(
        before.keys,
        variables,
    ).len() {
        None
    } else {
        samples_merge_error(
            picked(before.blocks, group(before.keys, variables, first_refused_samples(before, variables, 0))),
            moved_values(before.keys, variables),
        )
    }
}

/// `merged` has the layout that a merge gives it: the given column names for
/// samples and properties, and the components and gradients of `first`.
pub open spec fn has_layout_of<A: Array>(
    merged: &Block<A>,
    first: &Block<A>,
    sample_names: Seq<Seq<char>>,
    property_names: Seq<Seq<char>>,
) -> bool {
    &&& merged.values().samples()@.names == sample_names
    &&& merged.values().components()@.names == first.values().components()@.names
    &&& merged.values().properties()@.names == property_names
    &&& merged.gradient_names() == first.gradient_names()
    &&& forall|g: int|
        0 <= g < merged.gradients().len() ==> (#[trigger] merged.gradients()[g]).samples()@.names == gradient_of(
            first,
            first.gradient_names()[g],
        ).samples()@.names
}

/// Two merged blocks have the same layout when the first blocks that they
/// were merged from agree.
proof fn lemma_merged_same_layout<A: Array>(
    merged: &Block<A>,
    first: &Block<A>,
    other_merged: &Block<A>,
    other_first: &Block<A>,
    sample_names: Seq<Seq<char>>,
    property_names: Seq<Seq<char>>,
)
    requires
        merged.wf(),
        other_merged.wf(),
        first.wf(),
        other_first.wf(),
        blocks_agree(first, other_first),
        has_layout_of(merged, first, sample_names, property_names),
        has_layout_of(other_merged, other_first, sample_names, property_names),
    ensures
        same_layout(merged, other_merged),
{
    assert forall|k: int| 0 <= k < other_merged.gradient_names().len() implies {
        &&& merged.gradient_names().contains(#[trigger] other_merged.gradient_names()[k])
        &&& other_merged.gradients()[k].samples()@.names == merged.gradients()[merged.gradient_names().index_of(
            other_merged.gradient_names()[k],
        )].samples()@.names
    } by {
        let name = other_first.gradient_names()[k];
        assert(other_first.gradient_names().contains(name));
        assert(first.gradient_names().contains(name));
        let at = first.gradient_names().index_of(name);
        assert(first.gradient_names()[at] == name);
        assert(merged.gradients()[at].samples()@.names == gradient_of(first, name).samples()@.names);
        assert(other_merged.gradients()[k].samples()@.names == gradient_of(other_first, name).samples()@.names);
    }
}

/// The blocks merged from the groups of a descriptor all have the layout of
/// the first of them.
proof fn lemma_merged_layout_agrees<A: Array>(
    descriptor: &Descriptor<A>,
    groups: Seq<Seq<int>>,
    merged: Seq<Block<A>>,
    sample_names: Seq<Seq<char>>,
    property_names: Seq<Seq<char>>,
)
    requires
        descriptor.wf(),
        groups.len() == merged.len(),
        forall|n: int|
            0 <= n < groups.len() ==> (#[trigger] groups[n]).len() > 0 && 0 <= groups[n][0]
                < descriptor@.blocks.len(),
        forall|n: int| 0 <= n < merged.len() ==> (#[trigger] merged[n]).wf(),
        forall|n: int|
            0 <= n < merged.len() ==> has_layout_of(
                &#[trigger] merged[n],
                &descriptor@.blocks[groups[n][0]],
                sample_names,
                property_names,
            ),
    ensures
        forall|n: int| 0 <= n < merged.len() ==> same_layout(&merged[0], &#[trigger] merged[n]),
{
    assert forall|n: int| 0 <= n < merged.len() implies same_layout(&merged[0], &#[trigger] merged[n]) by {
        assert(groups[0].len() > 0 && groups[n].len() > 0);
        let first = descriptor@.blocks[groups[0][0]];
        let other = descriptor@.blocks[groups[n][0]];
        lemma_blocks_agree(descriptor, groups[0][0], groups[n][0]);
        assert(first.wf() && other.wf());
        assert(merged[0].wf() && merged[n].wf());
        lemma_merged_same_layout(&merged[0], &first, &merged[n], &other, sample_names, property_names);
    }
}

impl<A: Array> Descriptor<A> {
    /// Moves the given variables from the keys to the properties of the
    /// blocks. The blocks whose keys differ in these variables only are
    /// merged into one, which has the variables as its first properties,
    /// followed by the properties of the blocks, and the samples of all of
    /// them in ascending order. Nothing changes when no variable is given, or
    /// when the descriptor has no block. On an error the descriptor is left as
    /// it was.
    pub fn sparse_to_properties(&mut self, variables: Vec<&str>) -> (r: Result<(), Error>)
        requires
            old(self).wf(),
        ensures
            final(self).wf(),
            variables.len() == 0 ==> r is Ok,
            old(self)@.keys.count() == 0 && valid_variables(old(self)@.keys.names, strs_view(variables@)) ==> r is Ok,
            properties_move_error(old(self)@, strs_view(variables@)) is Some <==> r matches Err(
                Error::InvalidParameter(_),
            ),
            match r {
                Ok(()) => properties_moved(old(self)@, strs_view(variables@), final(self)@),
                Err(e) => final(self)@ == old(self)@ && match e {
                    Error::InvalidParameter(m) => properties_move_error(old(self)@, strs_view(variables@)) == Some(
                        m@,
                    ),
                    Error::ArrayBackend(_) => true,
                    Error::Unimplemented(_) => false,
                },
            },
    {
        if variables.len() == 0 {
            return Ok(());
        }
        let ghost wanted = strs_view(variables@);
        let ghost before = self@;
        let (new_keys, moved) = match self.split_sparse_label(variables) {
            Ok(split) => split,
            Err(e) => {
                return Err(e);
            },
        };
        if self.sparse().count() == 0 {
            return Ok(());
        }
        let groups = self.key_groups(&new_keys, Ghost(wanted));
        let mut checked: usize = 0;
        while checked < groups.len()
            invariant
                checked <= groups.len(),
                self.wf(),
                self@ == before,
                *self == *old(self),
                wanted == strs_view(variables@),
                variables.len() > 0,
                valid_variables(before.keys.names, wanted),
                moved.wf(),
                moved@ == moved_values(before.keys, wanted),
                groups.len() == group_keys(before.keys, wanted).len(),
                forall|m: int|
                    0 <= m < groups.len() ==> indices_view((#[trigger] groups[m])@) == group(before.keys, wanted, m),
                forall|m: int| 0 <= m < groups.len() ==> 0 < (#[trigger] groups[m]).len() <= moved@.count(),
                forall|m: int, k: int|
                    0 <= m < groups.len() && 0 <= k < groups[m].len() ==> (#[trigger] groups[m][k])
                        < before.blocks.len(),
                before.keys.count() > 0,
                first_refused_properties(before, wanted, 0) == first_refused_properties(before, wanted, checked as int),
            decreases groups.len() - checked,
        {
            match self.check_properties_merge(&groups[checked], &moved) {
                Ok(()) => {},
                Err(e) => {
                    assert(first_refused_properties(before, wanted, checked as int) == checked);
                    return Err(e);
                },
            }
            checked += 1;
        }
        assert(first_refused_properties(before, wanted, checked as int) == groups.len());
        let mut new_blocks: Vec<Block<A>> = Vec::new();
        let mut n: usize = 0;
        while n < groups.len()
            invariant
                n <= groups.len(),
                self.wf(),
                self@ == before,
                *self == *old(self),
                wanted == strs_view(variables@),
                variables.len() > 0,
                valid_variables(before.keys.names, wanted),
                moved.wf(),
                moved@ == moved_values(before.keys, wanted),
                groups.len() == group_keys(before.keys, wanted).len(),
                forall|m: int|
                    0 <= m < groups.len() ==> indices_view((#[trigger] groups[m])@) == group(before.keys, wanted, m),
                forall|m: int| 0 <= m < groups.len() ==> 0 < (#[trigger] groups[m]).len() <= moved@.count(),
                forall|m: int, k: int|
                    0 <= m < groups.len() && 0 <= k < groups[m].len() ==> (#[trigger] groups[m][k])
                        < before.blocks.len(),
                new_blocks.len() == n,
                before.keys.count() > 0,
                first_refused_properties(before, wanted, 0) >= groups.len(),
                forall|m: int|
                    0 <= m < n ==> is_properties_merge(
                        picked(before.blocks, group(before.keys, wanted, m)),
                        moved@,
                        &#[trigger] new_blocks[m],
                    ),
            decreases groups.len() - n,
        {
            match self.merge_blocks_along_properties(&groups[n], &moved) {
                Ok(block) => {
                    new_blocks.push(block);
                },
                Err(e) => {
                    proof {
                        if e is InvalidParameter {
                            lemma_properties_none_refused(before, wanted, 0, n as int);
                        }
                    }
                    return Err(e);
                },
            }
            n += 1;
        }
        proof {
            let first = before.blocks[0];
            let sample_names = first.values().samples()@.names;
            let property_names = moved@.names + first.values().properties()@.names;
            let members = Seq::new(groups.len() as nat, |m: int| group(before.keys, wanted, m));
            assert forall|m: int| 0 <= m < members.len() implies (#[trigger] members[m]).len() > 0 && 0
                <= members[m][0] < self@.blocks.len() by {
                assert(indices_view(groups[m]@) == members[m]);
                assert(indices_view(groups[m]@)[0] == groups[m][0]);
            }
            assert forall|m: int| 0 <= m < new_blocks.len() implies (#[trigger] new_blocks@[m]).wf() && has_layout_of(
                &new_blocks@[m],
                &self@.blocks[members[m][0]],
                sample_names,
                property_names,
            ) by {
                let sources = picked(before.blocks, members[m]);
                assert(is_properties_merge(sources, moved@, &new_blocks[m]));
                assert(sources[0] == before.blocks[members[m][0]]);
                lemma_blocks_agree(self, members[m][0], 0);
            }
            lemma_merged_layout_agrees(self, members, new_blocks@, sample_names, property_names);
            crate::groups::lemma_group_count(before.keys, wanted);
            assert forall|m: int| 0 <= m < new_blocks.len() implies (#[trigger] new_blocks@[m]).values().data().origin_tag()
                == before.blocks[0].values().data().origin_tag() by {
                let sources = picked(before.blocks, members[m]);
                assert(sources[0] == before.blocks[members[m][0]]);
            }
        }
        *self = Descriptor::from_parts(new_keys, new_blocks);
        Ok(())
    }

    /// Moves the given variables from the keys to the samples of the blocks.
    /// The blocks whose keys differ in these variables only are merged into
    /// one, which has the variables as its last samples, preceded by the
    /// samples of the blocks, in ascending order. The merged blocks must have
    /// the same properties. Nothing changes when no variable is given, or when
    /// the descriptor has no block. On an error the descriptor is left as it
    /// was.
    pub fn sparse_to_samples(&mut self, variables: Vec<&str>) -> (r: Result<(), Error>)
        requires
            old(self).wf(),
        ensures
            final(self).wf(),
            variables.len() == 0 ==> r is Ok,
            old(self)@.keys.count() == 0 && valid_variables(old(self)@.keys.names, strs_view(variables@)) ==> r is Ok,
            samples_move_error(old(self)@, strs_view(variables@)) is Some <==> r matches Err(
                Error::InvalidParameter(_),
            ),
            match r {
                Ok(()) => samples_moved(old(self)@, strs_view(variables@), final(self)@),
                Err(e) => final(self)@ == old(self)@ && match e {
                    Error::InvalidParameter(m) => samples_move_error(old(self)@, strs_view(variables@)) == Some(m@),
                    Error::ArrayBackend(_) => true,
                    Error::Unimplemented(_) => false,
                },
            },
    {
        if variables.len() == 0 {
            return Ok(());
        }
        let ghost wanted = strs_view(variables@);
        let ghost before = self@;
        let (new_keys, moved) = match self.split_sparse_label(variables) {
            Ok(split) => split,
            Err(e) => {
                return Err(e);
            },
        };
        if self.sparse().count() == 0 {
            return Ok(());
        }
        let groups = self.key_groups(&new_keys, Ghost(wanted));
        let mut checked: usize = 0;
        while checked < groups.len()
            invariant
                checked <= groups.len(),
                self.wf(),
                self@ == before,
                *self == *old(self),
                wanted == strs_view(variables@),
                variables.len() > 0,
                valid_variables(before.keys.names, wanted),
                moved.wf(),
                moved@ == moved_values(before.keys, wanted),
                groups.len() == group_keys(before.keys, wanted).len(),
                forall|m: int|
                    0 <= m < groups.len() ==> indices_view((#[trigger] groups[m])@) == group(before.keys, wanted, m),
                forall|m: int| 0 <= m < groups.len() ==> 0 < (#[trigger] groups[m]).len() <= moved@.count(),
                forall|m: int, k: int|
                    0 <= m < groups.len() && 0 <= k < groups[m].len() ==> (#[trigger] groups[m][k])
                        < before.blocks.len(),
                before.keys.count() > 0,
                first_refused_samples(before, wanted, 0) == first_refused_samples(before, wanted, checked as int),
            decreases groups.len() - checked,
        {
            match self.check_samples_merge(&groups[checked], &moved) {
                Ok(()) => {},
                Err(e) => {
                    assert(first_refused_samples(before, wanted, checked as int) == checked);
                    return Err(e);
                },
            }
            checked += 1;
        }
        assert(first_refused_samples(before, wanted, checked as int) == groups.len());
        let mut new_blocks: Vec<Block<A>> = Vec::new();
        let mut n: usize = 0;
        while n < groups.len()
            invariant
                n <= groups.len(),
                self.wf(),
                self@ == before,
                *self == *old(self),
                wanted == strs_view(variables@),
                variables.len() > 0,
                valid_variables(before.keys.names, wanted),
                moved.wf(),
                moved@ == moved_values(before.keys, wanted),
                groups.len() == group_keys(before.keys, wanted).len(),
                forall|m: int|
                    0 <= m < groups.len() ==> indices_view((#[trigger] groups[m])@) == group(before.keys, wanted, m),
                forall|m: int| 0 <= m < groups.len() ==> 0 < (#[trigger] groups[m]).len() <= moved@.count(),
                forall|m: int, k: int|
                    0 <= m < groups.len() && 0 <= k < groups[m].len() ==> (#[trigger] groups[m][k])
                        < before.blocks.len(),
                new_blocks.len() == n,
                before.keys.count() > 0,
                first_refused_samples(before, wanted, 0) >= groups.len(),
                forall|m: int|
                    0 <= m < n ==> is_samples_merge(
                        picked(before.blocks, group(before.keys, wanted, m)),
                        moved@,
                        &#[trigger] new_blocks[m],
                    ),
            decreases groups.len() - n,
        {
            match self.merge_blocks_along_samples(&groups[n], &moved) {
                Ok(block) => {
                    new_blocks.push(block);
                },
                Err(e) => {
                    proof {
                        if e is InvalidParameter {
                            lemma_samples_none_refused(before, wanted, 0, n as int);
                        }
                    }
                    return Err(e);
                },
            }
            n += 1;
        }
        proof {
            let first = before.blocks[0];
            let sample_names = first.values().samples()@.names + moved@.names;
            let property_names = first.values().properties()@.names;
            let members = Seq::new(groups.len() as nat, |m: int| group(before.keys, wanted, m));
            assert forall|m: int| 0 <= m < members.len() implies (#[trigger] members[m]).len() > 0 && 0
                <= members[m][0] < self@.blocks.len() by {
                assert(indices_view(groups[m]@) == members[m]);
                assert(indices_view(groups[m]@)[0] == groups[m][0]);
            }
            assert forall|m: int| 0 <= m < new_blocks.len() implies (#[trigger] new_blocks@[m]).wf() && has_layout_of(
                &new_blocks@[m],
                &self@.blocks[members[m][0]],
                sample_names,
                property_names,
            ) by {
                let sources = picked(before.blocks, members[m]);
                assert(is_samples_merge(sources, moved@, &new_blocks[m]));
                assert(sources[0] == before.blocks[members[m][0]]);
                lemma_blocks_agree(self, members[m][0], 0);
            }
            lemma_merged_layout_agrees(self, members, new_blocks@, sample_names, property_names);
            crate::groups::lemma_group_count(before.keys, wanted);
            assert forall|m: int| 0 <= m < new_blocks.len() implies (#[trigger] new_blocks@[m]).values().data().origin_tag()
                == before.blocks[0].values().data().origin_tag() by {
                let sources = picked(before.blocks, members[m]);
                assert(sources[0] == before.blocks[members[m][0]]);
            }
        }
        *self = Descriptor::from_parts(new_keys, new_blocks);
        Ok(())
    }
}

} // verus!
