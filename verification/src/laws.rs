//! What holds of every descriptor, and of moves that follow each other.

use crate::array::{cell_count, in_bounds, Array, ArrayCells};
use crate::blocks::Block;
use crate::flatten::is_flat_block;
use crate::blocks::valid_gradient_samples;
use crate::descriptor::{Descriptor, DescriptorView};
use crate::labels::{LabelValue, LabelsView};
use crate::merge::{is_gathered, lemma_index_of_unique};
use crate::reshape::{is_properties_merge, is_samples_merge, properties_moved, property_start, samples_moved};
use crate::split::{kept_columns, lemma_kept_columns, remaining_keys, valid_variables};
use vstd::prelude::*;

verus! {

/// A descriptor has one block for each of its keys.
pub proof fn lemma_one_block_per_key<A: Array>(descriptor: &Descriptor<A>)
    requires
        descriptor.wf(),
    ensures
        descriptor@.keys.count() == descriptor@.blocks.len(),
{
}

/// The array of the values of every block has one row for each sample, one
/// for each component and one for each property of the block.
pub proof fn lemma_values_shape<A: Array>(descriptor: &Descriptor<A>, i: int)
    requires
        descriptor.wf(),
        0 <= i < descriptor@.blocks.len(),
    ensures
        ({
            let values = descriptor@.blocks[i].values();
            &&& values.data().dims().0 == values.samples()@.count()
            &&& values.data().dims().1 == values.components()@.count()
            &&& values.data().dims().2 == values.properties()@.count()
        }),
{
    assert(descriptor@.blocks[i].wf());
}

/// The array of every gradient of every block has one row for each sample
/// of the gradient, and one for each component and each property of the
/// values; the first entry of every sample of the gradient is the index of a
/// sample of the values.
pub proof fn lemma_gradient_shape<A: Array>(descriptor: &Descriptor<A>, i: int, g: int)
    requires
        descriptor.wf(),
        0 <= i < descriptor@.blocks.len(),
        0 <= g < descriptor@.blocks[i].gradients().len(),
    ensures
        ({
            let values = descriptor@.blocks[i].values();
            let gradient = descriptor@.blocks[i].gradients()[g];
            &&& gradient.data().dims().0 == gradient.samples()@.count()
            &&& gradient.data().dims().1 == values.components()@.count()
            &&& gradient.data().dims().2 == values.properties()@.count()
            &&& forall|j: int|
                0 <= j < gradient.samples()@.count() ==> 0 <= (#[trigger] gradient.samples()@.rows[j])[0]
                    < values.samples()@.count()
        }),
{
    let block = descriptor@.blocks[i];
    assert(block.wf());
    assert(crate::blocks::gradient_agrees(block.values(), &block.gradients()[g]));
    assert(valid_gradient_samples(block.gradients()[g].samples()@, block.values().samples()@.count()));
}

/// Moving no variable to the properties and then no variable to the samples
/// gives back the descriptor that one started with.
pub proof fn lemma_nothing_moved<A: Array>(
    start: DescriptorView<A>,
    variables: Seq<Seq<char>>,
    middle: DescriptorView<A>,
    end: DescriptorView<A>,
)
    requires
        variables.len() == 0,
        properties_moved(start, variables, middle),
        samples_moved(middle, variables, end),
    ensures
        end == start,
{
}

/// A variable that was moved out of the keys is no column of the keys that
/// remain, unless it is named like the column of the single-row table. So the
/// same variables can not be moved a second time.
pub proof fn lemma_moved_variable_is_gone(keys: LabelsView, variables: Seq<Seq<char>>, k: int)
    requires
        keys.wf(),
        valid_variables(keys.names, variables),
        0 <= k < variables.len(),
        variables[k] != "_"@,
    ensures
        !remaining_keys(keys, variables).names.contains(variables[k]),
        !valid_variables(remaining_keys(keys, variables).names, variables),
{
    let kept = kept_columns(keys.names, variables);
    let names = remaining_keys(keys, variables).names;
    lemma_kept_columns(keys.names, variables);
    if names.contains(variables[k]) {
        let at = choose|at: int| 0 <= at < names.len() && names[at] == variables[k];
        if kept.len() == 0 {
            assert(names[0] == "_"@);
        } else {
            assert(names[at] == keys.names[kept[at]]);
            assert(variables.contains(variables[k]));
        }
    }
}

/// Two arrays of one shape, gathered from the same sources at the same
/// places, hold the same scalar in every cell.
pub proof fn lemma_gathered_cells<A: Array>(
    first: &A,
    second: &A,
    sources: Seq<A>,
    target_rows: Seq<Seq<LabelValue>>,
    source_rows: Seq<Seq<Seq<LabelValue>>>,
    columns: Seq<(usize, usize)>,
)
    requires
        is_gathered(first, sources, target_rows, source_rows, columns),
        is_gathered(second, sources, target_rows, source_rows, columns),
        first.dims() == second.dims(),
        first.zero() == second.zero(),
        target_rows.no_duplicates(),
        target_rows.len() == first.dims().0,
        source_rows.len() == sources.len(),
        columns.len() == sources.len(),
        forall|i: int|
            0 <= i < sources.len() ==> {
                &&& (#[trigger] sources[i]).dims().0 == source_rows[i].len()
                &&& sources[i].dims().1 == first.dims().1
                &&& columns[i].0 <= columns[i].1
                &&& columns[i].1 - columns[i].0 == sources[i].dims().2
            },
    ensures
        forall|row: int, c: int, q: int|
            in_bounds(first.dims(), row, c, q) ==> #[trigger] first.cell(row, c, q) == second.cell(row, c, q),
{
    assert forall|row: int, c: int, q: int| in_bounds(first.dims(), row, c, q) implies #[trigger] first.cell(
        row,
        c,
        q,
    ) == second.cell(row, c, q) by {
        if exists|i: int|
            0 <= i < sources.len() && (#[trigger] columns[i]).0 <= q < columns[i].1 && source_rows[i].contains(
                target_rows[row],
            ) {
            let i = choose|i: int|
                0 <= i < sources.len() && (#[trigger] columns[i]).0 <= q < columns[i].1 && source_rows[i].contains(
                    target_rows[row],
                );
            let j = choose|j: int| 0 <= j < source_rows[i].len() && source_rows[i][j] == target_rows[row];
            let p = q - columns[i].0;
            assert(sources[i].dims().0 == source_rows[i].len());
            assert(in_bounds(sources[i].dims(), j, c, p));
            lemma_index_of_unique(target_rows, row);
            assert(sources[i].cell(j, c, p) == first.cell(target_rows.index_of(source_rows[i][j]), c, columns[i].0 + p));
            assert(sources[i].cell(j, c, p) == second.cell(
                target_rows.index_of(source_rows[i][j]),
                c,
                columns[i].0 + p,
            ));
        } else {
            assert forall|i: int| 0 <= i < sources.len() implies q < (#[trigger] columns[i]).0 || q >= columns[i].1
                || !source_rows[i].contains(target_rows[row]) by {}
            assert(first.cell(row, c, q) == first.zero());
            assert(second.cell(row, c, q) == second.zero());
        }
    }
}

/// The array of a block merged along the properties has one row for each
/// of the merged samples, the components of the sources, and as many
/// properties as the sources have together.
pub proof fn lemma_properties_merge_shape<A: Array>(sources: Seq<Block<A>>, moved: LabelsView, merged: &Block<A>)
    requires
        sources.len() > 0,
        is_properties_merge(sources, moved, merged),
    ensures
        merged.values().data().dims().0 == merged.values().samples()@.count(),
        merged.values().data().dims().1 == sources[0].values().components()@.count(),
        merged.values().data().dims().2 == property_start(sources, sources.len() as int),
        merged.values().properties()@.arity() == moved.arity() + sources[0].values().properties()@.arity(),
{
}

/// The array of a block merged along the samples has one row for each of
/// the merged samples, and the components and properties of the sources.
pub proof fn lemma_samples_merge_shape<A: Array>(sources: Seq<Block<A>>, moved: LabelsView, merged: &Block<A>)
    requires
        sources.len() > 0,
        is_samples_merge(sources, moved, merged),
    ensures
        merged.values().data().dims().0 == merged.values().samples()@.count(),
        merged.values().data().dims().1 == sources[0].values().components()@.count(),
        merged.values().data().dims().2 == sources[0].values().properties()@.count(),
        merged.values().samples()@.arity() == sources[0].values().samples()@.arity() + moved.arity(),
{
}

/// A block whose components were moved to its properties keeps its samples
/// and the number of its scalars: it has one component, and for each of its
/// old components each of its old properties.
pub proof fn lemma_flat_block_shape<A: Array>(block: &Block<A>, flat: &Block<A>)
    requires
        block.wf(),
        is_flat_block(block, flat),
    ensures
        flat.values().samples()@ == block.values().samples()@,
        flat.values().data().dims().0 == block.values().samples()@.count(),
        flat.values().data().dims().1 == 1,
        flat.values().data().dims().2 == block.values().components()@.count() * block.values().properties()@.count(),
        flat.values().properties()@.count() == block.values().components()@.count()
            * block.values().properties()@.count(),
        cell_count(flat.values().data().dims()) == cell_count(block.values().data().dims()),
{
}

} // verus!
