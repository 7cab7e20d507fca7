//! Moving the components of the blocks to their properties.

use crate::array::{cell_count, in_bounds, Array, ArrayCells};
use crate::blocks::Block;
use crate::descriptor::{same_layout, Descriptor, DescriptorView};
use crate::error::{BackendError, Error};
use crate::labels::{
    names_error, single_view, strs_view, valid_names, Labels, LabelsBuilder, LabelsView,
};
use crate::merge::copy_rows;
use crate::reshape::lemma_concat_parts;
use crate::sorted::copy_row;
use std::sync::Arc;
use vstd::prelude::*;

verus! {

/// `product` has the columns of `first` followed by those of `second`, and
/// for every row of `first` every row of `second` behind it, the rows of
/// `first` varying slowest.
pub open spec fn is_product(first: LabelsView, second: LabelsView, product: LabelsView) -> bool {
    &&& product.names == first.names + second.names
    &&& product.rows.len() == first.count() * second.count()
    &&& forall|i: int, j: int|
        0 <= i < first.count() && 0 <= j < second.count() ==> product.rows[i * second.count() + j]
            == #[trigger] first.rows[i] + #[trigger] second.rows[j]
}

/// The rows of a product stand one block of `width` rows after the other.
proof fn lemma_product_index(i: int, j: int, rows: int, width: int)
    requires
        0 <= i < rows,
        0 <= j < width,
    ensures
        0 <= i * width + j < rows * width,
        (i + 1) * width == i * width + width,
        i * width >= 0,
{
    assert(i * width >= 0) by (nonlinear_arith)
        requires
            0 <= i,
            0 <= width,
    ;
    assert((i + 1) * width == i * width + width) by (nonlinear_arith);
    assert((i + 1) * width <= rows * width) by (nonlinear_arith)
        requires
            i + 1 <= rows,
            0 <= width,
    ;
}

/// The product of two tables, unless a column of the second is named like
/// one of the first.
pub fn product_labels(first: &Labels, second: &Labels) -> (r: Result<Labels, Error>)
    requires
        first.wf(),
        second.wf(),
    ensures
        match r {
            Ok(product) => {
                &&& valid_names(first@.names + second@.names)
                &&& product.wf()
                &&& is_product(first@, second@, product@)
            },
            Err(e) => {
                &&& !valid_names(first@.names + second@.names)
                &&& e matches Error::InvalidParameter(m) && names_error(first@.names + second@.names) == Some(m@)
            },
        },
{
    let mut names = first.names();
    let others = second.names();
    let mut k: usize = 0;
    while k < others.len()
        invariant
            k <= others.len(),
            strs_view(others@) == second@.names,
            strs_view(names@) == first@.names + second@.names.take(k as int),
        decreases others.len() - k,
    {
        let ghost before = strs_view(names@);
        names.push(others[k]);
        assert(strs_view(names@) =~= before.push(others[k as int]@));
        assert(strs_view(others@)[k as int] == others[k as int]@);
        assert(second@.names.take(k + 1) =~= second@.names.take(k as int).push(second@.names[k as int]));
        assert(strs_view(names@) =~= first@.names + second@.names.take(k + 1));
        k += 1;
    }
    assert(second@.names.take(others.len() as int) =~= second@.names);
    let mut builder = match LabelsBuilder::new(names) {
        Ok(builder) => builder,
        Err(e) => {
            return Err(e);
        },
    };
    let ghost width = second@.count() as int;
    let ghost mut origins: Seq<(int, int)> = Seq::empty();
    let mut i: usize = 0;
    assert(0 * width == 0) by (nonlinear_arith);
    while i < first.count()
        invariant
            i <= first@.count(),
            first.wf(),
            second.wf(),
            width == second@.count(),
            builder.wf(),
            builder@.names == first@.names + second@.names,
            builder@.rows.len() == i * width,
            origins.len() == builder@.rows.len(),
            forall|n: int|
                0 <= n < origins.len() ==> {
                    let at = #[trigger] origins[n];
                    &&& 0 <= at.0 < i
                    &&& 0 <= at.1 < width
                    &&& builder@.rows[n] == first@.rows[at.0] + second@.rows[at.1]
                },
            forall|a: int, b: int|
                0 <= a < i && 0 <= b < width ==> builder@.rows[a * width + b] == #[trigger] first@.rows[a]
                    + #[trigger] second@.rows[b],
        decreases first@.count() - i,
    {
        let prefix = first.row(i);
        let mut j: usize = 0;
        while j < second.count()
            invariant
                j <= width,
                i < first@.count(),
                first.wf(),
                second.wf(),
                width == second@.count(),
                prefix@ == first@.rows[i as int],
                builder.wf(),
                builder@.names == first@.names + second@.names,
                builder@.rows.len() == i * width + j,
                origins.len() == builder@.rows.len(),
                forall|n: int|
                    0 <= n < origins.len() ==> {
                        let at = #[trigger] origins[n];
                        &&& 0 <= at.0 <= i
                        &&& at.0 == i ==> at.1 < j
                        &&& 0 <= at.1 < width
                        &&& builder@.rows[n] == first@.rows[at.0] + second@.rows[at.1]
                    },
                forall|a: int, b: int|
                    0 <= a < i && 0 <= b < width ==> builder@.rows[a * width + b] == #[trigger] first@.rows[a]
                        + #[trigger] second@.rows[b],
                forall|b: int| 0 <= b < j ==> builder@.rows[i * width + b] == prefix@ + #[trigger] second@.rows[b],
            decreases width - j,
        {
            let suffix = second.row(j);
            let mut row = copy_row(prefix);
            let mut c: usize = 0;
            while c < suffix.len()
                invariant
                    c <= suffix.len(),
                    row@ == prefix@ + suffix@.take(c as int),
                decreases suffix.len() - c,
            {
                row.push(suffix[c]);
                assert(suffix@.take(c + 1) =~= suffix@.take(c as int).push(suffix[c as int]));
                assert(row@ =~= prefix@ + suffix@.take(c + 1));
                c += 1;
            }
            assert(suffix@.take(suffix.len() as int) =~= suffix@);
            let ghost before = builder@.rows;
            proof {
                assert(first@.rows[i as int].len() == first@.arity());
                assert(second@.rows[j as int].len() == second@.arity());
                if before.contains(row@) {
                    let n = choose|n: int| 0 <= n < before.len() && before[n] == row@;
                    let at = origins[n];
                    assert(first@.rows[at.0].len() == first@.arity());
                    lemma_concat_parts(first@.rows[at.0], second@.rows[at.1], prefix@, suffix@);
                    assert(at.0 == i);
                    assert(second@.rows[at.1] == second@.rows[j as int]);
                    assert(false);
                }
            }
            match builder.add(row) {
                Ok(()) => {},
                Err(e) => {
                    assert(false);
                    return Err(e);
                },
            }
            proof {
                origins = origins.push((i as int, j as int));
                assert forall|a: int, b: int| 0 <= a < i && 0 <= b < width implies builder@.rows[a * width + b]
                    == #[trigger] first@.rows[a] + #[trigger] second@.rows[b] by {
                    lemma_product_index(a, b, i as int, width);
                    assert(before[a * width + b] == first@.rows[a] + second@.rows[b]);
                }
                assert forall|b: int| 0 <= b < j + 1 implies builder@.rows[i * width + b] == prefix@
                    + #[trigger] second@.rows[b] by {
                    if b < j {
                        assert(before[i * width + b] == prefix@ + second@.rows[b]);
                    }
                }
            }
            j += 1;
        }
        proof {
            lemma_product_index(i as int, 0, first@.count() as int, width + 1);
            assert((i + 1) * width == i * width + width) by (nonlinear_arith);
        }
        i += 1;
    }
    Ok(builder.finish())
}

/// `flat` holds the cells of `array` with the components moved to the
/// properties: one component, and for every component of `array` its
/// properties side by side.
pub open spec fn is_flattened<A: Array>(array: &A, flat: &A) -> bool {
    &&& flat.origin_tag() == array.origin_tag()
    &&& flat.zero() == array.zero()
    &&& flat.dims().0 == array.dims().0
    &&& flat.dims().1 == 1
    &&& flat.dims().2 == array.dims().1 * array.dims().2
    &&& cell_count(flat.dims()) == cell_count(array.dims())
    &&& forall|i: int, j: int, k: int|
        in_bounds(array.dims(), i, j, k) ==> #[trigger] array.cell(i, j, k) == flat.cell(
            i,
            0,
            j * array.dims().2 + k,
        )
}

/// A new array with the cells of `array`, the components moved to the
/// properties. `array` has the shape `(samples, components, properties)` and
/// `width` is `components * properties`.
pub fn flattened_copy<A: Array>(array: &A, samples: usize, components: usize, properties: usize, width: usize) -> (r:
    Result<A, BackendError>)
    requires
        array.dims() == (samples, components, properties),
        width == components * properties,
    ensures
        r matches Ok(flat) ==> is_flattened(array, &flat),
{
    let mut flat = match array.create((samples, components, properties)) {
        Ok(flat) => flat,
        Err(e) => {
            return Err(e);
        },
    };
    let mut positions: Vec<usize> = Vec::new();
    while positions.len() < samples
        invariant
            positions.len() <= samples,
            forall|i: int| 0 <= i < positions.len() ==> (#[trigger] positions[i]) == i,
        decreases samples - positions.len(),
    {
        positions.push(positions.len());
    }
    match copy_rows(&mut flat, array, &positions, 0, properties) {
        Ok(()) => {},
        Err(e) => {
            return Err(e);
        },
    }
    let ghost copied = flat;
    assert forall|i: int, j: int, k: int| in_bounds(array.dims(), i, j, k) implies #[trigger] array.cell(i, j, k)
        == copied.cell(i, j, k) by {
        assert(positions[i] == i);
    }
    match flat.reshape((samples, 1, width)) {
        Ok(()) => {},
        Err(e) => {
            return Err(e);
        },
    }
    proof {
        assert(cell_count(flat.dims()) == cell_count(array.dims())) by (nonlinear_arith)
            requires
                flat.dims() == (samples, 1usize, width),
                array.dims() == (samples, components, properties),
                width == components * properties,
        ;
        assert forall|i: int, j: int, k: int| in_bounds(array.dims(), i, j, k) implies #[trigger] array.cell(i, j, k)
            == flat.cell(i, 0, j * array.dims().2 + k) by {
            let column = j * properties + k;
            assert(0 <= column < width && (i * components + j) * properties + k == (i * 1 + 0) * width + column)
                by (nonlinear_arith)
                requires
                    0 <= i,
                    0 <= j < components,
                    0 <= k < properties,
                    width == components * properties,
                    column == j * properties + k,
            ;
            assert(in_bounds(copied.dims(), i, j, k));
            assert(in_bounds(flat.dims(), i, 0, column));
            assert(flat.cell(i, 0, column) == copied.cell(i, j, k));
        }
    }
    Ok(flat)
}

/// `flat` is `block` with its components moved to its properties: the same
/// samples, the single-row table as components, the product of the old
/// components and properties as properties, and the same cells.
pub open spec fn is_flat_block<A: Array>(block: &Block<A>, flat: &Block<A>) -> bool {
    &&& flat.wf()
    &&& flat.gradient_names().len() == 0
    &&& flat.values().samples()@ == block.values().samples()@
    &&& flat.values().components()@ == single_view()
    &&& is_product(block.values().components()@, block.values().properties()@, flat.values().properties()@)
    &&& is_flattened(block.values().data(), flat.values().data())
}

/// Every block of `after` is the block of `before` at its place, with its
/// components moved to its properties; the keys are the same.
pub open spec fn is_components_to_properties<A: Array>(before: DescriptorView<A>, after: DescriptorView<A>) -> bool {
    &&& after.keys == before.keys
    &&& after.blocks.len() == before.blocks.len()
    &&& forall|i: int|
        0 <= i < after.blocks.len() ==> is_flat_block(&before.blocks[i], &#[trigger] after.blocks[i])
}

/// The message for blocks with gradients.
pub open spec fn gradients_message() -> Seq<char> {
    "components_to_properties with gradients is not implemented yet"@
}

/// Some block has gradients.
pub open spec fn has_gradients<A: Array>(descriptor: DescriptorView<A>) -> bool {
    exists|i: int| 0 <= i < descriptor.blocks.len() && (#[trigger] descriptor.blocks[i]).gradient_names().len() > 0
}

/// A column of the components of some block is named like one of its properties.
pub open spec fn components_clash<A: Array>(descriptor: DescriptorView<A>) -> bool {
    exists|i: int|
        0 <= i < descriptor.blocks.len() && !valid_names(
            (#[trigger] descriptor.blocks[i]).values().components()@.names
                + descriptor.blocks[i].values().properties()@.names,
        )
}

/// The block `block`, which has no gradients, with its components moved to
/// its properties.
fn flat_block<A: Array>(block: &Block<A>) -> (r: Result<Block<A>, Error>)
    requires
        block.wf(),
        block.gradient_names().len() == 0,
    ensures
        match r {
            Ok(flat) => is_flat_block(block, &flat) && valid_names(
                block.values().components()@.names + block.values().properties()@.names,
            ),
            Err(Error::InvalidParameter(m)) => !valid_names(
                block.values().components()@.names + block.values().properties()@.names,
            ) && names_error(block.values().components()@.names + block.values().properties()@.names) == Some(m@),
            Err(Error::ArrayBackend(_)) => valid_names(
                block.values().components()@.names + block.values().properties()@.names,
            ),
            Err(Error::Unimplemented(_)) => false,
        },
{
    let values = block.values();
    let properties = match product_labels(values.components(), values.properties()) {
        Ok(properties) => properties,
        Err(e) => {
            return Err(e);
        },
    };
    let data = match flattened_copy(
        values.data(),
        values.samples().count(),
        values.components().count(),
        values.properties().count(),
        properties.count(),
    ) {
        Ok(data) => data,
        Err(e) => {
            return Err(Error::ArrayBackend(e));
        },
    };
    match Block::new(data, values.samples().clone(), Arc::new(Labels::single()), Arc::new(properties)) {
        Ok(flat) => Ok(flat),
        Err(e) => {
            assert(!(e is InvalidParameter));
            Err(e)
        },
    }
}

impl<A: Array> Descriptor<A> {
    /// Moves the components of every block to its properties. The new
    /// properties of a block are, for each of its components, each of its
    /// properties, under the column names of the components followed by those
    /// of the properties; its array has a single component. Blocks with
    /// gradients are not handled. On an error the descriptor is left as it was.
    pub fn components_to_properties(&mut self) -> (r: Result<(), Error>)
        requires
            old(self).wf(),
        ensures
            final(self).wf(),
            old(self)@.blocks.len() == 0 ==> r is Ok,
            has_gradients(old(self)@) ==> r matches Err(Error::Unimplemented(_)),
            !has_gradients(old(self)@) && components_clash(old(self)@) ==> r matches Err(Error::InvalidParameter(_)),
            match r {
                Ok(()) => is_components_to_properties(old(self)@, final(self)@),
                Err(e) => final(self)@ == old(self)@ && match e {
                    Error::Unimplemented(m) => has_gradients(old(self)@) && m@ == gradients_message(),
                    Error::InvalidParameter(m) => !has_gradients(old(self)@) && components_clash(old(self)@)
                        && names_error(
                        old(self)@.blocks[0].values().components()@.names
                            + old(self)@.blocks[0].values().properties()@.names,
                    ) == Some(m@),
                    Error::ArrayBackend(_) => !has_gradients(old(self)@) && !components_clash(old(self)@),
                },
            },
    {
        let ghost before = self@;
        let mut i: usize = 0;
        while i < self.blocks().len()
            invariant
                i <= before.blocks.len(),
                self.wf(),
                self@ == before,
                *self == *old(self),
                forall|n: int| 0 <= n < i ==> (#[trigger] before.blocks[n]).gradient_names().len() == 0,
            decreases before.blocks.len() - i,
        {
            let gradients = self.blocks()[i].gradients_list();
            assert(strs_view(gradients@).len() == gradients.len());
            if gradients.len() > 0 {
                assert(before.blocks[i as int].gradient_names().len() > 0);
                return Err(
                    Error::Unimplemented(
                        String::from_str("components_to_properties with gradients is not implemented yet"),
                    ),
                );
            }
            i += 1;
        }
        assert(!has_gradients(before));
        let mut new_blocks: Vec<Block<A>> = Vec::new();
        let mut n: usize = 0;
        while n < self.blocks().len()
            invariant
                n <= before.blocks.len(),
                self.wf(),
                self@ == before,
                *self == *old(self),
                !has_gradients(before),
                new_blocks.len() == n,
                forall|m: int| 0 <= m < n ==> is_flat_block(&before.blocks[m], &#[trigger] new_blocks[m]),
                forall|m: int|
                    0 <= m < n ==> valid_names(
                        (#[trigger] before.blocks[m]).values().components()@.names
                            + before.blocks[m].values().properties()@.names,
                    ),
            decreases before.blocks.len() - n,
        {
            assert(before.blocks[n as int].wf());
            assert(before.blocks[n as int].gradient_names().len() == 0);
            match flat_block(&self.blocks()[n]) {
                Ok(flat) => {
                    new_blocks.push(flat);
                },
                Err(e) => {
                    proof {
                        crate::descriptor::lemma_blocks_agree(self, 0, n as int);
                        if e is ArrayBackend {
                            assert forall|m: int| 0 <= m < before.blocks.len() implies valid_names(
                                (#[trigger] before.blocks[m]).values().components()@.names
                                    + before.blocks[m].values().properties()@.names,
                            ) by {
                                crate::descriptor::lemma_blocks_agree(self, m, n as int);
                            }
                        }
                    }
                    return Err(e);
                },
            }
            n += 1;
        }
        let keys = self.sparse().clone();
        proof {
            assert forall|m: int| 0 <= m < new_blocks.len() implies same_layout(
                &new_blocks@[0],
                &#[trigger] new_blocks@[m],
            ) by {
                crate::descriptor::lemma_blocks_agree(self, 0, m);
                assert(is_flat_block(&before.blocks[0], &new_blocks[0]));
                assert(is_flat_block(&before.blocks[m], &new_blocks[m]));
            }
            assert forall|m: int| 0 <= m < new_blocks.len() implies (#[trigger] new_blocks[m]).wf() by {
                assert(is_flat_block(&before.blocks[m], &new_blocks[m]));
            }
            assert forall|m: int| 0 <= m < new_blocks.len() implies (#[trigger] new_blocks@[m]).values().data().origin_tag()
                == before.blocks[0].values().data().origin_tag() by {
                assert(is_flat_block(&before.blocks[m], &new_blocks[m]));
                assert(before.blocks[m].values().data().origin_tag() == before.blocks[0].values().data().origin_tag());
            }
        }
        *self = Descriptor::from_parts(keys, new_blocks);
        Ok(())
    }
}

} // verus!
