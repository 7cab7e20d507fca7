//! The descriptor: blocks under sparse keys, how it is made and read, and
//! how blocks are selected by the values of some of the keys.

use crate::array::Array;
use crate::blocks::{gradient_of, Block};
use crate::error::Error;
use crate::labels::{LabelValue, Labels, LabelsView};
use crate::text::{decimal, joined, push_count, push_decimal, push_joined, push_signed, signed_decimal};
use vstd::prelude::*;

verus! {

/// Two blocks of one descriptor have the same column names along each axis
/// and the same gradient parameters, with the same column names for the
/// samples of each gradient.
pub open spec fn same_layout<A: Array>(first: &Block<A>, other: &Block<A>) -> bool {
    &&& other.values().samples()@.names == first.values().samples()@.names
    &&& other.values().components()@.names == first.values().components()@.names
    &&& other.values().properties()@.names == first.values().properties()@.names
    &&& other.gradient_names().len() == first.gradient_names().len()
    &&& forall|k: int|
        0 <= k < other.gradient_names().len() ==> {
            &&& first.gradient_names().contains(#[trigger] other.gradient_names()[k])
            &&& other.gradients()[k].samples()@.names == first.gradients()[first.gradient_names().index_of(
                other.gradient_names()[k],
            )].samples()@.names
        }
}

/// There is one block for each key, and every block has the layout of the first.
pub open spec fn labels_agree<A: Array>(keys: LabelsView, blocks: Seq<Block<A>>) -> bool {
    &&& keys.count() == blocks.len()
    &&& forall|i: int| 0 <= i < blocks.len() ==> same_layout(&blocks[0], &#[trigger] blocks[i])
}

/// The arrays of all the blocks have the origin of the array of the first.
pub open spec fn origins_agree<A: Array>(blocks: Seq<Block<A>>) -> bool {
    forall|i: int|
        0 <= i < blocks.len() ==> (#[trigger] blocks[i]).values().data().origin_tag()
            == blocks[0].values().data().origin_tag()
}

/// The keys and the blocks fit together: one block for each key, every block
/// with the layout of the first, and all arrays of one origin.
pub open spec fn layout_agrees<A: Array>(keys: LabelsView, blocks: Seq<Block<A>>) -> bool {
    labels_agree(keys, blocks) && origins_agree(blocks)
}

/// Two blocks have the same column names along each axis and gradients with
/// respect to the same parameters, with the same column names for the samples
/// of each gradient.
pub open spec fn blocks_agree<A: Array>(a: &Block<A>, b: &Block<A>) -> bool {
    &&& a.values().samples()@.names == b.values().samples()@.names
    &&& a.values().components()@.names == b.values().components()@.names
    &&& a.values().properties()@.names == b.values().properties()@.names
    &&& a.gradient_names().len() == b.gradient_names().len()
    &&& forall|name: Seq<char>| a.gradient_names().contains(name) <==> b.gradient_names().contains(name)
    &&& forall|name: Seq<char>| #[trigger]
        a.gradient_names().contains(name) ==> gradient_of(a, name).samples()@.names == gradient_of(
            b,
            name,
        ).samples()@.names
}

/// A well-formed block has its own layout.
pub proof fn lemma_same_layout_reflexive<A: Array>(block: &Block<A>)
    requires
        block.wf(),
    ensures
        same_layout(block, block),
{
    let names = block.gradient_names();
    assert forall|k: int| 0 <= k < names.len() implies {
        &&& names.contains(#[trigger] names[k])
        &&& block.gradients()[k].samples()@.names == block.gradients()[names.index_of(names[k])].samples()@.names
    } by {
        crate::merge::lemma_index_of_unique(names, k);
    }
}

/// A block that has the layout of another agrees with it.
pub proof fn lemma_same_layout_agrees<A: Array>(first: &Block<A>, other: &Block<A>)
    requires
        first.wf(),
        other.wf(),
        same_layout(first, other),
    ensures
        blocks_agree(first, other),
{
    let mine = first.gradient_names();
    let theirs = other.gradient_names();
    crate::counting::lemma_same_items(theirs, mine);
    assert forall|name: Seq<char>| mine.contains(name) <==> theirs.contains(name) by {
        if mine.contains(name) {
            let k = choose|k: int| 0 <= k < mine.len() && mine[k] == name;
            assert(theirs.contains(mine[k]));
        }
        if theirs.contains(name) {
            let k = choose|k: int| 0 <= k < theirs.len() && theirs[k] == name;
            assert(mine.contains(theirs[k]));
        }
    }
    assert forall|name: Seq<char>| #[trigger] mine.contains(name) implies gradient_of(first, name).samples()@.names
        == gradient_of(other, name).samples()@.names by {
        assert(theirs.contains(name));
        let k = theirs.index_of(name);
        assert(theirs[k] == name);
        assert(mine.contains(theirs[k]));
    }
}

/// The entries of `row` in the given columns, in the order of `columns`.
pub open spec fn project(row: Seq<LabelValue>, columns: Seq<int>) -> Seq<LabelValue> {
    Seq::new(columns.len(), |k: int| row[columns[k]])
}

/// The indices of the rows whose entries in `columns` are `wanted`, ascending.
pub open spec fn matching_rows(rows: Seq<Seq<LabelValue>>, columns: Seq<int>, wanted: Seq<LabelValue>) -> Seq<int>
    decreases rows.len(),
{
    if rows.len() == 0 {
        Seq::empty()
    } else {
        let rest = matching_rows(rows.drop_last(), columns, wanted);
        if project(rows.last(), columns) == wanted {
            rest.push(rows.len() - 1)
        } else {
            rest
        }
    }
}

/// The matching rows are those whose entries in `columns` are `wanted`, each
/// once, in ascending order.
pub proof fn lemma_matching_rows(rows: Seq<Seq<LabelValue>>, columns: Seq<int>, wanted: Seq<LabelValue>)
    ensures
        forall|k: int|
            0 <= k < matching_rows(rows, columns, wanted).len() ==> {
                let i = #[trigger] matching_rows(rows, columns, wanted)[k];
                0 <= i < rows.len() && project(rows[i], columns) == wanted
            },
        forall|k: int, l: int|
            0 <= k < l < matching_rows(rows, columns, wanted).len() ==> matching_rows(rows, columns, wanted)[k]
                < matching_rows(rows, columns, wanted)[l],
        forall|i: int|
            0 <= i < rows.len() && project(#[trigger] rows[i], columns) == wanted ==> matching_rows(
                rows,
                columns,
                wanted,
            ).contains(i),
    decreases rows.len(),
{
    if rows.len() > 0 {
        let shorter = rows.drop_last();
        lemma_matching_rows(shorter, columns, wanted);
        let rest = matching_rows(shorter, columns, wanted);
        let all = matching_rows(rows, columns, wanted);
        assert forall|k: int| 0 <= k < all.len() implies {
            let i = #[trigger] all[k];
            0 <= i < rows.len() && project(rows[i], columns) == wanted
        } by {
            if k < rest.len() {
                assert(all[k] == rest[k]);
                assert(shorter[rest[k]] == rows[rest[k]]);
            }
        }
        assert forall|k: int, l: int| 0 <= k < l < all.len() implies all[k] < all[l] by {
            assert(all[k] == rest[k]);
            if l < rest.len() {
                assert(all[l] == rest[l]);
            }
        }
        assert forall|i: int| 0 <= i < rows.len() && project(#[trigger] rows[i], columns) == wanted implies all.contains(
            i,
        ) by {
            if i < shorter.len() {
                assert(shorter[i] == rows[i]);
                assert(rest.contains(i));
                let k = choose|k: int| 0 <= k < rest.len() && rest[k] == i;
                assert(all[k] == i);
            } else {
                assert(all[all.len() - 1] == i);
            }
        }
    }
}

/// When every row has the wanted entries, every row matches.
pub proof fn lemma_all_rows_match(rows: Seq<Seq<LabelValue>>, columns: Seq<int>, wanted: Seq<LabelValue>)
    requires
        forall|i: int| 0 <= i < rows.len() ==> project(#[trigger] rows[i], columns) == wanted,
    ensures
        matching_rows(rows, columns, wanted) == Seq::new(rows.len(), |i: int| i),
    decreases rows.len(),
{
    if rows.len() > 0 {
        let shorter = rows.drop_last();
        assert forall|i: int| 0 <= i < shorter.len() implies project(#[trigger] shorter[i], columns) == wanted by {
            assert(shorter[i] == rows[i]);
        }
        lemma_all_rows_match(shorter, columns, wanted);
        assert(project(rows[rows.len() - 1], columns) == wanted);
    }
    assert(matching_rows(rows, columns, wanted) =~= Seq::new(rows.len(), |i: int| i));
}

/// For each of the `selected` names, the index of the column of that name.
pub open spec fn columns_of(names: Seq<Seq<char>>, selected: Seq<Seq<char>>) -> Seq<int> {
    Seq::new(selected.len(), |k: int| names.index_of(selected[k]))
}

/// A selection names columns of the keys and gives one value for each; a
/// selection without columns selects every block.
pub open spec fn valid_selection(keys: LabelsView, selection: LabelsView) -> bool {
    selection.arity() == 0 || (selection.count() == 1 && forall|k: int|
        0 <= k < selection.names.len() ==> keys.names.contains(#[trigger] selection.names[k]))
}

/// The index of the first of the `wanted` names, from the one at `from` on,
/// that is not among `names`; the number of wanted names if there is none.
pub open spec fn first_missing(names: Seq<Seq<char>>, wanted: Seq<Seq<char>>, from: int) -> int
    decreases wanted.len() - from,
{
    if from < 0 || from >= wanted.len() {
        wanted.len() as int
    } else if !names.contains(wanted[from]) {
        from
    } else {
        first_missing(names, wanted, from + 1)
    }
}

/// The message for a name that is no column of the keys.
pub open spec fn missing_message(name: Seq<char>) -> Seq<char> {
    "'"@ + name + "' is not part of the sparse labels for this descriptor"@
}

/// The message that refuses a selection, if it is refused.
pub open spec fn selection_error(keys: LabelsView, selection: LabelsView) -> Option<Seq<char>> {
    if selection.arity() != 0 && selection.count() != 1 {
        Some("block selection labels must contain a single row, got "@ + decimal(selection.count()))
    } else if first_missing(keys.names, selection.names, 0) < selection.names.len() {
        Some(missing_message(selection.names[first_missing(keys.names, selection.names, 0)]))
    } else {
        None
    }
}

/// The columns of a selection with their values, as `name = value`.
pub open spec fn selection_pairs(selection: LabelsView) -> Seq<Seq<char>> {
    Seq::new(selection.arity(), |k: int| selection.names[k] + " = "@ + signed_decimal(selection.rows[0][k] as int))
}

/// What a selection asks for, as `name = value, ...`.
pub open spec fn selection_summary(selection: LabelsView) -> Seq<char> {
    if selection.count() == 0 {
        Seq::empty()
    } else {
        joined(selection_pairs(selection), ", "@)
    }
}

/// The message for a selection that selects `count` blocks where one is asked for.
pub open spec fn match_count_message(count: nat, selection: LabelsView) -> Seq<char> {
    decimal(count) + " blocks matched the selection ("@ + selection_summary(selection)
        + "), expected only one"@
}

/// The message that refuses to pick the one block of a selection, if the
/// selection is refused or does not select one block.
pub open spec fn block_error(keys: LabelsView, selection: LabelsView) -> Option<Seq<char>> {
    match selection_error(keys, selection) {
        Some(text) => Some(text),
        None => if selected_blocks(keys, selection).len() != 1 {
            Some(match_count_message(selected_blocks(keys, selection).len(), selection))
        } else {
            None
        },
    }
}

/// The values that a selection asks for, one for each of its columns.
pub open spec fn selection_values(selection: LabelsView) -> Seq<LabelValue> {
    if selection.arity() == 0 {
        Seq::empty()
    } else {
        selection.rows[0]
    }
}

/// The indices of the blocks whose key has the values that `selection` asks
/// for, in the order of the keys.
pub open spec fn selected_blocks(keys: LabelsView, selection: LabelsView) -> Seq<int> {
    matching_rows(keys.rows, columns_of(keys.names, selection.names), selection_values(selection))
}

/// A list of indices as a sequence of integers.
pub open spec fn indices_view(indices: Seq<usize>) -> Seq<int> {
    Seq::new(indices.len(), |k: int| indices[k] as int)
}

/// Whether the entries of `row` in `columns` are `wanted`.
pub fn row_selected(row: &[LabelValue], columns: &Vec<usize>, wanted: &[LabelValue]) -> (selected: bool)
    requires
        forall|k: int| 0 <= k < columns.len() ==> columns[k] < row.len(),
    ensures
        selected == (project(row@, indices_view(columns@)) == wanted@),
{
    let ghost projected = project(row@, indices_view(columns@));
    if columns.len() != wanted.len() {
        assert(projected.len() != wanted@.len());
        return false;
    }
    let mut k: usize = 0;
    while k < columns.len()
        invariant
            k <= columns.len(),
            columns.len() == wanted.len(),
            projected == project(row@, indices_view(columns@)),
            forall|c: int| 0 <= c < columns.len() ==> columns[c] < row.len(),
            forall|c: int| 0 <= c < k ==> projected[c] == wanted[c],
        decreases columns.len() - k,
    {
        if row[columns[k]] != wanted[k] {
            assert(projected[k as int] != wanted[k as int]);
            return false;
        }
        k += 1;
    }
    assert(projected =~= wanted@);
    true
}

/// What a descriptor holds: its keys and, for each key, a block.
pub ghost struct DescriptorView<A: Array> {
    pub keys: LabelsView,
    pub blocks: Seq<Block<A>>,
}

/// Blocks of data, each under a key of sparse labels.
#[derive(Debug)]
pub struct Descriptor<A: Array> {
    sparse: Labels,
    blocks: Vec<Block<A>>,
}

impl<A: Array> View for Descriptor<A> {
    type V = DescriptorView<A>;

    closed spec fn view(&self) -> DescriptorView<A> {
        DescriptorView { keys: self.sparse@, blocks: self.blocks@ }
    }
}

/// The message for a block whose labels along one axis are named otherwise
/// than those of the first block: it holds both lists of names.
pub open spec fn names_message(what: Seq<char>, got: Seq<Seq<char>>, expected: Seq<Seq<char>>) -> Seq<char> {
    "all blocks must have the same "@ + what + " labels names, got ["@ + joined(got, ", "@) + "] and ["@ + joined(
        expected,
        ", "@,
    ) + "]"@
}

/// The message for the first gradient of `block`, from the one at `from` on,
/// that the first block lacks or has with other names for its samples.
pub open spec fn gradient_layout_error<A: Array>(first: &Block<A>, block: &Block<A>, from: int) -> Option<Seq<char>>
    decreases block.gradient_names().len() - from,
{
    if from < 0 || from >= block.gradient_names().len() {
        None
    } else {
        let name = block.gradient_names()[from];
        if !first.gradient_names().contains(name) {
            Some("missing gradient with respect to "@ + name + " in one of the blocks"@)
        } else if block.gradients()[from].samples()@.names != gradient_of(first, name).samples()@.names {
            Some(
                "all blocks must have the same sample labels names, got ["@ + joined(
                    block.gradients()[from].samples()@.names,
                    ", "@,
                ) + "] and ["@ + joined(gradient_of(first, name).samples()@.names, ", "@)
                    + "] for gradients with respect to "@ + name,
            )
        } else {
            gradient_layout_error(first, block, from + 1)
        }
    }
}

/// The message for a block that has not the layout of the first block, if it
/// has not: it tells the first thing that differs.
pub open spec fn layout_error<A: Array>(first: &Block<A>, block: &Block<A>) -> Option<Seq<char>> {
    if block.values().samples()@.names != first.values().samples()@.names {
        Some(names_message("samples"@, block.values().samples()@.names, first.values().samples()@.names))
    } else if block.values().components()@.names != first.values().components()@.names {
        Some(
            names_message("components"@, block.values().components()@.names, first.values().components()@.names),
        )
    } else if block.values().properties()@.names != first.values().properties()@.names {
        Some(
            names_message("properties"@, block.values().properties()@.names, first.values().properties()@.names),
        )
    } else if block.gradient_names().len() != first.gradient_names().len() {
        Some("all blocks must contains the same set of gradients"@)
    } else {
        gradient_layout_error(first, block, 0)
    }
}

/// The index of the first block, from the one at `from` on, that has not the
/// layout of the first block; the number of blocks if there is none.
pub open spec fn first_disagreement<A: Array>(blocks: Seq<Block<A>>, from: int) -> int
    decreases blocks.len() - from,
{
    if from < 0 || from >= blocks.len() {
        blocks.len() as int
    } else if !same_layout(&blocks[0], &blocks[from]) {
        from
    } else {
        first_disagreement(blocks, from + 1)
    }
}

/// The origins of the arrays of the values of the blocks.
pub open spec fn origin_tags<A: Array>(blocks: Seq<Block<A>>) -> Seq<u64> {
    Seq::new(blocks.len(), |i: int| blocks[i].values().data().origin_tag())
}

/// The index of the first origin, from the one at `from` on, that is not the
/// first of all; the number of origins if there is none.
pub open spec fn first_other_origin(origins: Seq<u64>, from: int) -> int
    decreases origins.len() - from,
{
    if from < 0 || from >= origins.len() {
        origins.len() as int
    } else if origins[from] != origins[0] {
        from
    } else {
        first_other_origin(origins, from + 1)
    }
}

/// The message for a block whose array has another origin than that of the
/// first block.
pub open spec fn origin_message(got: u64, expected: u64) -> Seq<char> {
    "all blocks must hold arrays of the same origin, got '"@ + decimal(got as nat) + "' and '"@ + decimal(
        expected as nat,
    ) + "'"@
}

/// The message that refuses arrays of these origins in one descriptor, if
/// they are not all of the first origin.
pub open spec fn origins_error(origins: Seq<u64>) -> Option<Seq<char>> {
    if first_other_origin(origins, 0) < origins.len() {
        Some(origin_message(origins[first_other_origin(origins, 0)], origins[0]))
    } else {
        None
    }
}

/// The message that refuses to make a descriptor of the keys and blocks for
/// the names of their labels, if it is refused for them.
pub open spec fn labels_error<A: Array>(keys: LabelsView, blocks: Seq<Block<A>>) -> Option<Seq<char>> {
    if keys.count() != blocks.len() {
        Some(
            "expected the same number of blocks ("@ + decimal(keys.count())
                + ") as the number of entries in the labels when creating a descriptor, got "@ + decimal(
                blocks.len(),
            ),
        )
    } else if first_disagreement(blocks, 0) < blocks.len() {
        layout_error(&blocks[0], &blocks[first_disagreement(blocks, 0)])
    } else {
        None
    }
}

/// The message that refuses to make a descriptor of the keys and blocks, if
/// they do not fit together: that for the names of their labels, or else
/// that for the origins of their arrays.
pub open spec fn descriptor_error<A: Array>(keys: LabelsView, blocks: Seq<Block<A>>) -> Option<Seq<char>> {
    match labels_error(keys, blocks) {
        Some(text) => Some(text),
        None => origins_error(origin_tags(blocks)),
    }
}

/// The origins from the one at `from` on are all the first origin when no
/// other origin is found from there on.
pub proof fn lemma_no_other_origin(origins: Seq<u64>, from: int, i: int)
    requires
        0 <= from <= i < origins.len(),
        first_other_origin(origins, from) >= origins.len(),
    ensures
        origins[i] == origins[0],
    decreases i - from,
{
    if from < i {
        lemma_no_other_origin(origins, from + 1, i);
    }
}

/// Checks that all the origins are the first of them; the error names the
/// first that is not.
pub fn check_origins(origins: &Vec<u64>) -> (r: Result<(), Error>)
    ensures
        match origins_error(origins@) {
            None => r is Ok,
            Some(text) => r matches Err(Error::InvalidParameter(m)) && m@ == text,
        },
        r is Ok <==> forall|i: int| 0 <= i < origins.len() ==> (#[trigger] origins[i]) == origins[0],
{
    let mut k: usize = 0;
    while k < origins.len()
        invariant
            k <= origins.len(),
            forall|n: int| 0 <= n < k ==> (#[trigger] origins[n]) == origins[0],
            first_other_origin(origins@, 0) == first_other_origin(origins@, k as int),
        decreases origins.len() - k,
    {
        if origins[k] != origins[0] {
            let mut message = String::from_str("all blocks must hold arrays of the same origin, got '");
            push_decimal(&mut message, origins[k]);
            message.append("' and '");
            push_decimal(&mut message, origins[0]);
            message.append("'");
            assert(first_other_origin(origins@, k as int) == k);
            return Err(Error::InvalidParameter(message));
        }
        k += 1;
    }
    assert(first_other_origin(origins@, k as int) == origins.len());
    Ok(())
}

/// The error for a block whose labels along one axis are named otherwise
/// than those of the first block.
fn names_error(what: &str, got: &Vec<&str>, expected: &Vec<&str>) -> (e: Error)
    ensures
        e matches Error::InvalidParameter(m) && m@ == names_message(
            what@,
            crate::labels::strs_view(got@),
            crate::labels::strs_view(expected@),
        ),
{
    let mut message = String::from_str("all blocks must have the same ");
    message.append(what);
    message.append(" labels names, got [");
    push_joined(&mut message, got, ", ");
    message.append("] and [");
    push_joined(&mut message, expected, ", ");
    message.append("]");
    Error::InvalidParameter(message)
}

/// Checks one block against the first; the error says what differs.
fn check_layout<A: Array>(first: &Block<A>, block: &Block<A>) -> (r: Result<(), Error>)
    requires
        first.wf(),
        block.wf(),
    ensures
        match layout_error(first, block) {
            None => r is Ok && same_layout(first, block),
            Some(text) => r matches Err(Error::InvalidParameter(m)) && m@ == text && !same_layout(first, block),
        },
{
    if !block.values().samples().same_names(first.values().samples()) {
        return Err(names_error("samples", &block.values().samples().names(), &first.values().samples().names()));
    }
    if !block.values().components().same_names(first.values().components()) {
        return Err(
            names_error(
                "components",
                &block.values().components().names(),
                &first.values().components().names(),
            ),
        );
    }
    if !block.values().properties().same_names(first.values().properties()) {
        return Err(
            names_error(
                "properties",
                &block.values().properties().names(),
                &first.values().properties().names(),
            ),
        );
    }
    let gradients = block.gradients_list();
    let expected_gradients = first.gradients_list();
    assert(crate::labels::strs_view(gradients@).len() == gradients.len());
    assert(crate::labels::strs_view(expected_gradients@).len() == expected_gradients.len());
    if gradients.len() != expected_gradients.len() {
        return Err(
            Error::InvalidParameter(String::from_str("all blocks must contains the same set of gradients")),
        );
    }
    let mut k: usize = 0;
    while k < gradients.len()
        invariant
            k <= gradients.len(),
            first.wf(),
            block.wf(),
            crate::labels::strs_view(gradients@) == block.gradient_names(),
            layout_error(first, block) == gradient_layout_error(first, block, k as int),
            forall|n: int|
                0 <= n < k ==> {
                    &&& first.gradient_names().contains(#[trigger] block.gradient_names()[n])
                    &&& block.gradients()[n].samples()@.names == first.gradients()[first.gradient_names().index_of(
                        block.gradient_names()[n],
                    )].samples()@.names
                },
        decreases gradients.len() - k,
    {
        let name = gradients[k];
        assert(crate::labels::strs_view(gradients@)[k as int] == name@);
        let gradient = match block.get_gradient(name) {
            Some(gradient) => gradient,
            None => {
                assert(block.gradient_names().contains(block.gradient_names()[k as int]));
                assert(false);
                return Err(Error::InvalidParameter(String::from_str("missing gradient in one of the blocks")));
            },
        };
        assert(block.gradient_names().index_of(name@) == k) by {
            let found = block.gradient_names().index_of(name@);
            assert(block.gradient_names()[found] == name@);
        }
        match first.get_gradient(name) {
            None => {
                let mut message = String::from_str("missing gradient with respect to ");
                message.append(name);
                message.append(" in one of the blocks");
                return Err(Error::InvalidParameter(message));
            },
            Some(expected) => {
                if !gradient.samples().same_names(expected.samples()) {
                    let mut message = String::from_str("all blocks must have the same sample labels names, got [");
                    push_joined(&mut message, &gradient.samples().names(), ", ");
                    message.append("] and [");
                    push_joined(&mut message, &expected.samples().names(), ", ");
                    message.append("] for gradients with respect to ");
                    message.append(name);
                    return Err(Error::InvalidParameter(message));
                }
            },
        }
        k += 1;
    }
    Ok(())
}

impl<A: Array> Descriptor<A> {
    /// The keys and every block are well formed, there is one block for each
    /// key, and the blocks agree on their layout.
    pub open spec fn wf(&self) -> bool {
        &&& self@.keys.wf()
        &&& forall|i: int| 0 <= i < self@.blocks.len() ==> (#[trigger] self@.blocks[i]).wf()
        &&& layout_agrees(self@.keys, self@.blocks)
    }

    /// Checks that there is one block for each key and that the blocks agree
    /// on their layout; the error says what is wrong.
    fn check_labels(sparse: &Labels, blocks: &Vec<Block<A>>) -> (r: Result<(), Error>)
        requires
            sparse.wf(),
            forall|i: int| 0 <= i < blocks.len() ==> (#[trigger] blocks[i]).wf(),
        ensures
            r is Ok <==> labels_agree(sparse@, blocks@),
            match labels_error(sparse@, blocks@) {
                None => r is Ok,
                Some(text) => r matches Err(Error::InvalidParameter(m)) && m@ == text,
            },
    {
        if blocks.len() != sparse.count() {
            let mut message = String::from_str("expected the same number of blocks (");
            push_count(&mut message, sparse.count());
            message.append(") as the number of entries in the labels when creating a descriptor, got ");
            push_count(&mut message, blocks.len());
            return Err(Error::InvalidParameter(message));
        }
        let mut i: usize = 0;
        while i < blocks.len()
            invariant
                i <= blocks.len(),
                blocks.len() == sparse@.count(),
                forall|n: int| 0 <= n < blocks.len() ==> (#[trigger] blocks[n]).wf(),
                forall|n: int| 0 <= n < i ==> same_layout(&blocks[0], &#[trigger] blocks[n]),
                first_disagreement(blocks@, 0) == first_disagreement(blocks@, i as int),
            decreases blocks.len() - i,
        {
            match check_layout(&blocks[0], &blocks[i]) {
                Ok(()) => {},
                Err(e) => {
                    assert(first_disagreement(blocks@, i as int) == i);
                    return Err(e);
                },
            }
            i += 1;
        }
        assert(first_disagreement(blocks@, i as int) == blocks.len());
        Ok(())
    }

    /// A descriptor of the given blocks under the given keys, if there is one
    /// block for each key, the blocks agree on their layout, and their arrays
    /// are of one origin. The arrays are asked for their origins when there is
    /// more than one block; with no more than one block nothing is asked, and
    /// the descriptor is made whenever keys and block fit.
    pub fn new(sparse: Labels, blocks: Vec<Block<A>>) -> (r: Result<Descriptor<A>, Error>)
        requires
            sparse.wf(),
            forall|i: int| 0 <= i < blocks.len() ==> (#[trigger] blocks[i]).wf(),
        ensures
            blocks.len() <= 1 && sparse@.count() == blocks.len() ==> r is Ok,
            !labels_agree(sparse@, blocks@) ==> r matches Err(Error::InvalidParameter(_)),
            match r {
                Ok(descriptor) => {
                    &&& layout_agrees(sparse@, blocks@)
                    &&& descriptor_error(sparse@, blocks@) is None
                    &&& descriptor.wf()
                    &&& descriptor@.keys == sparse@
                    &&& descriptor@.blocks == blocks@
                },
                Err(Error::InvalidParameter(m)) => !layout_agrees(sparse@, blocks@) && descriptor_error(
                    sparse@,
                    blocks@,
                ) == Some(m@),
                Err(Error::ArrayBackend(_)) => labels_agree(sparse@, blocks@) && blocks.len() > 1,
                Err(Error::Unimplemented(_)) => false,
            },
    {
        proof {
            if blocks.len() == 1 {
                lemma_same_layout_reflexive(&blocks@[0]);
            }
        }
        match Self::check_labels(&sparse, &blocks) {
            Ok(()) => {},
            Err(e) => {
                return Err(e);
            },
        }
        let ghost tags = origin_tags(blocks@);
        if blocks.len() > 1 {
            let mut origins: Vec<u64> = Vec::new();
            let mut k: usize = 0;
            while k < blocks.len()
                invariant
                    k <= blocks.len(),
                    blocks.len() > 1,
                    labels_agree(sparse@, blocks@),
                    tags == origin_tags(blocks@),
                    origins.len() == k,
                    forall|n: int| 0 <= n < k ==> origins[n] == tags[n],
                decreases blocks.len() - k,
            {
                match blocks[k].values().data().origin() {
                    Ok(origin) => {
                        origins.push(origin);
                    },
                    Err(e) => {
                        return Err(Error::ArrayBackend(e));
                    },
                }
                k += 1;
            }
            assert(origins@ =~= tags);
            match check_origins(&origins) {
                Ok(()) => {},
                Err(e) => {
                    proof {
                        let other = choose|i: int| 0 <= i < origins.len() && (#[trigger] origins[i]) != origins[0];
                        assert(tags[other] != tags[0]);
                        assert(blocks@[other].values().data().origin_tag() != blocks@[0].values().data().origin_tag());
                    }
                    return Err(e);
                },
            }
        } else {
            assert(first_other_origin(tags, 1) == tags.len());
            assert(first_other_origin(tags, 0) == tags.len());
        }
        proof {
            assert forall|i: int| 0 <= i < blocks.len() implies (#[trigger] blocks@[i]).values().data().origin_tag()
                == blocks@[0].values().data().origin_tag() by {
                lemma_no_other_origin(tags, 0, i);
            }
        }
        Ok(Descriptor { sparse, blocks })
    }

    /// A descriptor of the given blocks under the given keys, for arrays
    /// whose origins are known: `origins` holds, for each block, the origin
    /// of the array of its values. No array is asked anything, and the
    /// descriptor is made exactly when keys and blocks fit together.
    pub fn with_origins(sparse: Labels, blocks: Vec<Block<A>>, origins: &Vec<u64>) -> (r: Result<
        Descriptor<A>,
        Error,
    >)
        requires
            sparse.wf(),
            forall|i: int| 0 <= i < blocks.len() ==> (#[trigger] blocks[i]).wf(),
            origins@ == origin_tags(blocks@),
        ensures
            r is Ok <==> layout_agrees(sparse@, blocks@),
            match descriptor_error(sparse@, blocks@) {
                None => r matches Ok(descriptor) && descriptor.wf() && descriptor@.keys == sparse@
                    && descriptor@.blocks == blocks@,
                Some(text) => r matches Err(Error::InvalidParameter(m)) && m@ == text,
            },
    {
        match Self::check_labels(&sparse, &blocks) {
            Ok(()) => {},
            Err(e) => {
                return Err(e);
            },
        }
        let ghost tags = origin_tags(blocks@);
        match check_origins(origins) {
            Ok(()) => {},
            Err(e) => {
                proof {
                    let other = choose|i: int| 0 <= i < origins.len() && (#[trigger] origins[i]) != origins[0];
                    assert(tags[other] != tags[0]);
                    assert(blocks@[other].values().data().origin_tag() != blocks@[0].values().data().origin_tag());
                }
                return Err(e);
            },
        }
        proof {
            assert forall|i: int| 0 <= i < blocks.len() implies (#[trigger] blocks@[i]).values().data().origin_tag()
                == blocks@[0].values().data().origin_tag() by {
                assert(origins[i] == tags[i]);
                assert(origins[0] == tags[0]);
            }
        }
        Ok(Descriptor { sparse, blocks })
    }

    /// The descriptor of the given blocks under the given keys, which are
    /// known to fit together.
    pub(crate) fn from_parts(sparse: Labels, blocks: Vec<Block<A>>) -> (descriptor: Descriptor<A>)
        requires
            sparse.wf(),
            forall|i: int| 0 <= i < blocks.len() ==> (#[trigger] blocks[i]).wf(),
            layout_agrees(sparse@, blocks@),
        ensures
            descriptor.wf(),
            descriptor@.keys == sparse@,
            descriptor@.blocks == blocks@,
    {
        Descriptor { sparse, blocks }
    }

    /// The blocks, in the order of the keys.
    pub fn blocks(&self) -> (blocks: &[Block<A>])
        ensures
            blocks@ == self@.blocks,
    {
        self.blocks.as_slice()
    }

    /// The blocks, to be changed in place. Whoever changes them keeps them
    /// well formed and in agreement with each other.
    pub fn blocks_mut(&mut self) -> (blocks: &mut [Block<A>])
        ensures
            blocks@ == old(self)@.blocks,
            final(self)@.keys == old(self)@.keys,
            final(self)@.blocks == final(blocks)@,
    {
        self.blocks.as_mut_slice()
    }

    /// The number of blocks, which is the number of keys.
    pub fn blocks_len(&self) -> (count: usize)
        requires
            self.wf(),
        ensures
            count == self@.blocks.len(),
            count == self@.keys.count(),
    {
        self.blocks.len()
    }

    /// The block under the key at `index`.
    pub fn block_by_index(&self, index: usize) -> (block: &Block<A>)
        requires
            index < self@.blocks.len(),
        ensures
            *block == self@.blocks[index as int],
    {
        &self.blocks[index]
    }

    /// The block under the key at `index`, to be changed in place. Whoever
    /// changes it keeps it well formed and in agreement with the other blocks.
    pub fn block_by_index_mut(&mut self, index: usize) -> (block: &mut Block<A>)
        requires
            index < old(self)@.blocks.len(),
        ensures
            *block == old(self)@.blocks[index as int],
            final(self)@.keys == old(self)@.keys,
            final(self)@.blocks == old(self)@.blocks.update(index as int, *final(block)),
    {
        &mut self.blocks[index]
    }

    /// The keys.
    pub fn keys(&self) -> (keys: &Labels)
        ensures
            keys@ == self@.keys,
    {
        &self.sparse
    }

    /// The keys, under the name of sparse labels.
    pub fn sparse(&self) -> (keys: &Labels)
        ensures
            keys@ == self@.keys,
    {
        &self.sparse
    }

    /// Each key with its block, in the order of the keys.
    pub fn iter(&self) -> (entries: Vec<(&[LabelValue], &Block<A>)>)
        requires
            self.wf(),
        ensures
            entries.len() == self@.blocks.len(),
            forall|i: int|
                0 <= i < entries.len() ==> (#[trigger] entries[i]).0@ == self@.keys.rows[i] && *entries[i].1
                    == self@.blocks[i],
    {
        let mut entries: Vec<(&[LabelValue], &Block<A>)> = Vec::new();
        let mut i: usize = 0;
        while i < self.blocks.len()
            invariant
                i <= self.blocks.len(),
                self.wf(),
                entries.len() == i,
                forall|n: int|
                    0 <= n < i ==> (#[trigger] entries[n]).0@ == self@.keys.rows[n] && *entries[n].1
                        == self@.blocks[n],
            decreases self.blocks.len() - i,
        {
            entries.push((self.sparse.row(i), &self.blocks[i]));
            i += 1;
        }
        entries
    }

    /// Each key with its block, in the order of the keys, the blocks to be
    /// changed in place. Whoever changes them keeps them well formed and in
    /// agreement with each other.
    pub fn iter_mut(&mut self) -> (entries: Vec<(&[LabelValue], &mut Block<A>)>)
        requires
            old(self).wf(),
        ensures
            entries.len() == old(self)@.blocks.len(),
            forall|i: int|
                0 <= i < entries.len() ==> (#[trigger] entries[i]).0@ == old(self)@.keys.rows[i] && *entries[i].1
                    == old(self)@.blocks[i],
            final(self)@.keys == old(self)@.keys,
            final(self)@.blocks.len() == entries.len(),
            forall|i: int| 0 <= i < entries.len() ==> final(self)@.blocks[i] == *final((#[trigger] entries[i]).1),
    {
        let ghost keys = self@.keys;
        let ghost before = self@.blocks;
        let ghost finished = final(self).blocks@;
        let sparse = &self.sparse;
        let mut entries: Vec<(&[LabelValue], &mut Block<A>)> = Vec::new();
        let mut rest: &mut [Block<A>] = self.blocks.as_mut_slice();
        while rest.len() > 0
            invariant
                sparse@ == keys,
                keys.count() == before.len(),
                entries.len() + rest.len() == before.len(),
                rest@ == before.skip(entries.len() as int),
                forall|i: int|
                    0 <= i < entries.len() ==> (#[trigger] entries[i]).0@ == keys.rows[i] && *entries[i].1
                        == before[i],
                finished.len() >= entries.len(),
                forall|i: int| 0 <= i < entries.len() ==> finished[i] == *final((#[trigger] entries[i]).1),
                final(rest)@ == finished.skip(entries.len() as int),
            decreases rest.len(),
        {
            let ghost rest_final = final(rest)@;
            let ghost count = entries.len();
            let (head, tail) = rest.split_at_mut(1);
            let ghost head_final = final(head)@;
            let block = &mut head[0];
            proof {
                assert(head_final =~= seq![*final(block)]);
                assert(rest_final == head_final + final(tail)@);
                assert(rest_final.len() >= 1);
                assert(finished[count as int] == rest_final[0]);
                assert(final(tail)@ =~= rest_final.skip(1));
                assert(finished.skip(count as int).skip(1) =~= finished.skip(count + 1));
            }
            entries.push((sparse.row(entries.len()), block));
            rest = tail;
        }
        assert(final(rest)@ =~= rest@);
        entries
    }

    /// The blocks that `selection` selects, in the order of the keys, to be
    /// changed in place. Whoever changes them keeps them well formed and in
    /// agreement with the other blocks.
    pub fn blocks_matching_mut(&mut self, selection: &Labels) -> (r: Result<Vec<&mut Block<A>>, Error>)
        requires
            old(self).wf(),
            selection.wf(),
        ensures
            final(self)@.keys == old(self)@.keys,
            final(self)@.blocks.len() == old(self)@.blocks.len(),
            match r {
                Ok(blocks) => {
                    let selected = selected_blocks(old(self)@.keys, selection@);
                    &&& valid_selection(old(self)@.keys, selection@)
                    &&& blocks.len() == selected.len()
                    &&& forall|k: int|
                        0 <= k < blocks.len() ==> *(#[trigger] blocks[k]) == old(self)@.blocks[selected[k]]
                    &&& forall|k: int|
                        0 <= k < blocks.len() ==> final(self)@.blocks[selected[k]] == *final(#[trigger] blocks[k])
                    &&& forall|i: int|
                        0 <= i < old(self)@.blocks.len() && !selected.contains(i) ==> final(self)@.blocks[i]
                            == old(self)@.blocks[i]
                },
                Err(e) => {
                    &&& e matches Error::InvalidParameter(m) && selection_error(old(self)@.keys, selection@)
                        == Some(m@)
                    &&& !valid_selection(old(self)@.keys, selection@)
                    &&& final(self)@ == old(self)@
                },
            },
    {
        let matching = match self.find_matching_blocks(selection) {
            Ok(matching) => matching,
            Err(e) => {
                return Err(e);
            },
        };
        let ghost before = self@.blocks;
        let ghost finished = final(self).blocks@;
        let ghost selected = indices_view(matching@);
        proof {
            lemma_matching_rows(
                self@.keys.rows,
                columns_of(self@.keys.names, selection@.names),
                selection_values(selection@),
            );
        }
        let total = self.blocks.len();
        let mut blocks: Vec<&mut Block<A>> = Vec::new();
        let mut rest: &mut [Block<A>] = self.blocks.as_mut_slice();
        let mut offset: usize = 0;
        let mut k: usize = 0;
        while k < matching.len()
            invariant
                k <= matching.len(),
                selected == indices_view(matching@),
                forall|n: int| 0 <= n < selected.len() ==> 0 <= #[trigger] selected[n] < before.len(),
                forall|n: int, m: int| 0 <= n < m < selected.len() ==> selected[n] < selected[m],
                blocks.len() == k,
                before.len() == total,
                offset + rest.len() == before.len(),
                k < matching.len() ==> offset <= matching[k as int],
                k > 0 ==> offset == matching[k - 1] + 1,
                rest@ == before.skip(offset as int),
                forall|n: int| 0 <= n < k ==> *(#[trigger] blocks[n]) == before[selected[n]],
                finished.len() >= offset,
                forall|n: int| 0 <= n < k ==> finished[selected[n]] == *final(#[trigger] blocks[n]),
                forall|i: int|
                    0 <= i < offset && (forall|n: int| 0 <= n < k ==> selected[n] != i) ==> finished[i] == before[i],
                final(rest)@ == finished.skip(offset as int),
            decreases matching.len() - k,
        {
            let index = matching[k];
            assert(selected[k as int] == index);
            let ghost rest_final = final(rest)@;
            let ghost start = offset;
            let (head, tail) = rest.split_at_mut(index - offset + 1);
            let ghost head_view = head@;
            let ghost head_final = final(head)@;
            let block = &mut head[index - offset];
            proof {
                assert(head_final =~= head_view.update(index - start, *final(block)));
                assert(rest_final == head_final + final(tail)@);
                assert(rest_final.len() >= index - start + 1);
                assert(final(tail)@ =~= rest_final.skip(index - start + 1));
                assert(finished.skip(start as int).skip(index - start + 1) =~= finished.skip(index + 1));
                assert(finished[index as int] == rest_final[index - start]);
                assert forall|i: int|
                    0 <= i < index + 1 && (forall|n: int| 0 <= n < k + 1 ==> selected[n] != i) implies finished[i]
                    == before[i] by {
                    if i >= start {
                        assert(finished[i] == rest_final[i - start]);
                        assert(head_final[i - start] == head_view[i - start]);
                        assert(head_view[i - start] == before.skip(start as int)[i - start]);
                    } else {
                        assert forall|n: int| 0 <= n < k implies selected[n] != i by {
                            assert(selected[n] != i);
                        }
                    }
                }
                if k + 1 < matching.len() {
                    assert(selected[k as int] < selected[k + 1]);
                    assert(selected[k + 1] == matching[k + 1]);
                }
                assert(before.skip(start as int).skip(index - start + 1) =~= before.skip(index + 1));
            }
            blocks.push(block);
            rest = tail;
            offset = index + 1;
            k += 1;
        }
        proof {
            assert(final(rest)@ =~= rest@);
            assert forall|i: int| 0 <= i < before.len() && !selected.contains(i) implies finished[i] == before[i] by {
                if i >= offset {
                    assert(finished.skip(offset as int)[i - offset] == finished[i]);
                    assert(before.skip(offset as int)[i - offset] == before[i]);
                } else {
                    assert forall|n: int| 0 <= n < k implies selected[n] != i by {
                        if selected[n] == i {
                            assert(selected.contains(i));
                        }
                    }
                }
            }
            assert(finished.len() == before.len()) by {
                assert(finished.skip(offset as int).len() == before.skip(offset as int).len());
            }
        }
        Ok(blocks)
    }

    /// The indices of the blocks that `selection` selects, in the order of the
    /// keys. The selection has one row, which gives the wanted value for each
    /// of its columns; with no columns at all it selects every block.
    pub fn find_matching_blocks(&self, selection: &Labels) -> (r: Result<Vec<usize>, Error>)
        requires
            self.wf(),
            selection.wf(),
        ensures
            match r {
                Ok(matching) => {
                    &&& valid_selection(self@.keys, selection@)
                    &&& selection_error(self@.keys, selection@) is None
                    &&& indices_view(matching@) == selected_blocks(self@.keys, selection@)
                    &&& forall|k: int| 0 <= k < matching.len() ==> (#[trigger] matching[k]) < self@.blocks.len()
                },
                Err(e) => {
                    &&& !valid_selection(self@.keys, selection@)
                    &&& e matches Error::InvalidParameter(m) && selection_error(self@.keys, selection@) == Some(m@)
                },
            },
    {
        if selection.size() != 0 && selection.count() != 1 {
            let mut message = String::from_str("block selection labels must contain a single row, got ");
            push_count(&mut message, selection.count());
            return Err(Error::InvalidParameter(message));
        }
        let requested = selection.names();
        let mut columns: Vec<usize> = Vec::new();
        let mut k: usize = 0;
        while k < requested.len()
            invariant
                k <= requested.len(),
                self.wf(),
                crate::labels::strs_view(requested@) == selection@.names,
                columns.len() == k,
                selection@.arity() == 0 || selection@.count() == 1,
                first_missing(self@.keys.names, selection@.names, 0) == first_missing(
                    self@.keys.names,
                    selection@.names,
                    k as int,
                ),
                forall|c: int| 0 <= c < k ==> self@.keys.names.contains(#[trigger] selection@.names[c]),
                forall|c: int|
                    0 <= c < k ==> (#[trigger] columns[c]) < self@.keys.arity() && columns[c]
                        == self@.keys.names.index_of(selection@.names[c]),
            decreases requested.len() - k,
        {
            assert(crate::labels::strs_view(requested@)[k as int] == requested[k as int]@);
            match self.sparse.column(requested[k]) {
                Some(column) => {
                    proof {
                        let names = self@.keys.names;
                        let found = names.index_of(selection@.names[k as int]);
                        assert(names.contains(selection@.names[k as int]));
                        assert(names[found] == names[column as int]);
                    }
                    columns.push(column);
                },
                None => {
                    let mut message = String::from_str("'");
                    message.append(requested[k]);
                    message.append("' is not part of the sparse labels for this descriptor");
                    assert(first_missing(self@.keys.names, selection@.names, k as int) == k);
                    return Err(Error::InvalidParameter(message));
                },
            }
            k += 1;
        }
        assert(first_missing(self@.keys.names, selection@.names, k as int) == selection@.names.len());
        assert(indices_view(columns@) =~= columns_of(self@.keys.names, selection@.names));
        let empty: Vec<LabelValue> = Vec::new();
        let wanted: &[LabelValue] = if selection.size() == 0 {
            empty.as_slice()
        } else {
            selection.row(0)
        };
        assert(wanted@ == selection_values(selection@));
        let mut matching: Vec<usize> = Vec::new();
        let mut i: usize = 0;
        assert(self@.keys.rows.take(0) =~= Seq::<Seq<LabelValue>>::empty());
        while i < self.sparse.count()
            invariant
                i <= self@.keys.count(),
                self.wf(),
                forall|c: int| 0 <= c < columns.len() ==> (#[trigger] columns[c]) < self@.keys.arity(),
                indices_view(matching@) == matching_rows(
                    self@.keys.rows.take(i as int),
                    indices_view(columns@),
                    wanted@,
                ),
                forall|n: int| 0 <= n < matching.len() ==> (#[trigger] matching[n]) < i,
            decreases self@.keys.count() - i,
        {
            let row = self.sparse.row(i);
            proof {
                let next = self@.keys.rows.take(i + 1);
                assert(next.drop_last() =~= self@.keys.rows.take(i as int));
                assert(next.last() == row@);
                assert(self@.keys.rows[i as int].len() == self@.keys.arity());
            }
            let ghost before = indices_view(matching@);
            if row_selected(row, &columns, wanted) {
                matching.push(i);
                assert(indices_view(matching@) =~= before.push(i as int));
            }
            i += 1;
        }
        assert(self@.keys.rows.take(i as int) =~= self@.keys.rows);
        Ok(matching)
    }

    /// The blocks that `selection` selects, in the order of the keys.
    pub fn blocks_matching(&self, selection: &Labels) -> (r: Result<Vec<&Block<A>>, Error>)
        requires
            self.wf(),
            selection.wf(),
        ensures
            match r {
                Ok(blocks) => {
                    &&& valid_selection(self@.keys, selection@)
                    &&& blocks.len() == selected_blocks(self@.keys, selection@).len()
                    &&& forall|k: int|
                        0 <= k < blocks.len() ==> *(#[trigger] blocks[k]) == self@.blocks[selected_blocks(
                            self@.keys,
                            selection@,
                        )[k]]
                },
                Err(e) => {
                    &&& !valid_selection(self@.keys, selection@)
                    &&& e matches Error::InvalidParameter(m) && selection_error(self@.keys, selection@) == Some(m@)
                },
            },
    {
        let matching = match self.find_matching_blocks(selection) {
            Ok(matching) => matching,
            Err(e) => {
                return Err(e);
            },
        };
        let mut blocks: Vec<&Block<A>> = Vec::new();
        let mut k: usize = 0;
        while k < matching.len()
            invariant
                k <= matching.len(),
                blocks.len() == k,
                forall|n: int| 0 <= n < matching.len() ==> (#[trigger] matching[n]) < self@.blocks.len(),
                forall|n: int| 0 <= n < k ==> *(#[trigger] blocks[n]) == self@.blocks[matching[n] as int],
            decreases matching.len() - k,
        {
            blocks.push(&self.blocks[matching[k]]);
            k += 1;
        }
        proof {
            let selected = selected_blocks(self@.keys, selection@);
            assert forall|n: int| 0 <= n < blocks.len() implies *(#[trigger] blocks[n]) == self@.blocks[selected[n]] by {
                assert(indices_view(matching@)[n] == matching[n] as int);
            }
        }
        Ok(blocks)
    }

    /// The error for a selection that selects `matches` blocks where one is asked for.
    fn match_count_error(selection: &Labels, matches: usize) -> (e: Error)
        requires
            selection.wf(),
        ensures
            e matches Error::InvalidParameter(m) && m@ == match_count_message(matches as nat, selection@),
    {
        let mut message = String::new();
        push_count(&mut message, matches);
        message.append(" blocks matched the selection (");
        let ghost prefix = message@;
        if selection.count() > 0 {
            let names = selection.names();
            let row = selection.row(0);
            assert(selection@.rows[0].len() == selection@.arity());
            let ghost pairs = selection_pairs(selection@);
            let mut k: usize = 0;
            assert(joined(pairs.take(0), ", "@) =~= Seq::<char>::empty());
            assert(message@ =~= prefix + joined(pairs.take(0), ", "@));
            while k < names.len()
                invariant
                    k <= names.len(),
                    names.len() == row.len(),
                    names.len() == selection@.arity(),
                    crate::labels::strs_view(names@) == selection@.names,
                    row@ == selection@.rows[0],
                    pairs == selection_pairs(selection@),
                    message@ == prefix + joined(pairs.take(k as int), ", "@),
                decreases names.len() - k,
            {
                let ghost so_far = message@;
                if k > 0 {
                    message.append(", ");
                }
                message.append(names[k]);
                message.append(" = ");
                push_signed(&mut message, row[k]);
                proof {
                    let next = pairs.take(k + 1);
                    assert(next.drop_last() =~= pairs.take(k as int));
                    assert(crate::labels::strs_view(names@)[k as int] == names[k as int]@);
                    assert(next.last() == names[k as int]@ + " = "@ + signed_decimal(row[k as int] as int));
                    if k == 0 {
                        assert(joined(pairs.take(0), ", "@) =~= Seq::<char>::empty());
                        assert(message@ =~= prefix + joined(next, ", "@));
                    } else {
                        assert(message@ =~= prefix + joined(next, ", "@));
                    }
                }
                k += 1;
            }
            assert(pairs.take(names.len() as int) =~= pairs);
        } else {
            assert(message@ =~= prefix + selection_summary(selection@));
        }
        message.append("), expected only one");
        Error::InvalidParameter(message)
    }

    /// The one block that `selection` selects.
    pub fn block(&self, selection: &Labels) -> (r: Result<&Block<A>, Error>)
        requires
            self.wf(),
            selection.wf(),
        ensures
            match r {
                Ok(block) => {
                    &&& valid_selection(self@.keys, selection@)
                    &&& selected_blocks(self@.keys, selection@).len() == 1
                    &&& *block == self@.blocks[selected_blocks(self@.keys, selection@)[0]]
                },
                Err(e) => {
                    &&& !(valid_selection(self@.keys, selection@) && selected_blocks(self@.keys, selection@).len()
                        == 1)
                    &&& e matches Error::InvalidParameter(m) && block_error(self@.keys, selection@) == Some(m@)
                },
            },
    {
        let matching = match self.find_matching_blocks(selection) {
            Ok(matching) => matching,
            Err(e) => {
                return Err(e);
            },
        };
        assert(indices_view(matching@).len() == matching.len());
        if matching.len() != 1 {
            return Err(Self::match_count_error(selection, matching.len()));
        }
        assert(indices_view(matching@)[0] == matching[0] as int);
        Ok(&self.blocks[matching[0]])
    }

    /// The one block that `selection` selects, to be changed in place.
    /// Whoever changes it keeps it well formed and in agreement with the
    /// other blocks.
    pub fn block_mut(&mut self, selection: &Labels) -> (r: Result<&mut Block<A>, Error>)
        requires
            old(self).wf(),
            selection.wf(),
        ensures
            match r {
                Ok(block) => {
                    &&& valid_selection(old(self)@.keys, selection@)
                    &&& selected_blocks(old(self)@.keys, selection@).len() == 1
                    &&& *block == old(self)@.blocks[selected_blocks(old(self)@.keys, selection@)[0]]
                    &&& final(self)@.keys == old(self)@.keys
                    &&& final(self)@.blocks == old(self)@.blocks.update(
                        selected_blocks(old(self)@.keys, selection@)[0],
                        *final(block),
                    )
                },
                Err(e) => {
                    &&& e matches Error::InvalidParameter(m) && block_error(old(self)@.keys, selection@) == Some(m@)
                    &&& !(valid_selection(old(self)@.keys, selection@) && selected_blocks(
                        old(self)@.keys,
                        selection@,
                    ).len() == 1)
                    &&& final(self)@ == old(self)@
                },
            },
    {
        let matching = match self.find_matching_blocks(selection) {
            Ok(matching) => matching,
            Err(e) => {
                return Err(e);
            },
        };
        assert(indices_view(matching@).len() == matching.len());
        if matching.len() != 1 {
            return Err(Self::match_count_error(selection, matching.len()));
        }
        assert(indices_view(matching@)[0] == matching[0] as int);
        Ok(&mut self.blocks[matching[0]])
    }
}

/// Any two blocks of a descriptor agree on the column names of their samples,
/// components and properties, on their gradient parameters, and on the column
/// names of the samples of each gradient.
pub proof fn lemma_blocks_agree<A: Array>(descriptor: &Descriptor<A>, i: int, j: int)
    requires
        descriptor.wf(),
        0 <= i < descriptor@.blocks.len(),
        0 <= j < descriptor@.blocks.len(),
    ensures
        blocks_agree(&descriptor@.blocks[i], &descriptor@.blocks[j]),
{
    let blocks = descriptor@.blocks;
    assert(blocks[0].wf() && blocks[i].wf() && blocks[j].wf());
    assert(same_layout(&blocks[0], &blocks[i]));
    assert(same_layout(&blocks[0], &blocks[j]));
    lemma_same_layout_agrees(&blocks[0], &blocks[i]);
    lemma_same_layout_agrees(&blocks[0], &blocks[j]);
    let first = blocks[0].gradient_names();
    assert forall|name: Seq<char>| #[trigger] blocks[i].gradient_names().contains(name) implies gradient_of(
        &blocks[i],
        name,
    ).samples()@.names == gradient_of(&blocks[j], name).samples()@.names by {
        assert(first.contains(name));
    }
}

} // verus!
