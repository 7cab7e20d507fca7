//! Blocks: an array of values with the labels of its three axes, and the
//! gradients of the values with respect to named parameters.

use crate::array::Array;
use crate::error::Error;
use crate::labels::{find_name, same_text, strings_view, strs_view, Labels, LabelsView};
use crate::text::{decimal, push_count, push_decimal};
use std::sync::Arc;
use vstd::prelude::*;

verus! {

/// `Arc::clone`: another handle on the same shared value.
#[verifier::external_body]
pub(crate) fn share<T>(shared: &Arc<T>) -> (handle: Arc<T>)
    ensures
        handle == *shared,
{
    Arc::clone(shared)
}

/// The word that names the labels of an axis in a message.
pub open spec fn axis_word(axis: int) -> Seq<char> {
    if axis == 0 {
        " sample labels"@
    } else if axis == 1 {
        " components labels"@
    } else {
        " properties labels"@
    }
}

/// Message for an array whose extent along `axis` differs from the number of labels.
pub open spec fn shape_mismatch_message(context: Seq<char>, axis: int, extent: nat, labels: nat) -> Seq<char> {
    context + ": the array shape along axis "@ + decimal(axis as nat) + " is "@ + decimal(extent)
        + " but we have "@ + decimal(labels) + axis_word(axis)
}

/// The first axis along which `shape` differs from the numbers of labels, if any.
pub open spec fn first_mismatch(
    shape: (usize, usize, usize),
    samples: nat,
    components: nat,
    properties: nat,
) -> Option<int> {
    if shape.0 != samples {
        Some(0int)
    } else if shape.1 != components {
        Some(1int)
    } else if shape.2 != properties {
        Some(2int)
    } else {
        None
    }
}

/// The message for an array of the given shape that does not have one row
/// for each label along some axis, if there is such an axis: it names the
/// first of them, the extent of the array along it, and the number of labels.
pub open spec fn shape_error(
    context: Seq<char>,
    shape: (usize, usize, usize),
    samples: nat,
    components: nat,
    properties: nat,
) -> Option<Seq<char>> {
    match first_mismatch(shape, samples, components, properties) {
        None => None,
        Some(axis) => Some(
            shape_mismatch_message(
                context,
                axis,
                (if axis == 0 {
                    shape.0
                } else if axis == 1 {
                    shape.1
                } else {
                    shape.2
                }) as nat,
                if axis == 0 {
                    samples
                } else if axis == 1 {
                    components
                } else {
                    properties
                },
            ),
        ),
    }
}

/// The error for an array whose extent along `axis` differs from the number of labels.
fn shape_mismatch(context: &str, axis: usize, extent: usize, labels: usize) -> (e: Error)
    requires
        axis < 3,
    ensures
        e matches Error::InvalidParameter(m) && m@ == shape_mismatch_message(
            context@,
            axis as int,
            extent as nat,
            labels as nat,
        ),
{
    let mut message = String::from_str(context);
    message.append(": the array shape along axis ");
    push_count(&mut message, axis);
    message.append(" is ");
    push_count(&mut message, extent);
    message.append(" but we have ");
    push_count(&mut message, labels);
    if axis == 0 {
        message.append(" sample labels");
    } else if axis == 1 {
        message.append(" components labels");
    } else {
        message.append(" properties labels");
    }
    Error::InvalidParameter(message)
}

/// Checks that an array of the given shape has one sample, component and
/// property label for each of its rows along the three axes.
pub fn check_data_label_shape(
    context: &str,
    shape: (usize, usize, usize),
    samples: &Labels,
    components: &Labels,
    properties: &Labels,
) -> (r: Result<(), Error>)
    ensures
        match shape_error(context@, shape, samples@.count(), components@.count(), properties@.count()) {
            None => r is Ok,
            Some(text) => r matches Err(Error::InvalidParameter(m)) && m@ == text,
        },
{
    if shape.0 != samples.count() {
        return Err(shape_mismatch(context, 0, shape.0, samples.count()));
    }
    if shape.1 != components.count() {
        return Err(shape_mismatch(context, 1, shape.1, components.count()));
    }
    if shape.2 != properties.count() {
        return Err(shape_mismatch(context, 2, shape.2, properties.count()));
    }
    Ok(())
}

/// An array with the labels of its three axes.
#[derive(Debug)]
pub struct BasicBlock<A: Array> {
    data: A,
    samples: Labels,
    components: Arc<Labels>,
    properties: Arc<Labels>,
}

impl<A: Array> BasicBlock<A> {
    /// The array.
    pub closed spec fn spec_data(&self) -> &A {
        &self.data
    }

    /// The labels of the first axis.
    pub closed spec fn spec_samples(&self) -> &Labels {
        &self.samples
    }

    /// The labels of the second axis.
    pub closed spec fn spec_components(&self) -> &Arc<Labels> {
        &self.components
    }

    /// The labels of the third axis.
    pub closed spec fn spec_properties(&self) -> &Arc<Labels> {
        &self.properties
    }

    /// The labels are well formed and the array has one row per label along each axis.
    pub open spec fn wf(&self) -> bool {
        &&& self.samples().wf()
        &&& self.components().wf()
        &&& self.properties().wf()
        &&& self.data().dims().0 == self.samples()@.count()
        &&& self.data().dims().1 == self.components()@.count()
        &&& self.data().dims().2 == self.properties()@.count()
    }

    /// Bundles an array with its labels, after checking its shape against them.
    pub fn new(data: A, samples: Labels, components: Arc<Labels>, properties: Arc<Labels>) -> (r: Result<
        BasicBlock<A>,
        Error,
    >)
        requires
            samples.wf(),
            components.wf(),
            properties.wf(),
        ensures
            match r {
                Ok(block) => {
                    &&& block.wf()
                    &&& *block.data() == data
                    &&& *block.samples() == samples
                    &&& *block.components() == components
                    &&& *block.properties() == properties
                },
                Err(Error::InvalidParameter(m)) => shape_error(
                    "data and labels don't match"@,
                    data.dims(),
                    samples@.count(),
                    components@.count(),
                    properties@.count(),
                ) == Some(m@),
                Err(Error::ArrayBackend(_)) => true,
                Err(Error::Unimplemented(_)) => false,
            },
    {
        let shape = match data.shape() {
            Ok(shape) => shape,
            Err(e) => {
                return Err(Error::ArrayBackend(e));
            },
        };
        match check_data_label_shape("data and labels don't match", shape, &samples, &components, &properties) {
            Ok(()) => Ok(BasicBlock { data, samples, components, properties }),
            Err(e) => Err(e),
        }
    }

    /// The array.
    #[verifier::when_used_as_spec(spec_data)]
    pub fn data(&self) -> (r: &A)
        ensures
            r == self.spec_data(),
    {
        &self.data
    }

    /// The array, to be changed in place. Whoever changes it keeps its shape.
    pub fn data_mut(&mut self) -> (data: &mut A)
        ensures
            *data == *old(self).data(),
            *final(self).data() == *final(data),
            final(self).samples() == old(self).samples(),
            final(self).components() == old(self).components(),
            final(self).properties() == old(self).properties(),
    {
        &mut self.data
    }

    /// The labels of the first axis.
    #[verifier::when_used_as_spec(spec_samples)]
    pub fn samples(&self) -> (r: &Labels)
        ensures
            r == self.spec_samples(),
    {
        &self.samples
    }

    /// The labels of the second axis.
    #[verifier::when_used_as_spec(spec_components)]
    pub fn components(&self) -> (r: &Arc<Labels>)
        ensures
            r == self.spec_components(),
    {
        &self.components
    }

    /// The labels of the third axis.
    #[verifier::when_used_as_spec(spec_properties)]
    pub fn properties(&self) -> (r: &Arc<Labels>)
        ensures
            r == self.spec_properties(),
    {
        &self.properties
    }
}

/// A gradient can be stored under any name but the empty one and `values`.
pub open spec fn valid_gradient_name(name: Seq<char>) -> bool {
    name.len() > 0 && name != "values"@
}

/// The samples of a gradient start with a column `sample` whose entries are
/// indices into the samples of the values.
pub open spec fn valid_gradient_samples(samples: LabelsView, value_samples: nat) -> bool {
    &&& samples.arity() >= 1
    &&& samples.names[0] == "sample"@
    &&& forall|j: int| 0 <= j < samples.rows.len() ==> 0 <= (#[trigger] samples.rows[j])[0] < value_samples
}

/// The values of a block and a gradient of them agree: same components and
/// properties, same origin, and gradient samples that point into the values.
pub open spec fn gradient_agrees<A: Array>(values: &BasicBlock<A>, gradient: &BasicBlock<A>) -> bool {
    &&& gradient.wf()
    &&& gradient.components()@ == values.components()@
    &&& gradient.properties()@ == values.properties()@
    &&& gradient.data().origin_tag() == values.data().origin_tag()
    &&& valid_gradient_samples(gradient.samples()@, values.samples()@.count())
}

/// The gradient of `block` with respect to `name`.
pub open spec fn gradient_of<A: Array>(block: &Block<A>, name: Seq<char>) -> BasicBlock<A> {
    block.gradients()[block.gradient_names().index_of(name)]
}

/// Whether the samples of a gradient point into `value_samples` samples of values.
fn check_gradient_samples(samples: &Labels, value_samples: usize) -> (valid: bool)
    requires
        samples.wf(),
    ensures
        valid == valid_gradient_samples(samples@, value_samples as nat),
{
    if samples.size() < 1 {
        return false;
    }
    let names = samples.names();
    assert(strs_view(names@)[0] == names[0]@);
    if !same_text(names[0], "sample") {
        return false;
    }
    let mut j: usize = 0;
    while j < samples.count()
        invariant
            j <= samples@.count(),
            samples.wf(),
            samples@.arity() >= 1,
            forall|k: int| 0 <= k < j ==> 0 <= (#[trigger] samples@.rows[k])[0] < value_samples,
        decreases samples@.count() - j,
    {
        let row = samples.row(j);
        assert(samples@.rows[j as int].len() == samples@.arity());
        let first = row[0];
        if first < 0 || first as usize >= value_samples {
            return false;
        }
        j += 1;
    }
    true
}

/// The values of one block together with their gradients, each under the name
/// of the parameter it is taken with respect to.
#[derive(Debug)]
pub struct Block<A: Array> {
    values: BasicBlock<A>,
    gradient_names: Vec<String>,
    gradients: Vec<BasicBlock<A>>,
}

impl<A: Array> Block<A> {
    /// The values of the block.
    pub closed spec fn spec_values(&self) -> &BasicBlock<A> {
        &self.values
    }

    /// Names of the gradient parameters, in the order in which they were added.
    pub closed spec fn gradient_names(&self) -> Seq<Seq<char>> {
        strings_view(self.gradient_names@)
    }

    /// The gradients, in the order in which they were added.
    pub closed spec fn gradients(&self) -> Seq<BasicBlock<A>> {
        self.gradients@
    }

    /// The values are well formed, the gradient names are valid and distinct,
    /// and each gradient agrees with the values.
    pub open spec fn wf(&self) -> bool {
        &&& self.values().wf()
        &&& self.gradients().len() == self.gradient_names().len()
        &&& self.gradient_names().no_duplicates()
        &&& forall|i: int|
            0 <= i < self.gradient_names().len() ==> valid_gradient_name(#[trigger] self.gradient_names()[i])
        &&& forall|i: int|
            0 <= i < self.gradients().len() ==> gradient_agrees(self.values(), &#[trigger] self.gradients()[i])
    }

    /// Whether a gradient with these samples and this array can be added under `name`.
    pub open spec fn accepts_gradient(&self, name: Seq<char>, samples: LabelsView, gradient: &A) -> bool {
        &&& self.accepts_gradient_labels(name, samples)
        &&& gradient.origin_tag() == self.values().data().origin_tag()
        &&& gradient.dims().0 == samples.count()
        &&& gradient.dims().1 == self.values().components()@.count()
        &&& gradient.dims().2 == self.values().properties()@.count()
    }

    /// The part of `accepts_gradient` that does not depend on the array.
    pub open spec fn accepts_gradient_labels(&self, name: Seq<char>, samples: LabelsView) -> bool {
        &&& !self.gradient_names().contains(name)
        &&& valid_gradient_name(name)
        &&& valid_gradient_samples(samples, self.values().samples()@.count())
    }

    /// The message that refuses a gradient, if it is refused: it tells the
    /// first of the things that are wrong with it.
    pub open spec fn gradient_error(&self, name: Seq<char>, samples: LabelsView, gradient: &A) -> Option<Seq<char>> {
        if self.gradient_names().contains(name) {
            Some("gradient with respect to '"@ + name + "' already exists for this block"@)
        } else if name.len() == 0 {
            Some("can not store gradient with an empty name"@)
        } else if name == "values"@ {
            Some("can not store gradient with respect to 'values'"@)
        } else if !valid_gradient_samples(samples, self.values().samples()@.count()) {
            Some(
                "the gradients samples labels must start with a 'sample' variable holding positions in the values samples"@,
            )
        } else if gradient.origin_tag() != self.values().data().origin_tag() {
            Some(
                "the gradient array has a different origin ('"@ + decimal(gradient.origin_tag() as nat)
                    + "') than the value array ('"@ + decimal(self.values().data().origin_tag() as nat) + "')"@,
            )
        } else {
            shape_error(
                "gradient data and labels don't match"@,
                gradient.dims(),
                samples.count(),
                self.values().components()@.count(),
                self.values().properties()@.count(),
            )
        }
    }

    /// A block with the given values and no gradients.
    pub fn new(data: A, samples: Labels, components: Arc<Labels>, properties: Arc<Labels>) -> (r: Result<
        Block<A>,
        Error,
    >)
        requires
            samples.wf(),
            components.wf(),
            properties.wf(),
        ensures
            match r {
                Ok(block) => {
                    &&& block.wf()
                    &&& *block.values().data() == data
                    &&& *block.values().samples() == samples
                    &&& *block.values().components() == components
                    &&& *block.values().properties() == properties
                    &&& block.gradient_names().len() == 0
                },
                Err(Error::InvalidParameter(m)) => shape_error(
                    "data and labels don't match"@,
                    data.dims(),
                    samples@.count(),
                    components@.count(),
                    properties@.count(),
                ) == Some(m@),
                Err(Error::ArrayBackend(_)) => true,
                Err(Error::Unimplemented(_)) => false,
            },
    {
        match BasicBlock::new(data, samples, components, properties) {
            Ok(values) => Ok(Block { values, gradient_names: Vec::new(), gradients: Vec::new() }),
            Err(e) => Err(e),
        }
    }

    /// The values of the block.
    #[verifier::when_used_as_spec(spec_values)]
    pub fn values(&self) -> (r: &BasicBlock<A>)
        ensures
            r == self.spec_values(),
    {
        &self.values
    }

    /// The values of the block, to be changed in place. Whoever changes them
    /// keeps them in agreement with the gradients.
    pub fn values_mut(&mut self) -> (values: &mut BasicBlock<A>)
        ensures
            *values == *old(self).values(),
            *final(self).values() == *final(values),
            final(self).gradient_names() == old(self).gradient_names(),
            final(self).gradients() == old(self).gradients(),
    {
        &mut self.values
    }

    /// Whether the block has a gradient with respect to `name`.
    pub fn has_gradient(&self, name: &str) -> (r: bool)
        ensures
            r == self.gradient_names().contains(name@),
    {
        find_name(&self.gradient_names, name).is_some()
    }

    /// The names of the gradient parameters, in the order in which they were added.
    pub fn gradients_list(&self) -> (names: Vec<&str>)
        ensures
            strs_view(names@) == self.gradient_names(),
    {
        let mut names: Vec<&str> = Vec::new();
        let mut i: usize = 0;
        while i < self.gradient_names.len()
            invariant
                i <= self.gradient_names.len(),
                names.len() == i,
                forall|j: int| 0 <= j < i ==> names[j]@ == self.gradient_names[j]@,
            decreases self.gradient_names.len() - i,
        {
            names.push(self.gradient_names[i].as_str());
            i += 1;
        }
        assert(strs_view(names@) =~= self.gradient_names());
        names
    }

    /// The names of the gradient parameters as strings for C: the bytes of
    /// each name followed by a zero byte, in the order in which they were added.
    pub fn gradients_list_c(&self) -> (names: Vec<Vec<u8>>)
        ensures
            names.len() == self.gradient_names().len(),
            forall|i: int|
                0 <= i < names.len() ==> (#[trigger] names[i])@ == vstd::utf8::encode_utf8(self.gradient_names()[i])
                    + seq![0u8],
    {
        let mut names: Vec<Vec<u8>> = Vec::new();
        let mut i: usize = 0;
        while i < self.gradient_names.len()
            invariant
                i <= self.gradient_names.len(),
                names.len() == i,
                forall|j: int|
                    0 <= j < i ==> (#[trigger] names[j])@ == vstd::utf8::encode_utf8(self.gradient_names[j]@)
                        + seq![0u8],
            decreases self.gradient_names.len() - i,
        {
            let bytes = self.gradient_names[i].as_str().as_bytes();
            let mut name: Vec<u8> = Vec::new();
            let mut k: usize = 0;
            while k < bytes.len()
                invariant
                    k <= bytes.len(),
                    name@ == bytes@.take(k as int),
                decreases bytes.len() - k,
            {
                name.push(bytes[k]);
                assert(bytes@.take(k + 1) =~= bytes@.take(k as int).push(bytes[k as int]));
                k += 1;
            }
            assert(bytes@.take(bytes.len() as int) =~= bytes@);
            name.push(0);
            names.push(name);
            i += 1;
        }
        names
    }

    /// The gradient with respect to `name`, if the block has one.
    pub fn get_gradient(&self, name: &str) -> (r: Option<&BasicBlock<A>>)
        requires
            self.wf(),
        ensures
            match r {
                Some(gradient) => self.gradient_names().contains(name@) && *gradient == gradient_of(self, name@),
                None => !self.gradient_names().contains(name@),
            },
    {
        match find_name(&self.gradient_names, name) {
            Some(i) => {
                proof {
                    let names = self.gradient_names();
                    assert(names[i as int] == name@);
                    let k = names.index_of(name@);
                    assert(names[k] == name@);
                }
                Some(&self.gradients[i])
            },
            None => None,
        }
    }

    /// Adds the gradient of the values with respect to `name`. It shares the
    /// components and properties of the values. A gradient that does not agree
    /// with the values is refused and leaves the block as it was.
    pub fn add_gradient(&mut self, name: &str, samples: Labels, gradient: A) -> (r: Result<(), Error>)
        requires
            old(self).wf(),
            samples.wf(),
        ensures
            final(self).wf(),
            final(self).values() == old(self).values(),
            !old(self).accepts_gradient_labels(name@, samples@) ==> r matches Err(Error::InvalidParameter(_)),
            match r {
                Ok(()) => {
                    &&& old(self).accepts_gradient(name@, samples@, &gradient)
                    &&& final(self).gradient_names() == old(self).gradient_names().push(name@)
                    &&& final(self).gradients() == old(self).gradients().push(final(self).gradients().last())
                    &&& *final(self).gradients().last().data() == gradient
                    &&& *final(self).gradients().last().samples() == samples
                    &&& final(self).gradients().last().components() == old(self).values().components()
                    &&& final(self).gradients().last().properties() == old(self).values().properties()
                },
                Err(e) => {
                    &&& final(self).gradient_names() == old(self).gradient_names()
                    &&& final(self).gradients() == old(self).gradients()
                    &&& e matches Error::InvalidParameter(m) ==> !old(self).accepts_gradient(name@, samples@, &gradient)
                        && old(self).gradient_error(name@, samples@, &gradient) == Some(m@)
                    &&& !(e is Unimplemented)
                },
            },
    {
        if find_name(&self.gradient_names, name).is_some() {
            let mut message = String::from_str("gradient with respect to '");
            message.append(name);
            message.append("' already exists for this block");
            return Err(Error::InvalidParameter(message));
        }
        if name.is_empty() {
            return Err(Error::InvalidParameter(String::from_str("can not store gradient with an empty name")));
        }
        if same_text(name, "values") {
            return Err(
                Error::InvalidParameter(String::from_str("can not store gradient with respect to 'values'")),
            );
        }
        if !check_gradient_samples(&samples, self.values.samples.count()) {
            return Err(
                Error::InvalidParameter(
                    String::from_str(
                        "the gradients samples labels must start with a 'sample' variable holding positions in the values samples",
                    ),
                ),
            );
        }
        let gradient_origin = match gradient.origin() {
            Ok(origin) => origin,
            Err(e) => {
                return Err(Error::ArrayBackend(e));
            },
        };
        let values_origin = match self.values.data.origin() {
            Ok(origin) => origin,
            Err(e) => {
                return Err(Error::ArrayBackend(e));
            },
        };
        if gradient_origin != values_origin {
            let mut message = String::from_str("the gradient array has a different origin ('");
            push_decimal(&mut message, gradient_origin);
            message.append("') than the value array ('");
            push_decimal(&mut message, values_origin);
            message.append("')");
            return Err(Error::InvalidParameter(message));
        }
        let shape = match gradient.shape() {
            Ok(shape) => shape,
            Err(e) => {
                return Err(Error::ArrayBackend(e));
            },
        };
        let components = share(&self.values.components);
        let properties = share(&self.values.properties);
        match check_data_label_shape(
            "gradient data and labels don't match",
            shape,
            &samples,
            &components,
            &properties,
        ) {
            Ok(()) => {},
            Err(e) => {
                return Err(e);
            },
        }
        let ghost old_names = self.gradient_names();
        let ghost old_gradients = self.gradients();
        self.gradient_names.push(String::from_str(name));
        self.gradients.push(BasicBlock { data: gradient, samples, components, properties });
        proof {
            assert(self.gradient_names() =~= old_names.push(name@));
            crate::labels::lemma_push_new_keeps_distinct(old_names, name@);
            assert(self.gradients() =~= old_gradients.push(self.gradients().last()));
        }
        Ok(())
    }
}

} // verus!
