//! The arrays that blocks hold, as a trait that a backend implements, and a
//! backend that keeps its cells in memory.

use crate::error::BackendError;
use std::ops::Range;
use vstd::prelude::*;

verus! {

/// Whether `(sample, component, property)` is a cell of an array of shape `dims`.
pub open spec fn in_bounds(dims: (usize, usize, usize), sample: int, component: int, property: int) -> bool {
    &&& 0 <= sample < dims.0
    &&& 0 <= component < dims.1
    &&& 0 <= property < dims.2
}

/// Row-major position of a cell in an array of shape `dims`.
pub open spec fn flat_index(dims: (usize, usize, usize), sample: int, component: int, property: int) -> int {
    (sample * dims.1 + component) * dims.2 + property
}

/// Number of cells of an array of shape `dims`.
pub open spec fn cell_count(dims: (usize, usize, usize)) -> int {
    dims.0 * dims.1 * dims.2
}

/// A dense three-dimensional array of scalars, as the containers see it: what
/// it is, as four functions for contracts to speak of, and what it does, as
/// five operations that may fail with an error of the backend.
pub trait Array: Sized {
    /// What a cell holds.
    type Scalar;

    /// The tag of the backend that holds the array.
    spec fn origin_tag(&self) -> u64;

    /// The numbers of samples, of components and of properties.
    spec fn dims(&self) -> (usize, usize, usize);

    /// The scalar in the cell `(sample, component, property)`.
    spec fn at(&self, sample: usize, component: usize, property: usize) -> Self::Scalar;

    /// The scalar that fills the arrays made by `create`.
    spec fn zero(&self) -> Self::Scalar;

    /// The tag of the backend that holds the array.
    fn origin(&self) -> (r: Result<u64, BackendError>)
        ensures
            r matches Ok(tag) ==> tag == self.origin_tag(),
    ;

    /// The numbers of samples, of components and of properties.
    fn shape(&self) -> (r: Result<(usize, usize, usize), BackendError>)
        ensures
            r matches Ok(dims) ==> dims == self.dims(),
    ;

    /// Gives the array another shape with the same number of cells, which
    /// stay in row-major order. An array that is not reshaped stays as it is.
    fn reshape(&mut self, shape: (usize, usize, usize)) -> (r: Result<(), BackendError>)
        ensures
            final(self).origin_tag() == old(self).origin_tag(),
            final(self).zero() == old(self).zero(),
            r is Ok ==> final(self).dims() == shape && cell_count(shape) == cell_count(old(self).dims()),
            r is Err ==> final(self).dims() == old(self).dims(),
            forall|i: usize, j: usize, k: usize, i2: usize, j2: usize, k2: usize|
                in_bounds(old(self).dims(), i as int, j as int, k as int) && in_bounds(
                    final(self).dims(),
                    i2 as int,
                    j2 as int,
                    k2 as int,
                ) && flat_index(old(self).dims(), i as int, j as int, k as int) == flat_index(
                    final(self).dims(),
                    i2 as int,
                    j2 as int,
                    k2 as int,
                ) ==> #[trigger] final(self).at(i2, j2, k2) == #[trigger] old(self).at(i, j, k),
    ;

    /// A new array of the given shape, of the same origin, filled with zeros.
    fn create(&self, shape: (usize, usize, usize)) -> (r: Result<Self, BackendError>)
        ensures
            r matches Ok(array) ==> {
                &&& array.origin_tag() == self.origin_tag()
                &&& array.zero() == self.zero()
                &&& array.dims() == shape
                &&& forall|i: usize, j: usize, k: usize|
                    in_bounds(shape, i as int, j as int, k as int) ==> #[trigger] array.at(i, j, k) == self.zero()
            },
    ;

    /// Copies all the components and properties of the sample
    /// `source_sample` of `source` to the sample `sample` of this array,
    /// into the properties in the range `properties`, which is as long as
    /// `source` has properties. Both arrays have the same number of components.
    fn set_from(&mut self, sample: usize, properties: Range<usize>, source: &Self, source_sample: usize) -> (r:
        Result<(), BackendError>)
        requires
            sample < old(self).dims().0,
            properties.start <= properties.end <= old(self).dims().2,
            properties.end - properties.start == source.dims().2,
            source.dims().1 == old(self).dims().1,
            source_sample < source.dims().0,
        ensures
            final(self).origin_tag() == old(self).origin_tag(),
            final(self).zero() == old(self).zero(),
            final(self).dims() == old(self).dims(),
            r is Ok ==> forall|i: usize, j: usize, k: usize|
                in_bounds(old(self).dims(), i as int, j as int, k as int) ==> #[trigger] final(self).at(i, j, k) == (
                if i == sample && properties.start <= k < properties.end {
                    source.at(source_sample, j, (k - properties.start) as usize)
                } else {
                    old(self).at(i, j, k)
                }),
    ;
}

/// The model of an array in contracts: the scalar in each cell.
pub trait ArrayCells: Array {
    /// The scalar in the cell `(sample, component, property)`.
    spec fn cell(&self, sample: int, component: int, property: int) -> Self::Scalar;
}

impl<A: Array> ArrayCells for A {
    open spec fn cell(&self, sample: int, component: int, property: int) -> A::Scalar {
        self.at(sample as usize, component as usize, property as usize)
    }
}

/// A cell of an array of shape `dims` lies inside the row-major storage.
pub proof fn lemma_flat_index_bounds(dims: (usize, usize, usize), sample: int, component: int, property: int)
    requires
        in_bounds(dims, sample, component, property),
    ensures
        0 <= flat_index(dims, sample, component, property) < cell_count(dims),
{
    let n1 = dims.1 as int;
    let n2 = dims.2 as int;
    let row = sample * n1 + component;
    assert(0 <= row && row + 1 <= dims.0 * n1) by (nonlinear_arith)
        requires
            0 <= sample < dims.0,
            0 <= component < n1,
            row == sample * n1 + component,
    ;
    assert(0 <= row * n2 + property && row * n2 + property < dims.0 * n1 * n2) by (nonlinear_arith)
        requires
            0 <= row,
            row + 1 <= dims.0 * n1,
            0 <= property < n2,
    ;
}

/// A number is the sum of a multiple of `n` and a rest below `n` in one way only.
proof fn lemma_quotient_unique(x: int, y: int, x2: int, y2: int, n: int)
    requires
        0 <= y < n,
        0 <= y2 < n,
        x * n + y == x2 * n + y2,
    ensures
        x == x2,
        y == y2,
{
    if x < x2 {
        assert((x + 1) * n <= x2 * n) by (nonlinear_arith)
            requires
                x + 1 <= x2,
                0 < n,
        ;
        assert((x + 1) * n == x * n + n) by (nonlinear_arith);
    } else if x2 < x {
        assert((x2 + 1) * n <= x * n) by (nonlinear_arith)
            requires
                x2 + 1 <= x,
                0 < n,
        ;
        assert((x2 + 1) * n == x2 * n + n) by (nonlinear_arith);
    }
}

/// Two cells of one shape with the same row-major position are the same cell.
pub proof fn lemma_flat_index_injective(
    dims: (usize, usize, usize),
    i: int,
    j: int,
    k: int,
    i2: int,
    j2: int,
    k2: int,
)
    requires
        in_bounds(dims, i, j, k),
        in_bounds(dims, i2, j2, k2),
        flat_index(dims, i, j, k) == flat_index(dims, i2, j2, k2),
    ensures
        i == i2,
        j == j2,
        k == k2,
{
    lemma_quotient_unique(i * dims.1 + j, k, i2 * dims.1 + j2, k2, dims.2 as int);
    lemma_quotient_unique(i, j, i2, j2, dims.1 as int);
}

/// An array held in memory, row-major, together with the scalar that fills
/// the arrays made from it.
#[derive(Debug)]
pub struct DenseArray<T> {
    dims: (usize, usize, usize),
    cells: Vec<T>,
    zero: T,
}

/// Origin tag shared by every `DenseArray`.
pub const DENSE_ARRAY_ORIGIN: u64 = 1;

impl<T> DenseArray<T> {
    /// There is one scalar for each cell.
    #[verifier::type_invariant]
    spec fn inv(self) -> bool {
        self.cells.len() == cell_count(self.dims)
    }
}

/// The number of cells of an array of shape `dims`, if it fits in `usize`.
fn checked_cell_count(dims: (usize, usize, usize)) -> (r: Option<usize>)
    ensures
        match r {
            Some(n) => n == cell_count(dims),
            None => cell_count(dims) > usize::MAX,
        },
{
    if dims.0 == 0 || dims.1 == 0 || dims.2 == 0 {
        assert(cell_count(dims) == 0) by (nonlinear_arith)
            requires
                dims.0 == 0 || dims.1 == 0 || dims.2 == 0,
        ;
        return Some(0);
    }
    match dims.0.checked_mul(dims.1) {
        None => {
            assert(dims.0 * dims.1 * dims.2 >= dims.0 * dims.1) by (nonlinear_arith)
                requires
                    dims.0 * dims.1 > 0,
                    dims.2 >= 1,
            ;
            None
        },
        Some(rows) => rows.checked_mul(dims.2),
    }
}

/// `count` copies of `value`.
fn filled_cells<T: Copy>(count: usize, value: T) -> (cells: Vec<T>)
    ensures
        cells.len() == count,
        forall|i: int| 0 <= i < count ==> cells[i] == value,
{
    let mut cells: Vec<T> = Vec::new();
    while cells.len() < count
        invariant
            cells.len() <= count,
            forall|i: int| 0 <= i < cells.len() ==> cells[i] == value,
        decreases count - cells.len(),
    {
        cells.push(value);
    }
    cells
}

impl<T: Copy> DenseArray<T> {
    /// An array of the given shape with `value` in every cell, or `None` when
    /// the number of cells does not fit in `usize`. Arrays made from it by
    /// `create` are filled with `zero`.
    pub fn filled(shape: (usize, usize, usize), value: T, zero: T) -> (r: Option<DenseArray<T>>)
        ensures
            r is Some <==> cell_count(shape) <= usize::MAX,
            r matches Some(array) ==> {
                &&& array.dims() == shape
                &&& array.zero() == zero
                &&& array.origin_tag() == DENSE_ARRAY_ORIGIN
                &&& forall|i: usize, j: usize, k: usize|
                    in_bounds(shape, i as int, j as int, k as int) ==> #[trigger] array.at(i, j, k) == value
            },
    {
        match checked_cell_count(shape) {
            None => None,
            Some(count) => {
                let cells = filled_cells(count, value);
                let array = DenseArray { dims: shape, cells, zero };
                assert forall|i: usize, j: usize, k: usize|
                    in_bounds(shape, i as int, j as int, k as int) implies #[trigger] array.at(i, j, k) == value by {
                    lemma_flat_index_bounds(shape, i as int, j as int, k as int);
                }
                Some(array)
            },
        }
    }

    /// The scalar in one cell, or `None` outside the array.
    pub fn get(&self, sample: usize, component: usize, property: usize) -> (r: Option<T>)
        ensures
            match r {
                Some(value) => in_bounds(self.dims(), sample as int, component as int, property as int)
                    && value == self.at(sample, component, property),
                None => !in_bounds(self.dims(), sample as int, component as int, property as int),
            },
    {
        proof {
            use_type_invariant(self);
        }
        if sample < self.dims.0 && component < self.dims.1 && property < self.dims.2 {
            proof {
                lemma_flat_index_bounds(self.dims, sample as int, component as int, property as int);
                lemma_flat_index_steps(self.dims, sample as int, component as int, property as int);
            }
            let index = (sample * self.dims.1 + component) * self.dims.2 + property;
            Some(self.cells[index])
        } else {
            None
        }
    }

    /// Stores `value` in one cell; `false`, and nothing stored, outside the array.
    pub fn set(&mut self, sample: usize, component: usize, property: usize, value: T) -> (stored: bool)
        ensures
            stored == in_bounds(old(self).dims(), sample as int, component as int, property as int),
            final(self).dims() == old(self).dims(),
            final(self).zero() == old(self).zero(),
            forall|i: usize, j: usize, k: usize|
                in_bounds(old(self).dims(), i as int, j as int, k as int) ==> #[trigger] final(self).at(i, j, k) == (
                if i == sample && j == component && k == property {
                    value
                } else {
                    old(self).at(i, j, k)
                }),
    {
        proof {
            use_type_invariant(&*self);
        }
        if sample < self.dims.0 && component < self.dims.1 && property < self.dims.2 {
            proof {
                lemma_flat_index_bounds(self.dims, sample as int, component as int, property as int);
                lemma_flat_index_steps(self.dims, sample as int, component as int, property as int);
            }
            let index = (sample * self.dims.1 + component) * self.dims.2 + property;
            let ghost before = *self;
            self.cells[index] = value;
            assert forall|i: usize, j: usize, k: usize|
                in_bounds(before.dims(), i as int, j as int, k as int) implies #[trigger] self.at(i, j, k) == (if i
                == sample && j == component && k == property {
                value
            } else {
                before.at(i, j, k)
            }) by {
                lemma_flat_index_bounds(before.dims, i as int, j as int, k as int);
                if flat_index(before.dims, i as int, j as int, k as int) == index {
                    lemma_flat_index_injective(
                        before.dims,
                        i as int,
                        j as int,
                        k as int,
                        sample as int,
                        component as int,
                        property as int,
                    );
                }
            }
            true
        } else {
            false
        }
    }
}

/// The steps by which a row-major position is computed stay below the number
/// of cells, so machine arithmetic computes it exactly.
proof fn lemma_flat_index_steps(dims: (usize, usize, usize), sample: int, component: int, property: int)
    requires
        in_bounds(dims, sample, component, property),
    ensures
        0 <= sample * dims.1 <= sample * dims.1 + component < cell_count(dims),
        (sample * dims.1 + component) * dims.2 < cell_count(dims),
{
    lemma_flat_index_bounds(dims, sample, component, 0);
    lemma_flat_index_bounds(dims, sample, component, property);
    let n1 = dims.1 as int;
    let n2 = dims.2 as int;
    let row = sample * n1 + component;
    assert(0 <= sample * n1) by (nonlinear_arith)
        requires
            0 <= sample,
            0 <= n1,
    ;
    assert(row <= row * n2) by (nonlinear_arith)
        requires
            0 <= row,
            1 <= n2,
    ;
}

impl<T: Copy> Array for DenseArray<T> {
    type Scalar = T;

    closed spec fn origin_tag(&self) -> u64 {
        DENSE_ARRAY_ORIGIN
    }

    closed spec fn dims(&self) -> (usize, usize, usize) {
        self.dims
    }

    closed spec fn at(&self, sample: usize, component: usize, property: usize) -> T {
        self.cells[flat_index(self.dims, sample as int, component as int, property as int)]
    }

    closed spec fn zero(&self) -> T {
        self.zero
    }

    fn origin(&self) -> (r: Result<u64, BackendError>)
        ensures
            r is Ok,
    {
        Ok(DENSE_ARRAY_ORIGIN)
    }

    fn shape(&self) -> (r: Result<(usize, usize, usize), BackendError>)
        ensures
            r is Ok,
    {
        Ok(self.dims)
    }

    fn reshape(&mut self, shape: (usize, usize, usize)) -> (r: Result<(), BackendError>)
        ensures
            r is Ok <==> cell_count(shape) == cell_count(old(self).dims()),
    {
        proof {
            use_type_invariant(&*self);
        }
        match checked_cell_count(shape) {
            Some(count) => {
                if count == self.cells.len() {
                    self.dims = shape;
                    Ok(())
                } else {
                    Err(shape_error())
                }
            },
            None => Err(shape_error()),
        }
    }

    fn create(&self, shape: (usize, usize, usize)) -> (r: Result<Self, BackendError>)
        ensures
            r is Ok <==> cell_count(shape) <= usize::MAX,
    {
        match DenseArray::filled(shape, self.zero, self.zero) {
            Some(array) => Ok(array),
            None => Err(shape_error()),
        }
    }

    fn set_from(&mut self, sample: usize, properties: Range<usize>, source: &Self, source_sample: usize) -> (r:
        Result<(), BackendError>)
        ensures
            r is Ok,
    {
        proof {
            use_type_invariant(&*self);
            use_type_invariant(source);
        }
        let ghost before = *self;
        let components = self.dims.1;
        let width = properties.end - properties.start;
        let mut j: usize = 0;
        while j < components
            invariant
                j <= components,
                components == before.dims.1,
                components == source.dims.1,
                width == source.dims.2,
                width == properties.end - properties.start,
                properties.end <= before.dims.2,
                sample < before.dims.0,
                source_sample < source.dims.0,
                self.dims == before.dims,
                self.zero == before.zero,
                self.cells.len() == before.cells.len(),
                before.cells.len() == cell_count(before.dims),
                source.cells.len() == cell_count(source.dims),
                forall|a: int, b: int, c: int|
                    in_bounds(before.dims, a, b, c) ==> #[trigger] self.cells[flat_index(before.dims, a, b, c)]
                        == (if a == sample && b < j && properties.start <= c < properties.end {
                        source.cells[flat_index(source.dims, source_sample as int, b, c - properties.start)]
                    } else {
                        before.cells[flat_index(before.dims, a, b, c)]
                    }),
            decreases components - j,
        {
            let mut k: usize = 0;
            while k < width
                invariant
                    j < components,
                    k <= width,
                    components == before.dims.1,
                    components == source.dims.1,
                    width == source.dims.2,
                    width == properties.end - properties.start,
                    properties.end <= before.dims.2,
                    sample < before.dims.0,
                    source_sample < source.dims.0,
                    self.dims == before.dims,
                    self.zero == before.zero,
                    self.cells.len() == before.cells.len(),
                    before.cells.len() == cell_count(before.dims),
                    source.cells.len() == cell_count(source.dims),
                    forall|a: int, b: int, c: int|
                        in_bounds(before.dims, a, b, c) ==> #[trigger] self.cells[flat_index(before.dims, a, b, c)]
                            == (if a == sample && properties.start <= c < properties.end && (b < j || (b == j
                            && c - properties.start < k)) {
                            source.cells[flat_index(source.dims, source_sample as int, b, c - properties.start)]
                        } else {
                            before.cells[flat_index(before.dims, a, b, c)]
                        }),
                decreases width - k,
            {
                proof {
                    lemma_flat_index_bounds(source.dims, source_sample as int, j as int, k as int);
                    lemma_flat_index_steps(source.dims, source_sample as int, j as int, k as int);
                    lemma_flat_index_bounds(before.dims, sample as int, j as int, properties.start + k);
                    lemma_flat_index_steps(before.dims, sample as int, j as int, properties.start + k);
                }
                let from = (source_sample * source.dims.1 + j) * source.dims.2 + k;
                let to = (sample * self.dims.1 + j) * self.dims.2 + (properties.start + k);
                let value = source.cells[from];
                let ghost previous = self.cells@;
                self.cells[to] = value;
                assert forall|a: int, b: int, c: int| in_bounds(before.dims, a, b, c) implies #[trigger] self.cells[flat_index(
                    before.dims,
                    a,
                    b,
                    c,
                )] == (if a == sample && properties.start <= c < properties.end && (b < j || (b == j && c
                    - properties.start < k + 1)) {
                    source.cells[flat_index(source.dims, source_sample as int, b, c - properties.start)]
                } else {
                    before.cells[flat_index(before.dims, a, b, c)]
                }) by {
                    lemma_flat_index_bounds(before.dims, a, b, c);
                    if flat_index(before.dims, a, b, c) == to {
                        lemma_flat_index_injective(
                            before.dims,
                            a,
                            b,
                            c,
                            sample as int,
                            j as int,
                            properties.start + k,
                        );
                    }
                }
                k += 1;
            }
            j += 1;
        }
        Ok(())
    }
}

/// The error for a shape whose number of cells does not fit.
fn shape_error() -> (e: BackendError)
    ensures
        e.code == 1,
        e.message@ == "the shape does not fit the array"@,
{
    BackendError { code: 1, message: String::from_str("the shape does not fit the array") }
}

} // verus!
