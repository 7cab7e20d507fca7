//! Blocks of data with labelled axes, kept under sparse keys, and the moves
//! that turn a sparse set of blocks into a dense one: from the keys to the
//! samples, from the keys to the properties, and from the components to the
//! properties.
//!
//! A [`Descriptor`] holds one [`Block`] for each row of its keys. A block
//! holds an array of values and, under the names of parameters, arrays of
//! gradients, each with [`Labels`] along its three axes. The arrays belong to
//! a backend, which the containers reach through the trait [`Array`];
//! [`DenseArray`] is a backend that keeps its cells in memory.

pub mod array;
pub mod blocks;
pub mod blocks_merge;
pub mod counting;
pub mod descriptor;
pub mod error;
pub mod flatten;
pub mod groups;
pub mod labels;
pub mod laws;
pub mod merge;
pub mod reshape;
pub mod row_set;
pub mod sorted;
pub mod split;
pub mod status;
pub mod text;

pub use array::{Array, DenseArray};
pub use blocks::{BasicBlock, Block};
pub use descriptor::Descriptor;
pub use error::{BackendError, Error};
pub use labels::{LabelValue, Labels, LabelsBuilder};
