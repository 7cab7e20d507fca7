use std::ops::Range;
use std::sync::Arc;

use metatensor_core::{Array, BackendError, Block, Descriptor, Error, Labels, LabelsBuilder};

/// An array that knows its shape only and fails where it is told to.
#[derive(Debug)]
struct Stub {
    shape: (usize, usize, usize),
    origin: u64,
    fail_origin: bool,
    fail_create: bool,
    fail_copy: bool,
    fail_reshape: bool,
}

fn failure(message: &str) -> BackendError {
    BackendError { code: 77, message: message.to_owned() }
}

impl Array for Stub {
    type Scalar = ();

    fn origin_tag(&self) -> u64 {
        self.origin
    }

    fn dims(&self) -> (usize, usize, usize) {
        self.shape
    }

    fn at(&self, _: usize, _: usize, _: usize) {}

    fn zero(&self) {}

    fn origin(&self) -> Result<u64, BackendError> {
        if self.fail_origin {
            return Err(failure("no origin"));
        }
        Ok(self.origin)
    }

    fn shape(&self) -> Result<(usize, usize, usize), BackendError> {
        Ok(self.shape)
    }

    fn reshape(&mut self, shape: (usize, usize, usize)) -> Result<(), BackendError> {
        if self.fail_reshape {
            return Err(failure("no reshape"));
        }
        self.shape = shape;
        Ok(())
    }

    fn create(&self, shape: (usize, usize, usize)) -> Result<Self, BackendError> {
        if self.fail_create {
            return Err(failure("no memory"));
        }
        Ok(Stub { shape, ..*self })
    }

    fn set_from(&mut self, _: usize, _: Range<usize>, _: &Self, _: usize) -> Result<(), BackendError> {
        if self.fail_copy {
            return Err(failure("no copy"));
        }
        Ok(())
    }
}

fn stub(shape: (usize, usize, usize)) -> Stub {
    Stub { shape, origin: 3, fail_origin: false, fail_create: false, fail_copy: false, fail_reshape: false }
}

fn labels(names: Vec<&str>, rows: Vec<Vec<i32>>) -> Labels {
    let mut builder = LabelsBuilder::new(names).unwrap();
    for row in rows {
        builder.add(row).unwrap();
    }
    builder.finish()
}

fn two_blocks(first: Stub, second: Stub) -> Descriptor<Stub> {
    let components = Arc::new(labels(vec!["c"], vec![vec![0]]));
    let properties = Arc::new(labels(vec!["p"], vec![vec![0]]));
    let block_1 = Block::new(
        first,
        labels(vec!["s"], vec![vec![0], vec![1]]),
        Arc::clone(&components),
        Arc::clone(&properties),
    )
    .unwrap();
    let block_2 = Block::new(second, labels(vec!["s"], vec![vec![1], vec![2]]), components, properties).unwrap();
    Descriptor::new(labels(vec!["a"], vec![vec![0], vec![1]]), vec![block_1, block_2]).unwrap()
}

#[test]
fn backend_errors_are_passed_on() {
    let mut descriptor = two_blocks(Stub { fail_create: true, ..stub((2, 1, 1)) }, stub((2, 1, 1)));
    let error = descriptor.sparse_to_properties(vec!["a"]).unwrap_err();
    match &error {
        Error::ArrayBackend(e) => {
            assert_eq!(e.code, 77);
            assert_eq!(e.message, "no memory");
        }
        _ => panic!("expected the error of the backend"),
    }
    assert_eq!(error.to_string(), "array backend error: no memory (code 77)");
    assert_eq!(descriptor.sparse().names(), ["a"]);
    assert_eq!(descriptor.blocks().len(), 2);

    let error = descriptor.sparse_to_samples(vec!["a"]).unwrap_err();
    assert!(matches!(error, Error::ArrayBackend(_)));
    let error = descriptor.components_to_properties().unwrap_err();
    assert!(matches!(error, Error::ArrayBackend(_)));
    assert_eq!(descriptor.blocks().len(), 2);
}

#[test]
fn failed_copy_leaves_the_descriptor_untouched() {
    let mut descriptor = two_blocks(stub((2, 1, 1)), stub((2, 1, 1)));
    descriptor.sparse_to_properties(vec![]).unwrap();
    assert_eq!(descriptor.blocks().len(), 2);

    let mut descriptor = two_blocks(Stub { fail_copy: true, ..stub((2, 1, 1)) }, stub((2, 1, 1)));
    let error = descriptor.sparse_to_properties(vec!["a"]).unwrap_err();
    assert!(matches!(error, Error::ArrayBackend(_)));
    assert_eq!(descriptor.sparse().count(), 2);
    assert_eq!(descriptor.blocks()[0].values().properties().names(), ["p"]);

    let mut descriptor = two_blocks(Stub { fail_reshape: true, ..stub((2, 1, 1)) }, stub((2, 1, 1)));
    let error = descriptor.components_to_properties().unwrap_err();
    assert!(matches!(error, Error::ArrayBackend(_)));
    assert_eq!(descriptor.blocks()[0].values().components().names(), ["c"]);
    assert_eq!(descriptor.blocks()[1].values().components().names(), ["c"]);
}

#[test]
fn stub_arrays_merge() {
    let mut descriptor = two_blocks(stub((2, 1, 1)), stub((2, 1, 1)));
    descriptor.sparse_to_properties(vec!["a"]).unwrap();
    assert_eq!(descriptor.blocks().len(), 1);
    assert_eq!(descriptor.blocks()[0].values().data().shape().unwrap(), (3, 1, 2));
    assert_eq!(descriptor.sparse().names(), ["_"]);
}

#[test]
fn unmergeable_blocks_are_found_before_the_backend_fails() {
    let components = Arc::new(labels(vec!["c"], vec![vec![0]]));
    let other = Arc::new(labels(vec!["c"], vec![vec![1]]));
    let properties = Arc::new(labels(vec!["p"], vec![vec![0]]));
    let block = |array: Stub, components: &Arc<Labels>| {
        Block::new(array, labels(vec!["s"], vec![vec![0], vec![1]]), Arc::clone(components), Arc::clone(&properties))
            .unwrap()
    };
    // the first group would fail in the backend, the second can not be merged
    let blocks = vec![
        block(Stub { fail_create: true, ..stub((2, 1, 1)) }, &components),
        block(stub((2, 1, 1)), &components),
        block(stub((2, 1, 1)), &components),
        block(stub((2, 1, 1)), &other),
    ];
    let keys = labels(vec!["a", "b"], vec![vec![0, 0], vec![1, 0], vec![0, 1], vec![1, 1]]);
    let mut descriptor = Descriptor::new(keys, blocks).unwrap();
    let error = descriptor.sparse_to_properties(vec!["a"]).unwrap_err();
    assert!(matches!(error, Error::InvalidParameter(_)));
    let error = descriptor.sparse_to_samples(vec!["a"]).unwrap_err();
    assert!(matches!(error, Error::InvalidParameter(_)));
    let error = descriptor.sparse_to_samples(vec!["b"]).unwrap_err();
    assert!(matches!(error, Error::InvalidParameter(_)));
    assert_eq!(descriptor.blocks().len(), 4);

    // with blocks that can all be merged the failure of the backend shows
    let blocks = vec![
        block(stub((2, 1, 1)), &components),
        block(stub((2, 1, 1)), &components),
        block(Stub { fail_create: true, ..stub((2, 1, 1)) }, &components),
        block(stub((2, 1, 1)), &components),
    ];
    let keys = labels(vec!["a", "b"], vec![vec![0, 0], vec![1, 0], vec![0, 1], vec![1, 1]]);
    let mut descriptor = Descriptor::new(keys, blocks).unwrap();
    let error = descriptor.sparse_to_properties(vec!["a"]).unwrap_err();
    assert!(matches!(error, Error::ArrayBackend(_)));
    let error = descriptor.sparse_to_samples(vec!["a"]).unwrap_err();
    assert!(matches!(error, Error::ArrayBackend(_)));
    assert_eq!(descriptor.blocks().len(), 4);
    assert_eq!(descriptor.sparse().names(), ["a", "b"]);

    // the array that fails is not asked when another block comes first
    descriptor.sparse_to_samples(vec!["b"]).unwrap();
    assert_eq!(descriptor.blocks().len(), 2);
    assert_eq!(descriptor.sparse().names(), ["a"]);
}

#[test]
fn origins_are_asked_only_to_be_compared() {
    let components = Arc::new(labels(vec!["c"], vec![vec![0]]));
    let properties = Arc::new(labels(vec!["p"], vec![vec![0]]));
    let block = |array: Stub| {
        Block::new(array, labels(vec!["s"], vec![vec![0], vec![1]]), Arc::clone(&components), Arc::clone(&properties))
            .unwrap()
    };
    let silent = || Stub { fail_origin: true, ..stub((2, 1, 1)) };

    // no block and one block: no array is asked for its origin
    let empty: Descriptor<Stub> = Descriptor::new(labels(vec!["a"], vec![]), vec![]).unwrap();
    assert_eq!(empty.blocks().len(), 0);
    let single = Descriptor::new(labels(vec!["a"], vec![vec![7]]), vec![block(silent())]).unwrap();
    assert_eq!(single.blocks().len(), 1);
    assert_eq!(single.sparse().row(0), [7]);

    // two blocks: both arrays are asked
    let keys = || labels(vec!["a"], vec![vec![0], vec![1]]);
    let error = Descriptor::new(keys(), vec![block(stub((2, 1, 1))), block(silent())]).unwrap_err();
    match error {
        Error::ArrayBackend(e) => assert_eq!(e.message, "no origin"),
        _ => panic!("expected the error of the backend"),
    }
    let error = Descriptor::new(keys(), vec![block(silent()), block(stub((2, 1, 1)))]).unwrap_err();
    assert!(matches!(error, Error::ArrayBackend(_)));

    // blocks that do not fit the keys are refused before any array is asked
    let error = Descriptor::new(labels(vec!["a"], vec![vec![0]]), vec![block(silent()), block(silent())])
        .unwrap_err();
    assert!(matches!(error, Error::InvalidParameter(_)));

    // with the origins at hand no array is asked at all
    let descriptor =
        Descriptor::with_origins(keys(), vec![block(silent()), block(silent())], &vec![3, 3]).unwrap();
    assert_eq!(descriptor.blocks().len(), 2);
    let error =
        Descriptor::with_origins(keys(), vec![block(silent()), block(silent())], &vec![3, 4]).unwrap_err();
    assert_eq!(
        error.to_string(),
        "invalid parameter: all blocks must hold arrays of the same origin, got '4' and '3'"
    );
    let error = Descriptor::with_origins(keys(), vec![block(silent())], &vec![3]).unwrap_err();
    assert_eq!(
        error.to_string(),
        "invalid parameter: expected the same number of blocks (2) as the number of entries in the labels when creating a descriptor, got 1"
    );
}
