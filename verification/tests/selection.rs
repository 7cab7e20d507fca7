use std::sync::Arc;

use metatensor_core::descriptor::check_origins;
use metatensor_core::{Array, Block, DenseArray, Descriptor, Error, Labels, LabelsBuilder};

fn filled(shape: (usize, usize, usize), value: f64) -> DenseArray<f64> {
    DenseArray::filled(shape, value, 0.0).unwrap()
}

fn labels(names: Vec<&str>, rows: Vec<Vec<i32>>) -> Labels {
    let mut builder = LabelsBuilder::new(names).unwrap();
    for row in rows {
        builder.add(row).unwrap();
    }
    builder.finish()
}

fn descriptor() -> Descriptor<DenseArray<f64>> {
    let components = Arc::new(labels(vec!["c"], vec![vec![0]]));
    let properties = Arc::new(labels(vec!["p"], vec![vec![0]]));
    let blocks = (0..4)
        .map(|i| {
            Block::new(
                filled((1, 1, 1), f64::from(i)),
                labels(vec!["s"], vec![vec![i]]),
                Arc::clone(&components),
                Arc::clone(&properties),
            )
            .unwrap()
        })
        .collect();
    let keys = labels(vec!["a", "b"], vec![vec![0, 0], vec![1, 0], vec![0, -3], vec![1, -3]]);
    Descriptor::new(keys, blocks).unwrap()
}

fn first_value(block: &Block<DenseArray<f64>>) -> f64 {
    block.values().data().get(0, 0, 0).unwrap()
}

#[test]
fn blocks_are_selected_in_key_order() {
    let descriptor = descriptor();

    let matching = descriptor.find_matching_blocks(&labels(vec!["b"], vec![vec![-3]])).unwrap();
    assert_eq!(matching, [2, 3]);
    let matching = descriptor.find_matching_blocks(&labels(vec!["a"], vec![vec![1]])).unwrap();
    assert_eq!(matching, [1, 3]);
    let matching = descriptor.find_matching_blocks(&labels(vec!["b", "a"], vec![vec![0, 1]])).unwrap();
    assert_eq!(matching, [1]);
    let matching = descriptor.find_matching_blocks(&labels(vec!["a"], vec![vec![5]])).unwrap();
    assert!(matching.is_empty());
    let matching = descriptor.find_matching_blocks(&labels(vec![], vec![])).unwrap();
    assert_eq!(matching, [0, 1, 2, 3]);
    let matching = descriptor.find_matching_blocks(&labels(vec![], vec![vec![]])).unwrap();
    assert_eq!(matching, [0, 1, 2, 3]);

    let blocks = descriptor.blocks_matching(&labels(vec!["a"], vec![vec![1]])).unwrap();
    assert_eq!(blocks.len(), 2);
    assert_eq!(first_value(blocks[0]), 1.0);
    assert_eq!(first_value(blocks[1]), 3.0);

    let block = descriptor.block(&labels(vec!["a", "b"], vec![vec![0, -3]])).unwrap();
    assert_eq!(first_value(block), 2.0);
}

#[test]
fn selection_errors() {
    let descriptor = descriptor();

    let error = descriptor.blocks_matching(&labels(vec!["a", "z", "y"], vec![vec![0, 0, 0]])).unwrap_err();
    assert_eq!(
        error.to_string(),
        "invalid parameter: 'z' is not part of the sparse labels for this descriptor"
    );
    let error = descriptor.block(&labels(vec!["z"], vec![vec![0]])).unwrap_err();
    assert_eq!(
        error.to_string(),
        "invalid parameter: 'z' is not part of the sparse labels for this descriptor"
    );
    let error = descriptor.blocks_matching(&labels(vec!["a"], vec![vec![0], vec![1]])).unwrap_err();
    assert_eq!(
        error.to_string(),
        "invalid parameter: block selection labels must contain a single row, got 2"
    );
    let error = descriptor.find_matching_blocks(&labels(vec!["a"], vec![])).unwrap_err();
    assert_eq!(
        error.to_string(),
        "invalid parameter: block selection labels must contain a single row, got 0"
    );
}

#[test]
fn selection_with_too_many_matches() {
    let components = Arc::new(labels(vec!["c"], vec![vec![0]]));
    let properties = Arc::new(labels(vec!["p"], vec![vec![0]]));
    let blocks = vec![
        Block::new(
            filled((1, 1, 1), 1.0),
            labels(vec!["s"], vec![vec![0]]),
            Arc::clone(&components),
            Arc::clone(&properties),
        )
        .unwrap(),
        Block::new(filled((1, 1, 1), 2.0), labels(vec!["s"], vec![vec![0]]), components, properties).unwrap(),
    ];
    let keys = labels(vec!["a", "b"], vec![vec![0, 0], vec![0, 1]]);
    let descriptor = Descriptor::new(keys, blocks).unwrap();

    let error = descriptor.block(&labels(vec![], vec![])).unwrap_err();
    assert!(matches!(error, Error::InvalidParameter(_)));
    assert_eq!(error.to_string(), "invalid parameter: 2 blocks matched the selection (), expected only one");

    let error = descriptor.block(&labels(vec!["a"], vec![vec![0]])).unwrap_err();
    assert_eq!(
        error.to_string(),
        "invalid parameter: 2 blocks matched the selection (a = 0), expected only one"
    );
    let error = descriptor.block(&labels(vec!["b", "a"], vec![vec![-12, 0]])).unwrap_err();
    assert_eq!(
        error.to_string(),
        "invalid parameter: 0 blocks matched the selection (b = -12, a = 0), expected only one"
    );
    assert_eq!(first_value(descriptor.block(&labels(vec!["b"], vec![vec![1]])).unwrap()), 2.0);
}

#[test]
fn keys_and_blocks_side_by_side() {
    let descriptor = descriptor();
    let entries = descriptor.iter();
    assert_eq!(entries.len(), 4);
    assert_eq!(entries[0].0, [0, 0]);
    assert_eq!(entries[3].0, [1, -3]);
    assert_eq!(first_value(entries[3].1), 3.0);
    assert_eq!(first_value(entries[1].1), 1.0);
}

fn gradient() -> (Labels, DenseArray<f64>) {
    (labels(vec!["sample", "g"], vec![vec![0, 1]]), filled((1, 1, 1), 5.0))
}

#[test]
fn blocks_change_in_place() {
    let mut descriptor = descriptor();

    for block in descriptor.blocks_mut() {
        let (samples, data) = gradient();
        block.add_gradient("first", samples, data).unwrap();
    }
    assert!(descriptor.blocks().iter().all(|block| block.has_gradient("first")));

    for (key, block) in descriptor.iter_mut() {
        let (samples, data) = gradient();
        let name = if key[0] == 0 { "even" } else { "odd" };
        block.add_gradient(name, samples, data).unwrap();
    }
    assert_eq!(descriptor.blocks()[0].gradients_list(), ["first", "even"]);
    assert_eq!(descriptor.blocks()[1].gradients_list(), ["first", "odd"]);
    assert_eq!(descriptor.blocks()[2].gradients_list(), ["first", "even"]);
    assert_eq!(descriptor.blocks()[3].gradients_list(), ["first", "odd"]);

    {
        let block = descriptor.block_mut(&labels(vec!["a", "b"], vec![vec![1, 0]])).unwrap();
        let (samples, data) = gradient();
        block.add_gradient("one", samples, data).unwrap();
    }
    assert_eq!(descriptor.blocks()[1].gradients_list(), ["first", "odd", "one"]);
    assert_eq!(descriptor.blocks()[0].gradients_list(), ["first", "even"]);
    assert!(descriptor.block_mut(&labels(vec!["a"], vec![vec![1]])).is_err());
    assert!(descriptor.block_mut(&labels(vec!["z"], vec![vec![1]])).is_err());

    {
        let blocks = descriptor.blocks_matching_mut(&labels(vec!["b"], vec![vec![-3]])).unwrap();
        assert_eq!(blocks.len(), 2);
        for block in blocks {
            let (samples, data) = gradient();
            block.add_gradient("last", samples, data).unwrap();
        }
    }
    assert_eq!(descriptor.blocks()[0].gradients_list(), ["first", "even"]);
    assert_eq!(descriptor.blocks()[1].gradients_list(), ["first", "odd", "one"]);
    assert_eq!(descriptor.blocks()[2].gradients_list(), ["first", "even", "last"]);
    assert_eq!(descriptor.blocks()[3].gradients_list(), ["first", "odd", "last"]);
    assert!(descriptor.blocks_matching_mut(&labels(vec!["z"], vec![vec![1]])).is_err());
    assert!(descriptor.blocks_matching_mut(&labels(vec!["a"], vec![vec![7]])).unwrap().is_empty());
    assert_eq!(descriptor.blocks_matching_mut(&labels(vec![], vec![])).unwrap().len(), 4);
    assert_eq!(descriptor.blocks()[3].values().data().shape().unwrap(), (1, 1, 1));
}

#[test]
fn blocks_must_agree_on_gradients() {
    let components = Arc::new(labels(vec!["c"], vec![vec![0]]));
    let properties = Arc::new(labels(vec!["p"], vec![vec![0]]));
    let make = |names: Vec<(&str, Vec<&str>)>| {
        let mut block = Block::new(
            filled((1, 1, 1), 1.0),
            labels(vec!["s"], vec![vec![0]]),
            Arc::clone(&components),
            Arc::clone(&properties),
        )
        .unwrap();
        for (name, columns) in names {
            let row = vec![0; columns.len()];
            block.add_gradient(name, labels(columns, vec![row]), filled((1, 1, 1), 2.0)).unwrap();
        }
        block
    };
    let keys = || labels(vec!["a"], vec![vec![0], vec![1]]);

    let both = vec![("g", vec!["sample", "x"]), ("h", vec!["sample"])];
    let swapped = vec![("h", vec!["sample"]), ("g", vec!["sample", "x"])];
    assert!(Descriptor::new(keys(), vec![make(both.clone()), make(swapped)]).is_ok());

    let error = Descriptor::new(keys(), vec![make(both.clone()), make(vec![("g", vec!["sample", "x"])])])
        .unwrap_err();
    assert_eq!(error.to_string(), "invalid parameter: all blocks must contains the same set of gradients");

    let other = vec![("g", vec!["sample", "x"]), ("k", vec!["sample"])];
    let error = Descriptor::new(keys(), vec![make(both.clone()), make(other)]).unwrap_err();
    assert_eq!(
        error.to_string(),
        "invalid parameter: missing gradient with respect to k in one of the blocks"
    );

    let renamed = vec![("g", vec!["sample", "y"]), ("h", vec!["sample"])];
    let error = Descriptor::new(keys(), vec![make(both), make(renamed)]).unwrap_err();
    assert_eq!(
        error.to_string(),
        "invalid parameter: all blocks must have the same sample labels names, got [sample, y] and [sample, x] for gradients with respect to g"
    );
}

#[test]
fn gradients_share_the_labels_of_the_values() {
    let descriptor = {
        let mut descriptor = descriptor();
        for block in descriptor.blocks_mut() {
            let (samples, data) = gradient();
            block.add_gradient("g", samples, data).unwrap();
        }
        descriptor
    };
    let block = &descriptor.blocks()[2];
    let gradient = block.get_gradient("g").unwrap();
    assert!(Arc::ptr_eq(gradient.components(), block.values().components()));
    assert!(Arc::ptr_eq(gradient.properties(), block.values().properties()));
    assert_eq!(block.gradients_list_c(), vec![b"g\0".to_vec()]);
}

#[test]
fn blocks_by_index() {
    let descriptor = descriptor();
    assert_eq!(descriptor.blocks_len(), 4);
    assert_eq!(descriptor.keys().count(), 4);
    assert_eq!(descriptor.keys(), descriptor.sparse());
    assert_eq!(first_value(descriptor.block_by_index(2)), 2.0);
    assert_eq!(first_value(descriptor.block_by_index(0)), 0.0);
    assert_eq!(descriptor.keys().arity(), 2);
    assert_eq!(descriptor.keys().size(), 2);

    let mut descriptor = descriptor;
    assert!(descriptor.block_by_index_mut(3).values().data().get(0, 0, 0) == Some(3.0));
}

#[test]
fn arrays_of_one_origin() {
    #[derive(Debug)]
    struct Tagged(u64);
    impl Array for Tagged {
        type Scalar = ();

        fn origin_tag(&self) -> u64 {
            self.0
        }

        fn dims(&self) -> (usize, usize, usize) {
            (1, 1, 1)
        }

        fn at(&self, _: usize, _: usize, _: usize) {}

        fn zero(&self) {}

        fn origin(&self) -> Result<u64, metatensor_core::BackendError> {
            Ok(self.0)
        }

        fn shape(&self) -> Result<(usize, usize, usize), metatensor_core::BackendError> {
            Ok((1, 1, 1))
        }

        fn reshape(&mut self, _: (usize, usize, usize)) -> Result<(), metatensor_core::BackendError> {
            Ok(())
        }

        fn create(&self, _: (usize, usize, usize)) -> Result<Self, metatensor_core::BackendError> {
            Ok(Tagged(self.0))
        }

        fn set_from(
            &mut self,
            _: usize,
            _: std::ops::Range<usize>,
            _: &Self,
            _: usize,
        ) -> Result<(), metatensor_core::BackendError> {
            Ok(())
        }
    }

    let components = Arc::new(labels(vec!["c"], vec![vec![0]]));
    let properties = Arc::new(labels(vec!["p"], vec![vec![0]]));
    let make = |origin: u64| {
        Block::new(
            Tagged(origin),
            labels(vec!["s"], vec![vec![0]]),
            Arc::clone(&components),
            Arc::clone(&properties),
        )
        .unwrap()
    };
    let keys = || labels(vec!["a"], vec![vec![0], vec![1], vec![2]]);
    assert!(Descriptor::new(keys(), vec![make(4), make(4), make(4)]).is_ok());
    let error = Descriptor::new(keys(), vec![make(4), make(4), make(12)]).unwrap_err();
    assert_eq!(
        error.to_string(),
        "invalid parameter: all blocks must hold arrays of the same origin, got '12' and '4'"
    );

    let mut block = make(4);
    let error = block.add_gradient("g", labels(vec!["sample"], vec![vec![0]]), Tagged(5)).unwrap_err();
    assert_eq!(
        error.to_string(),
        "invalid parameter: the gradient array has a different origin ('5') than the value array ('4')"
    );
    block.add_gradient("g", labels(vec!["sample"], vec![vec![0]]), Tagged(4)).unwrap();
}

#[test]
fn origins_are_compared_with_the_first() {
    assert!(check_origins(&vec![]).is_ok());
    assert!(check_origins(&vec![5]).is_ok());
    assert!(check_origins(&vec![5, 5, 5]).is_ok());
    let error = check_origins(&vec![5, 5, 9, 7]).unwrap_err();
    assert_eq!(
        error.to_string(),
        "invalid parameter: all blocks must hold arrays of the same origin, got '9' and '5'"
    );
    let error = check_origins(&vec![0, u64::MAX]).unwrap_err();
    assert_eq!(
        error.to_string(),
        "invalid parameter: all blocks must hold arrays of the same origin, got '18446744073709551615' and '0'"
    );
}
