use std::sync::Arc;

use metatensor_core::{Array, Block, DenseArray, Descriptor, Error, Labels, LabelsBuilder};

fn filled(shape: (usize, usize, usize), value: f64) -> DenseArray<f64> {
    DenseArray::filled(shape, value, 0.0).unwrap()
}

fn labels(names: Vec<&str>, rows: Vec<Vec<i32>>) -> Labels {
    let mut builder = LabelsBuilder::new(names).unwrap();
    for row in rows {
        builder.add(row).unwrap();
    }
    builder.finish()
}

fn rows(labels: &Labels) -> Vec<Vec<i32>> {
    (0..labels.count()).map(|i| labels.row(i).to_vec()).collect()
}

fn cells(array: &DenseArray<f64>) -> Vec<Vec<Vec<f64>>> {
    let (samples, components, properties) = array.shape().unwrap();
    (0..samples)
        .map(|i| {
            (0..components)
                .map(|j| (0..properties).map(|k| array.get(i, j, k).unwrap()).collect())
                .collect()
        })
        .collect()
}

fn block(
    value: f64,
    samples: Vec<Vec<i32>>,
    components: &Arc<Labels>,
    properties: &Arc<Labels>,
) -> Block<DenseArray<f64>> {
    let shape = (samples.len(), components.count(), properties.count());
    Block::new(filled(shape, value), labels(vec!["s"], samples), Arc::clone(components), Arc::clone(properties))
        .unwrap()
}

fn three_keys() -> Descriptor<DenseArray<f64>> {
    let components = Arc::new(labels(vec!["c"], vec![vec![0]]));
    let properties = Arc::new(labels(vec!["p"], vec![vec![7], vec![8]]));
    let keys = labels(vec!["a", "b", "c_key"], vec![vec![1, 2, 3], vec![4, 5, 3], vec![4, 6, 9]]);
    Descriptor::new(
        keys,
        vec![
            block(1.0, vec![vec![0], vec![1]], &components, &properties),
            block(2.0, vec![vec![5], vec![6]], &components, &properties),
            block(3.0, vec![vec![0]], &components, &properties),
        ],
    )
    .unwrap()
}

#[test]
fn no_variable_moves_nothing() {
    let mut descriptor = three_keys();
    descriptor.sparse_to_properties(vec![]).unwrap();
    descriptor.sparse_to_samples(vec![]).unwrap();
    assert_eq!(descriptor.sparse().names(), ["a", "b", "c_key"]);
    assert_eq!(rows(descriptor.sparse()), vec![vec![1, 2, 3], vec![4, 5, 3], vec![4, 6, 9]]);
    assert_eq!(descriptor.blocks().len(), 3);
    assert_eq!(descriptor.blocks()[1].values().properties().names(), ["p"]);
    assert_eq!(cells(descriptor.blocks()[1].values().data()), vec![vec![vec![2.0, 2.0]]; 2]);
}

#[test]
fn empty_descriptor() {
    let keys = LabelsBuilder::new(vec!["a", "b"]).unwrap().finish();
    let mut descriptor: Descriptor<DenseArray<f64>> = Descriptor::new(keys, vec![]).unwrap();
    assert_eq!(descriptor.blocks().len(), 0);

    descriptor.sparse_to_properties(vec!["a"]).unwrap();
    descriptor.sparse_to_samples(vec!["b", "a"]).unwrap();
    descriptor.components_to_properties().unwrap();
    assert_eq!(descriptor.sparse().names(), ["a", "b"]);
    assert_eq!(descriptor.sparse().count(), 0);
    assert_eq!(descriptor.blocks().len(), 0);

    let error = descriptor.sparse_to_properties(vec!["c"]).unwrap_err();
    assert_eq!(
        error.to_string(),
        "invalid parameter: 'c' is not part of the sparse labels for this descriptor"
    );

    let everything = LabelsBuilder::new(vec![]).unwrap().finish();
    assert!(descriptor.blocks_matching(&everything).unwrap().is_empty());
    assert!(descriptor.iter().is_empty());
}

#[test]
fn descriptor_needs_one_block_per_key() {
    let components = Arc::new(labels(vec!["c"], vec![vec![0]]));
    let properties = Arc::new(labels(vec!["p"], vec![vec![7]]));
    let keys = labels(vec!["a"], vec![vec![1], vec![2]]);
    let error = Descriptor::new(keys, vec![block(1.0, vec![vec![0]], &components, &properties)]).unwrap_err();
    assert_eq!(
        error.to_string(),
        "invalid parameter: expected the same number of blocks (2) as the number of entries in the labels when creating a descriptor, got 1"
    );
}

#[test]
fn moving_every_variable_leaves_the_single_key() {
    let mut descriptor = three_keys();
    descriptor.sparse_to_properties(vec!["a", "b", "c_key"]).unwrap();

    assert_eq!(descriptor.sparse().names(), ["_"]);
    assert_eq!(rows(descriptor.sparse()), vec![vec![0]]);
    assert_eq!(descriptor.blocks().len(), 1);

    let values = descriptor.blocks()[0].values();
    assert_eq!(values.samples().names(), ["s"]);
    assert_eq!(rows(values.samples()), vec![vec![0], vec![1], vec![5], vec![6]]);
    assert_eq!(values.properties().names(), ["a", "b", "c_key", "p"]);
    assert_eq!(
        rows(values.properties()),
        vec![
            vec![1, 2, 3, 7],
            vec![1, 2, 3, 8],
            vec![4, 5, 3, 7],
            vec![4, 5, 3, 8],
            vec![4, 6, 9, 7],
            vec![4, 6, 9, 8],
        ]
    );
    assert_eq!(
        cells(values.data()),
        vec![
            vec![vec![1.0, 1.0, 0.0, 0.0, 3.0, 3.0]],
            vec![vec![1.0, 1.0, 0.0, 0.0, 0.0, 0.0]],
            vec![vec![0.0, 0.0, 2.0, 2.0, 0.0, 0.0]],
            vec![vec![0.0, 0.0, 2.0, 2.0, 0.0, 0.0]],
        ]
    );
}

#[test]
fn moving_every_variable_to_the_samples() {
    let mut descriptor = three_keys();
    descriptor.sparse_to_samples(vec!["a", "b", "c_key"]).unwrap();

    assert_eq!(descriptor.sparse().names(), ["_"]);
    assert_eq!(rows(descriptor.sparse()), vec![vec![0]]);
    assert_eq!(descriptor.blocks().len(), 1);

    let values = descriptor.blocks()[0].values();
    assert_eq!(values.samples().names(), ["s", "a", "b", "c_key"]);
    assert_eq!(
        rows(values.samples()),
        vec![vec![0, 1, 2, 3], vec![0, 4, 6, 9], vec![1, 1, 2, 3], vec![5, 4, 5, 3], vec![6, 4, 5, 3]]
    );
    assert_eq!(values.properties().names(), ["p"]);
    assert_eq!(
        cells(values.data()),
        vec![
            vec![vec![1.0, 1.0]],
            vec![vec![3.0, 3.0]],
            vec![vec![1.0, 1.0]],
            vec![vec![2.0, 2.0]],
            vec![vec![2.0, 2.0]],
        ]
    );
}

#[test]
fn disjoint_samples_leave_zeros() {
    let mut descriptor = three_keys();
    descriptor.sparse_to_properties(vec!["a", "b"]).unwrap();

    assert_eq!(descriptor.sparse().names(), ["c_key"]);
    assert_eq!(rows(descriptor.sparse()), vec![vec![3], vec![9]]);
    assert_eq!(descriptor.blocks().len(), 2);

    let values = descriptor.blocks()[0].values();
    assert_eq!(rows(values.samples()), vec![vec![0], vec![1], vec![5], vec![6]]);
    assert_eq!(values.properties().names(), ["a", "b", "p"]);
    assert_eq!(rows(values.properties()), vec![vec![1, 2, 7], vec![1, 2, 8], vec![4, 5, 7], vec![4, 5, 8]]);
    assert_eq!(
        cells(values.data()),
        vec![
            vec![vec![1.0, 1.0, 0.0, 0.0]],
            vec![vec![1.0, 1.0, 0.0, 0.0]],
            vec![vec![0.0, 0.0, 2.0, 2.0]],
            vec![vec![0.0, 0.0, 2.0, 2.0]],
        ]
    );

    // the block that is alone under its key stands under the first moved values
    let values = descriptor.blocks()[1].values();
    assert_eq!(rows(values.samples()), vec![vec![0]]);
    assert_eq!(rows(values.properties()), vec![vec![1, 2, 7], vec![1, 2, 8]]);
    assert_eq!(cells(values.data()), vec![vec![vec![3.0, 3.0]]]);
}

#[test]
fn variables_are_moved_in_the_order_given() {
    let mut descriptor = three_keys();
    descriptor.sparse_to_properties(vec!["b", "a"]).unwrap();

    assert_eq!(descriptor.sparse().names(), ["c_key"]);
    let values = descriptor.blocks()[0].values();
    assert_eq!(values.properties().names(), ["b", "a", "p"]);
    assert_eq!(rows(values.properties()), vec![vec![2, 1, 7], vec![2, 1, 8], vec![5, 4, 7], vec![5, 4, 8]]);

    let mut descriptor = three_keys();
    let (keys, moved) = descriptor.split_sparse_label(vec!["c_key", "a"]).unwrap();
    assert_eq!(keys.names(), ["b"]);
    assert_eq!(rows(&keys), vec![vec![2], vec![5], vec![6]]);
    assert_eq!(moved.names(), ["c_key", "a"]);
    assert_eq!(rows(&moved), vec![vec![3, 1], vec![3, 4], vec![9, 4]]);

    descriptor.sparse_to_samples(vec!["c_key"]).unwrap();
    assert_eq!(descriptor.sparse().names(), ["a", "b"]);
    assert_eq!(rows(descriptor.sparse()), vec![vec![1, 2], vec![4, 5], vec![4, 6]]);
    assert_eq!(descriptor.blocks()[0].values().samples().names(), ["s", "c_key"]);
    // each block is alone in its group and stands under the first moved value
    assert_eq!(rows(descriptor.blocks()[2].values().samples()), vec![vec![0, 3]]);
}

#[test]
fn refused_variables() {
    let mut descriptor = three_keys();

    let error = descriptor.sparse_to_properties(vec!["a", "nope", "neither"]).unwrap_err();
    assert_eq!(
        error.to_string(),
        "invalid parameter: 'nope' is not part of the sparse labels for this descriptor"
    );
    let error = descriptor.sparse_to_samples(vec!["nope"]).unwrap_err();
    assert_eq!(
        error.to_string(),
        "invalid parameter: 'nope' is not part of the sparse labels for this descriptor"
    );
    let error = descriptor.sparse_to_properties(vec!["a", "b", "a"]).unwrap_err();
    assert_eq!(error.to_string(), "invalid parameter: the same name is used for two labels columns");
    let error = descriptor.split_sparse_label(vec!["b", "b"]).unwrap_err();
    assert!(matches!(error, Error::InvalidParameter(_)));

    assert_eq!(descriptor.sparse().names(), ["a", "b", "c_key"]);
    assert_eq!(descriptor.blocks().len(), 3);
}

#[test]
fn moved_variables_can_not_be_moved_again() {
    let mut descriptor = three_keys();
    descriptor.sparse_to_properties(vec!["a"]).unwrap();
    let error = descriptor.sparse_to_samples(vec!["a"]).unwrap_err();
    assert_eq!(
        error.to_string(),
        "invalid parameter: 'a' is not part of the sparse labels for this descriptor"
    );
    assert_eq!(descriptor.sparse().names(), ["b", "c_key"]);
}

fn clashing_names() -> Descriptor<DenseArray<f64>> {
    let components = Arc::new(labels(vec!["c"], vec![vec![0]]));
    let properties = Arc::new(labels(vec!["p"], vec![vec![7]]));
    let keys = labels(vec!["p", "s", "c"], vec![vec![1, 1, 1], vec![2, 1, 1]]);
    Descriptor::new(
        keys,
        vec![
            block(1.0, vec![vec![0]], &components, &properties),
            block(2.0, vec![vec![0]], &components, &properties),
        ],
    )
    .unwrap()
}

#[test]
fn moved_variable_named_like_a_column() {
    let mut descriptor = clashing_names();
    let error = descriptor.sparse_to_properties(vec!["p"]).unwrap_err();
    assert_eq!(error.to_string(), "invalid parameter: the same name is used for two labels columns");
    let error = descriptor.sparse_to_samples(vec!["s"]).unwrap_err();
    assert_eq!(
        error.to_string(),
        "invalid parameter: can not move sparse label to samples under the name of a samples variable"
    );
    assert_eq!(descriptor.sparse().names(), ["p", "s", "c"]);
    assert_eq!(descriptor.blocks().len(), 2);

    // a key named like the components does not get in the way
    descriptor.sparse_to_properties(vec!["c"]).unwrap();
    assert_eq!(descriptor.blocks()[0].values().properties().names(), ["c", "p"]);
}

fn mixed_components() -> Descriptor<DenseArray<f64>> {
    let one = Arc::new(labels(vec!["c"], vec![vec![0]]));
    let other = Arc::new(labels(vec!["c"], vec![vec![1]]));
    let properties = Arc::new(labels(vec!["p"], vec![vec![7]]));
    let wider = Arc::new(labels(vec!["p"], vec![vec![7], vec![8]]));
    let keys = labels(vec!["a", "b"], vec![vec![0, 0], vec![1, 0], vec![0, 1], vec![1, 1]]);
    Descriptor::new(
        keys,
        vec![
            block(1.0, vec![vec![0]], &one, &properties),
            block(2.0, vec![vec![0]], &other, &properties),
            block(3.0, vec![vec![0]], &one, &properties),
            block(4.0, vec![vec![1]], &one, &wider),
        ],
    )
    .unwrap()
}

#[test]
fn blocks_with_other_components_do_not_merge() {
    let mut descriptor = mixed_components();
    let error = descriptor.sparse_to_properties(vec!["a"]).unwrap_err();
    assert_eq!(
        error.to_string(),
        "invalid parameter: can not move sparse label to properties if the blocks have different components labels, call components_to_properties first"
    );
    let error = descriptor.sparse_to_samples(vec!["a"]).unwrap_err();
    assert_eq!(
        error.to_string(),
        "invalid parameter: can not move sparse label to samples if the blocks have different components labels, call components_to_properties first"
    );
    assert_eq!(rows(descriptor.sparse()), vec![vec![0, 0], vec![1, 0], vec![0, 1], vec![1, 1]]);
    assert_eq!(descriptor.blocks().len(), 4);
    assert_eq!(cells(descriptor.blocks()[3].values().data()), vec![vec![vec![4.0, 4.0]]]);

    let error = descriptor.merge_blocks_along_properties(&vec![0, 1], &labels(vec!["a"], vec![vec![0], vec![1]]));
    assert!(matches!(error, Err(Error::InvalidParameter(_))));
    let merged = descriptor
        .merge_blocks_along_properties(&vec![2, 3], &labels(vec!["a"], vec![vec![0], vec![1]]))
        .unwrap();
    assert_eq!(rows(merged.values().properties()), vec![vec![0, 7], vec![1, 7], vec![1, 8]]);
    assert_eq!(cells(merged.values().data()), vec![vec![vec![3.0, 0.0, 0.0]], vec![vec![0.0, 4.0, 4.0]]]);
}

#[test]
fn blocks_with_other_properties_do_not_merge_along_samples() {
    let mut descriptor = mixed_components();
    let error = descriptor
        .merge_blocks_along_samples(&vec![2, 3], &labels(vec!["a"], vec![vec![0], vec![1]]))
        .unwrap_err();
    assert_eq!(
        error.to_string(),
        "invalid parameter: can not move sparse label to samples if the blocks have different property labels"
    );
    let merged = descriptor
        .merge_blocks_along_samples(&vec![0, 2], &labels(vec!["b"], vec![vec![0], vec![1]]))
        .unwrap();
    assert_eq!(merged.values().samples().names(), ["s", "b"]);
    assert_eq!(rows(merged.values().samples()), vec![vec![0, 0], vec![0, 1]]);
    assert_eq!(cells(merged.values().data()), vec![vec![vec![1.0]], vec![vec![3.0]]]);

    // moving both variables puts blocks with other components in one group
    let error = descriptor.sparse_to_samples(vec!["b", "a"]).unwrap_err();
    assert!(matches!(error, Error::InvalidParameter(_)));
    assert_eq!(descriptor.blocks().len(), 4);
}

#[test]
fn components_named_like_properties() {
    let components = Arc::new(labels(vec!["x", "y"], vec![vec![0, 0]]));
    let properties = Arc::new(labels(vec!["y"], vec![vec![7]]));
    let keys = labels(vec!["a"], vec![vec![1]]);
    let mut descriptor =
        Descriptor::new(keys, vec![block(1.0, vec![vec![0]], &components, &properties)]).unwrap();
    let error = descriptor.components_to_properties().unwrap_err();
    assert_eq!(error.to_string(), "invalid parameter: the same name is used for two labels columns");
    assert_eq!(descriptor.blocks()[0].values().components().names(), ["x", "y"]);
    assert_eq!(descriptor.blocks()[0].values().data().shape().unwrap(), (1, 1, 1));
}

#[test]
fn components_then_properties() {
    let mut descriptor = mixed_components();
    descriptor.components_to_properties().unwrap();
    descriptor.sparse_to_properties(vec!["a"]).unwrap();
    assert_eq!(rows(descriptor.sparse()), vec![vec![0], vec![1]]);

    let values = descriptor.blocks()[0].values();
    assert_eq!(values.components().names(), ["_"]);
    assert_eq!(values.properties().names(), ["a", "c", "p"]);
    assert_eq!(rows(values.properties()), vec![vec![0, 0, 7], vec![1, 1, 7]]);
    assert_eq!(cells(values.data()), vec![vec![vec![1.0, 2.0]]]);

    let values = descriptor.blocks()[1].values();
    assert_eq!(rows(values.samples()), vec![vec![0], vec![1]]);
    assert_eq!(rows(values.properties()), vec![vec![0, 0, 7], vec![1, 0, 7], vec![1, 0, 8]]);
    assert_eq!(cells(values.data()), vec![vec![vec![3.0, 0.0, 0.0]], vec![vec![0.0, 4.0, 4.0]]]);
}

#[test]
fn merges_are_checked_before_they_are_made() {
    let descriptor = mixed_components();
    let moved = labels(vec!["a"], vec![vec![0], vec![1]]);
    assert!(descriptor.check_properties_merge(&vec![2, 3], &moved).is_ok());
    let error = descriptor.check_properties_merge(&vec![0, 1], &moved).unwrap_err();
    assert_eq!(
        error.to_string(),
        "invalid parameter: can not move sparse label to properties if the blocks have different components labels, call components_to_properties first"
    );
    let error = descriptor.check_properties_merge(&vec![0, 2], &labels(vec!["p"], vec![vec![0], vec![1]])).unwrap_err();
    assert_eq!(error.to_string(), "invalid parameter: the same name is used for two labels columns");

    assert!(descriptor.check_samples_merge(&vec![0, 2], &moved).is_ok());
    let error = descriptor.check_samples_merge(&vec![2, 3], &moved).unwrap_err();
    assert_eq!(
        error.to_string(),
        "invalid parameter: can not move sparse label to samples if the blocks have different property labels"
    );
    let error = descriptor.check_samples_merge(&vec![0, 1], &moved).unwrap_err();
    assert_eq!(
        error.to_string(),
        "invalid parameter: can not move sparse label to samples if the blocks have different components labels, call components_to_properties first"
    );
    let error = descriptor.check_samples_merge(&vec![0, 2], &labels(vec!["s"], vec![vec![0], vec![1]])).unwrap_err();
    assert_eq!(
        error.to_string(),
        "invalid parameter: can not move sparse label to samples under the name of a samples variable"
    );
}

#[test]
fn no_blocks_under_no_keys() {
    let sparse = LabelsBuilder::new(vec!["sparse_1"]).unwrap().finish();
    let descriptor: Descriptor<DenseArray<f64>> = Descriptor::new(sparse, vec![]).unwrap();
    assert_eq!(descriptor.sparse().count(), 0);
    assert!(descriptor.blocks().is_empty());
    assert_eq!(descriptor.sparse().names(), ["sparse_1"]);
}
