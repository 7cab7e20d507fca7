use std::sync::Arc;

use metatensor_core::{Array, Block, DenseArray, Descriptor, Error, Labels, LabelsBuilder};

fn test_array(shape: (usize, usize, usize)) -> DenseArray<f64> {
    DenseArray::filled(shape, 0.0, 0.0).unwrap()
}

fn filled(shape: (usize, usize, usize), value: f64) -> DenseArray<f64> {
    DenseArray::filled(shape, value, 0.0).unwrap()
}

fn labels(names: Vec<&str>, rows: Vec<Vec<i32>>) -> Labels {
    let mut builder = LabelsBuilder::new(names).unwrap();
    for row in rows {
        builder.add(row).unwrap();
    }
    builder.finish()
}

fn cells(array: &DenseArray<f64>) -> Vec<Vec<Vec<f64>>> {
    let (samples, components, properties) = array.shape().unwrap();
    (0..samples)
        .map(|i| {
            (0..components)
                .map(|j| (0..properties).map(|k| array.get(i, j, k).unwrap()).collect())
                .collect()
        })
        .collect()
}

fn rows(labels: &Labels) -> Vec<Vec<i32>> {
    (0..labels.count()).map(|i| labels.row(i).to_vec()).collect()
}

#[test]
fn descriptor_validation() {
    let mut sparse = LabelsBuilder::new(vec!["sparse_1", "sparse_2"]).unwrap();
    sparse.add(vec![0, 0]).unwrap();
    sparse.add(vec![1, 0]).unwrap();
    let sparse = sparse.finish();

    let mut samples_1 = LabelsBuilder::new(vec!["sample"]).unwrap();
    samples_1.add(vec![0]).unwrap();
    let samples_1 = samples_1.finish();

    let mut samples_2 = LabelsBuilder::new(vec!["sample"]).unwrap();
    samples_2.add(vec![33]).unwrap();
    samples_2.add(vec![-23]).unwrap();
    let samples_2 = samples_2.finish();

    let mut components = LabelsBuilder::new(vec!["components"]).unwrap();
    components.add(vec![0]).unwrap();
    let components = Arc::new(components.finish());

    let mut properties = LabelsBuilder::new(vec!["properties"]).unwrap();
    properties.add(vec![0]).unwrap();
    let properties = Arc::new(properties.finish());

    let block_1 = Block::new(
        test_array((1, 1, 1)),
        samples_1.clone(),
        Arc::clone(&components),
        Arc::clone(&properties),
    )
    .unwrap();

    let block_2 = Block::new(
        test_array((2, 1, 1)),
        samples_2.clone(),
        Arc::clone(&components),
        Arc::clone(&properties),
    )
    .unwrap();

    let result = Descriptor::new(sparse.clone(), vec![block_1, block_2]);
    assert!(result.is_ok());

    /**********************************************************************/
    let mut wrong_samples = LabelsBuilder::new(vec!["something_else"]).unwrap();
    wrong_samples.add(vec![3]).unwrap();
    wrong_samples.add(vec![4]).unwrap();
    let wrong_samples = wrong_samples.finish();

    let block_1 = Block::new(
        test_array((1, 1, 1)),
        samples_1.clone(),
        Arc::clone(&components),
        Arc::clone(&properties),
    )
    .unwrap();

    let block_2 = Block::new(
        test_array((2, 1, 1)),
        wrong_samples,
        Arc::clone(&components),
        Arc::clone(&properties),
    )
    .unwrap();

    let error = Descriptor::new(sparse.clone(), vec![block_1, block_2]).unwrap_err();
    assert_eq!(
        error.to_string(),
        "invalid parameter: all blocks must have the same samples labels \
            names, got [something_else] and [sample]"
    );

    /**********************************************************************/
    let mut wrong_components = LabelsBuilder::new(vec!["something_else"]).unwrap();
    wrong_components.add(vec![3]).unwrap();
    let wrong_components = wrong_components.finish();

    let block_1 = Block::new(
        test_array((1, 1, 1)),
        samples_1.clone(),
        Arc::clone(&components),
        Arc::clone(&properties),
    )
    .unwrap();

    let block_2 = Block::new(
        test_array((2, 1, 1)),
        samples_2.clone(),
        Arc::new(wrong_components),
        Arc::clone(&properties),
    )
    .unwrap();

    let error = Descriptor::new(sparse.clone(), vec![block_1, block_2]).unwrap_err();
    assert_eq!(
        error.to_string(),
        "invalid parameter: all blocks must have the same components labels \
            names, got [something_else] and [components]"
    );

    /**********************************************************************/
    let mut wrong_properties = LabelsBuilder::new(vec!["something_else"]).unwrap();
    wrong_properties.add(vec![3]).unwrap();
    let wrong_properties = wrong_properties.finish();

    let block_1 = Block::new(
        test_array((1, 1, 1)),
        samples_1,
        Arc::clone(&components),
        Arc::clone(&properties),
    )
    .unwrap();

    let block_2 = Block::new(
        test_array((2, 1, 1)),
        samples_2,
        Arc::clone(&components),
        Arc::new(wrong_properties),
    )
    .unwrap();

    let error = Descriptor::new(sparse, vec![block_1, block_2]).unwrap_err();
    assert_eq!(
        error.to_string(),
        "invalid parameter: all blocks must have the same properties labels \
            names, got [something_else] and [properties]"
    );
}

fn example_descriptor() -> Descriptor<DenseArray<f64>> {
    let mut samples_1 = LabelsBuilder::new(vec!["sample"]).unwrap();
    samples_1.add(vec![0]).unwrap();
    samples_1.add(vec![2]).unwrap();
    samples_1.add(vec![4]).unwrap();
    let samples_1 = samples_1.finish();

    let mut components_1 = LabelsBuilder::new(vec!["components"]).unwrap();
    components_1.add(vec![0]).unwrap();
    let components_1 = Arc::new(components_1.finish());

    let mut properties_1 = LabelsBuilder::new(vec!["properties"]).unwrap();
    properties_1.add(vec![0]).unwrap();
    let properties_1 = Arc::new(properties_1.finish());

    let mut block_1 = Block::new(
        filled((3, 1, 1), 1.0),
        samples_1,
        Arc::clone(&components_1),
        Arc::clone(&properties_1),
    )
    .unwrap();

    let mut gradient_samples_1 = LabelsBuilder::new(vec!["sample", "parameter"]).unwrap();
    gradient_samples_1.add(vec![0, -2]).unwrap();
    gradient_samples_1.add(vec![2, 3]).unwrap();
    let gradient_samples_1 = gradient_samples_1.finish();

    block_1.add_gradient("parameter", gradient_samples_1, filled((2, 1, 1), 11.0)).unwrap();

    /******************************************************************/

    let mut samples_2 = LabelsBuilder::new(vec!["sample"]).unwrap();
    samples_2.add(vec![0]).unwrap();
    samples_2.add(vec![1]).unwrap();
    samples_2.add(vec![3]).unwrap();
    let samples_2 = samples_2.finish();

    // different property size
    let mut properties_2 = LabelsBuilder::new(vec!["properties"]).unwrap();
    properties_2.add(vec![3]).unwrap();
    properties_2.add(vec![4]).unwrap();
    properties_2.add(vec![5]).unwrap();
    let properties_2 = Arc::new(properties_2.finish());

    let mut block_2 = Block::new(filled((3, 1, 3), 2.0), samples_2, components_1, properties_2).unwrap();

    let mut gradient_samples_2 = LabelsBuilder::new(vec!["sample", "parameter"]).unwrap();
    gradient_samples_2.add(vec![0, -2]).unwrap();
    gradient_samples_2.add(vec![0, 3]).unwrap();
    gradient_samples_2.add(vec![2, -2]).unwrap();
    let gradient_samples_2 = gradient_samples_2.finish();

    block_2.add_gradient("parameter", gradient_samples_2, filled((3, 1, 3), 12.0)).unwrap();

    /******************************************************************/

    let mut samples_3 = LabelsBuilder::new(vec!["sample"]).unwrap();
    samples_3.add(vec![0]).unwrap();
    samples_3.add(vec![3]).unwrap();
    samples_3.add(vec![6]).unwrap();
    samples_3.add(vec![8]).unwrap();
    let samples_3 = samples_3.finish();

    // different components size
    let mut components_2 = LabelsBuilder::new(vec!["components"]).unwrap();
    components_2.add(vec![0]).unwrap();
    components_2.add(vec![1]).unwrap();
    components_2.add(vec![2]).unwrap();
    let components_2 = Arc::new(components_2.finish());

    let mut block_3 = Block::new(
        filled((4, 3, 1), 3.0),
        samples_3,
        Arc::clone(&components_2),
        Arc::clone(&properties_1),
    )
    .unwrap();

    let mut gradient_samples_3 = LabelsBuilder::new(vec!["sample", "parameter"]).unwrap();
    gradient_samples_3.add(vec![1, -2]).unwrap();
    let gradient_samples_3 = gradient_samples_3.finish();

    block_3.add_gradient("parameter", gradient_samples_3, filled((1, 3, 1), 13.0)).unwrap();

    /******************************************************************/

    let mut samples_4 = LabelsBuilder::new(vec!["sample"]).unwrap();
    samples_4.add(vec![0]).unwrap();
    samples_4.add(vec![1]).unwrap();
    samples_4.add(vec![2]).unwrap();
    samples_4.add(vec![5]).unwrap();
    let samples_4 = samples_4.finish();

    let mut block_4 = Block::new(filled((4, 3, 1), 4.0), samples_4, components_2, properties_1).unwrap();

    let mut gradient_samples_4 = LabelsBuilder::new(vec!["sample", "parameter"]).unwrap();
    gradient_samples_4.add(vec![0, 1]).unwrap();
    gradient_samples_4.add(vec![3, 3]).unwrap();
    let gradient_samples_4 = gradient_samples_4.finish();

    block_4.add_gradient("parameter", gradient_samples_4, filled((2, 3, 1), 14.0)).unwrap();

    /******************************************************************/

    let mut sparse = LabelsBuilder::new(vec!["sparse_1", "sparse_2"]).unwrap();
    sparse.add(vec![0, 0]).unwrap();
    sparse.add(vec![1, 0]).unwrap();
    sparse.add(vec![2, 2]).unwrap();
    sparse.add(vec![2, 3]).unwrap();
    let sparse = sparse.finish();

    return Descriptor::new(sparse, vec![block_1, block_2, block_3, block_4]).unwrap();
}

#[test]
fn sparse_to_properties() {
    let mut descriptor = example_descriptor();
    descriptor.sparse_to_properties(vec!["sparse_1"]).unwrap();

    assert_eq!(descriptor.sparse().count(), 3);
    assert_eq!(descriptor.sparse().names(), ["sparse_2"]);
    assert_eq!(descriptor.sparse().row(0), [0]);
    assert_eq!(descriptor.sparse().row(1), [2]);
    assert_eq!(descriptor.sparse().row(2), [3]);

    assert_eq!(descriptor.blocks().len(), 3);

    // The new first block contains the old first two blocks merged
    let block_1 = &descriptor.blocks()[0];
    assert_eq!(block_1.values().samples().names(), ["sample"]);
    assert_eq!(block_1.values().samples().count(), 5);
    assert_eq!(block_1.values().samples().row(0), [0]);
    assert_eq!(block_1.values().samples().row(1), [1]);
    assert_eq!(block_1.values().samples().row(2), [2]);
    assert_eq!(block_1.values().samples().row(3), [3]);
    assert_eq!(block_1.values().samples().row(4), [4]);

    assert_eq!(block_1.values().components().names(), ["components"]);
    assert_eq!(block_1.values().components().count(), 1);
    assert_eq!(block_1.values().components().row(0), [0]);

    assert_eq!(block_1.values().properties().names(), ["sparse_1", "properties"]);
    assert_eq!(block_1.values().properties().count(), 4);
    assert_eq!(block_1.values().properties().row(0), [0, 0]);
    assert_eq!(block_1.values().properties().row(1), [1, 3]);
    assert_eq!(block_1.values().properties().row(2), [1, 4]);
    assert_eq!(block_1.values().properties().row(3), [1, 5]);

    assert_eq!(
        cells(block_1.values().data()),
        vec![
            vec![vec![1.0, 2.0, 2.0, 2.0]],
            vec![vec![0.0, 2.0, 2.0, 2.0]],
            vec![vec![1.0, 0.0, 0.0, 0.0]],
            vec![vec![0.0, 2.0, 2.0, 2.0]],
            vec![vec![1.0, 0.0, 0.0, 0.0]],
        ]
    );

    let gradient_1 = block_1.get_gradient("parameter").unwrap();
    assert_eq!(gradient_1.samples().names(), ["sample", "parameter"]);
    assert_eq!(gradient_1.samples().count(), 4);
    assert_eq!(gradient_1.samples().row(0), [0, -2]);
    assert_eq!(gradient_1.samples().row(1), [0, 3]);
    assert_eq!(gradient_1.samples().row(2), [3, -2]);
    assert_eq!(gradient_1.samples().row(3), [4, 3]);

    assert_eq!(
        cells(gradient_1.data()),
        vec![
            vec![vec![11.0, 12.0, 12.0, 12.0]],
            vec![vec![0.0, 12.0, 12.0, 12.0]],
            vec![vec![0.0, 12.0, 12.0, 12.0]],
            vec![vec![11.0, 0.0, 0.0, 0.0]],
        ]
    );

    // The new second block contains the old third block
    let block_2 = &descriptor.blocks()[1];
    assert_eq!(block_2.values().data().shape().unwrap(), (4, 3, 1));
    assert_eq!(
        cells(block_2.values().data()),
        vec![
            vec![vec![3.0], vec![3.0], vec![3.0]],
            vec![vec![3.0], vec![3.0], vec![3.0]],
            vec![vec![3.0], vec![3.0], vec![3.0]],
            vec![vec![3.0], vec![3.0], vec![3.0]],
        ]
    );

    // The new third block contains the old second block
    let block_3 = &descriptor.blocks()[2];
    assert_eq!(block_3.values().data().shape().unwrap(), (4, 3, 1));
    assert_eq!(
        cells(block_3.values().data()),
        vec![
            vec![vec![4.0], vec![4.0], vec![4.0]],
            vec![vec![4.0], vec![4.0], vec![4.0]],
            vec![vec![4.0], vec![4.0], vec![4.0]],
            vec![vec![4.0], vec![4.0], vec![4.0]],
        ]
    );
}

#[test]
fn sparse_to_samples() {
    let mut descriptor = example_descriptor();
    descriptor.sparse_to_samples(vec!["sparse_2"]).unwrap();

    assert_eq!(descriptor.sparse().count(), 3);
    assert_eq!(descriptor.sparse().names(), ["sparse_1"]);
    assert_eq!(descriptor.sparse().row(0), [0]);
    assert_eq!(descriptor.sparse().row(1), [1]);
    assert_eq!(descriptor.sparse().row(2), [2]);

    assert_eq!(descriptor.blocks().len(), 3);

    // The first two blocks are not modified
    let block_1 = &descriptor.blocks()[0];
    assert_eq!(block_1.values().data().shape().unwrap(), (3, 1, 1));
    assert_eq!(cells(block_1.values().data()), vec![vec![vec![1.0]], vec![vec![1.0]], vec![vec![1.0]]]);

    let block_2 = &descriptor.blocks()[1];
    assert_eq!(block_2.values().data().shape().unwrap(), (3, 1, 3));
    assert_eq!(
        cells(block_2.values().data()),
        vec![vec![vec![2.0, 2.0, 2.0]], vec![vec![2.0, 2.0, 2.0]], vec![vec![2.0, 2.0, 2.0]]]
    );

    // The new third block contains the old third and fourth blocks merged
    let block_3 = &descriptor.blocks()[2];
    assert_eq!(block_3.values().samples().names(), ["sample", "sparse_2"]);
    assert_eq!(block_3.values().samples().count(), 8);
    assert_eq!(block_3.values().samples().row(0), [0, 0]);
    assert_eq!(block_3.values().samples().row(1), [0, 2]);
    assert_eq!(block_3.values().samples().row(2), [1, 2]);
    assert_eq!(block_3.values().samples().row(3), [2, 2]);
    assert_eq!(block_3.values().samples().row(4), [3, 0]);
    assert_eq!(block_3.values().samples().row(5), [5, 2]);
    assert_eq!(block_3.values().samples().row(6), [6, 0]);
    assert_eq!(block_3.values().samples().row(7), [8, 0]);

    assert_eq!(block_3.values().components().names(), ["components"]);
    assert_eq!(block_3.values().components().count(), 3);
    assert_eq!(block_3.values().components().row(0), [0]);
    assert_eq!(block_3.values().components().row(1), [1]);
    assert_eq!(block_3.values().components().row(2), [2]);

    assert_eq!(block_3.values().properties().names(), ["properties"]);
    assert_eq!(block_3.values().properties().count(), 1);
    assert_eq!(block_3.values().properties().row(0), [0]);

    assert_eq!(
        cells(block_3.values().data()),
        vec![
            vec![vec![3.0], vec![3.0], vec![3.0]],
            vec![vec![4.0], vec![4.0], vec![4.0]],
            vec![vec![4.0], vec![4.0], vec![4.0]],
            vec![vec![4.0], vec![4.0], vec![4.0]],
            vec![vec![3.0], vec![3.0], vec![3.0]],
            vec![vec![4.0], vec![4.0], vec![4.0]],
            vec![vec![3.0], vec![3.0], vec![3.0]],
            vec![vec![3.0], vec![3.0], vec![3.0]],
        ]
    );

    let gradient_3 = block_3.get_gradient("parameter").unwrap();
    assert_eq!(gradient_3.samples().names(), ["sample", "parameter"]);
    assert_eq!(gradient_3.samples().count(), 3);
    assert_eq!(gradient_3.samples().row(0), [1, 1]);
    assert_eq!(gradient_3.samples().row(1), [4, -2]);
    assert_eq!(gradient_3.samples().row(2), [5, 3]);

    assert_eq!(
        cells(gradient_3.data()),
        vec![
            vec![vec![14.0], vec![14.0], vec![14.0]],
            vec![vec![13.0], vec![13.0], vec![13.0]],
            vec![vec![14.0], vec![14.0], vec![14.0]],
        ]
    );
}

fn numbered(shape: (usize, usize, usize)) -> DenseArray<f64> {
    let mut array = test_array(shape);
    let mut next = 1.0;
    for i in 0..shape.0 {
        for j in 0..shape.1 {
            for k in 0..shape.2 {
                assert!(array.set(i, j, k, next));
                next += 1.0;
            }
        }
    }
    array
}

#[test]
fn components_to_properties() {
    let keys = labels(vec!["key"], vec![vec![0], vec![1]]);
    let components = Arc::new(labels(vec!["c_1", "c_2"], vec![vec![0, 0], vec![0, 1], vec![1, 0]]));
    let properties = Arc::new(labels(vec!["p"], vec![vec![7], vec![8]]));
    let block_1 = Block::new(
        numbered((2, 3, 2)),
        labels(vec!["sample"], vec![vec![5], vec![3]]),
        Arc::clone(&components),
        Arc::clone(&properties),
    )
    .unwrap();
    let block_2 = Block::new(
        filled((1, 3, 2), 9.0),
        labels(vec!["sample"], vec![vec![1]]),
        components,
        properties,
    )
    .unwrap();
    let mut descriptor = Descriptor::new(keys, vec![block_1, block_2]).unwrap();

    descriptor.components_to_properties().unwrap();

    assert_eq!(rows(descriptor.sparse()), vec![vec![0], vec![1]]);
    assert_eq!(descriptor.blocks().len(), 2);

    let block_1 = &descriptor.blocks()[0];
    assert_eq!(block_1.values().samples().names(), ["sample"]);
    assert_eq!(rows(block_1.values().samples()), vec![vec![5], vec![3]]);
    assert_eq!(block_1.values().components().names(), ["_"]);
    assert_eq!(rows(block_1.values().components()), vec![vec![0]]);
    assert_eq!(block_1.values().properties().names(), ["c_1", "c_2", "p"]);
    assert_eq!(
        rows(block_1.values().properties()),
        vec![vec![0, 0, 7], vec![0, 0, 8], vec![0, 1, 7], vec![0, 1, 8], vec![1, 0, 7], vec![1, 0, 8]]
    );
    assert_eq!(block_1.values().data().shape().unwrap(), (2, 1, 6));
    assert_eq!(
        cells(block_1.values().data()),
        vec![vec![vec![1.0, 2.0, 3.0, 4.0, 5.0, 6.0]], vec![vec![7.0, 8.0, 9.0, 10.0, 11.0, 12.0]]]
    );
    assert!(block_1.gradients_list().is_empty());

    let block_2 = &descriptor.blocks()[1];
    assert_eq!(block_2.values().data().shape().unwrap(), (1, 1, 6));
    assert_eq!(cells(block_2.values().data()), vec![vec![vec![9.0; 6]]]);
    assert_eq!(block_2.values().properties().count(), 6);
}

#[test]
fn components_to_properties_with_gradients() {
    let mut descriptor = example_descriptor();
    let error = descriptor.components_to_properties().unwrap_err();
    assert!(matches!(error, Error::Unimplemented(_)));
    assert_eq!(descriptor.blocks().len(), 4);
    assert_eq!(descriptor.blocks()[2].values().data().shape().unwrap(), (4, 3, 1));
    assert_eq!(descriptor.blocks()[0].values().components().names(), ["components"]);
}
