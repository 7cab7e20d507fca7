use metatensor_core::{Error, Labels, LabelsBuilder};

#[test]
fn builder_keeps_rows_in_order() {
    let mut builder = LabelsBuilder::new(vec!["a", "b"]).unwrap();
    builder.add(vec![0, 1]).unwrap();
    builder.add(vec![0, -1]).unwrap();
    builder.add(vec![-5, 7]).unwrap();
    assert_eq!(builder.size(), 2);
    assert_eq!(builder.count(), 3);
    let labels = builder.finish();
    assert_eq!(labels.size(), 2);
    assert_eq!(labels.count(), 3);
    assert_eq!(labels.names(), ["a", "b"]);
    assert_eq!(labels.row(0), [0, 1]);
    assert_eq!(labels.row(1), [0, -1]);
    assert_eq!(labels.row(2), [-5, 7]);
    assert_eq!(labels.position(&[0, -1]), Some(1));
    assert_eq!(labels.position(&[-5, 7]), Some(2));
    assert_eq!(labels.position(&[3, 3]), None);
    assert_eq!(labels.column("b"), Some(1));
    assert_eq!(labels.column("c"), None);
}

#[test]
fn builder_refuses_duplicate_rows() {
    let mut builder = LabelsBuilder::new(vec!["a", "b"]).unwrap();
    builder.add(vec![0, 1]).unwrap();
    let error = builder.add(vec![0, 1]).unwrap_err();
    assert!(matches!(error, Error::InvalidParameter(_)));
    assert_eq!(builder.count(), 1);
    assert!(!builder.insert(vec![0, 1]));
    assert!(builder.insert(vec![1, 1]));
    assert_eq!(builder.count(), 2);
}

#[test]
fn builder_refuses_rows_of_another_arity() {
    let mut builder = LabelsBuilder::new(vec!["a", "b"]).unwrap();
    let error = builder.add(vec![0]).unwrap_err();
    assert!(matches!(error, Error::InvalidParameter(_)));
    let error = builder.add(vec![0, 1, 2]).unwrap_err();
    assert!(matches!(error, Error::InvalidParameter(_)));
    assert_eq!(builder.count(), 0);
}

#[test]
fn builder_refuses_invalid_names() {
    assert!(matches!(LabelsBuilder::new(vec!["a", "a"]), Err(Error::InvalidParameter(_))));
    assert!(matches!(LabelsBuilder::new(vec!["a", ""]), Err(Error::InvalidParameter(_))));
    assert!(matches!(LabelsBuilder::new(vec!["été"]), Err(Error::InvalidParameter(_))));
    assert!(LabelsBuilder::new(vec![]).is_ok());
}

#[test]
fn single_table() {
    let single = Labels::single();
    assert_eq!(single.names(), ["_"]);
    assert_eq!(single.count(), 1);
    assert_eq!(single.size(), 1);
    assert_eq!(single.row(0), [0]);
}

#[test]
fn tables_compare_by_names_and_rows() {
    let mut first = LabelsBuilder::new(vec!["a"]).unwrap();
    first.add(vec![1]).unwrap();
    first.add(vec![2]).unwrap();
    let first = first.finish();

    let mut swapped = LabelsBuilder::new(vec!["a"]).unwrap();
    swapped.add(vec![2]).unwrap();
    swapped.add(vec![1]).unwrap();
    let swapped = swapped.finish();

    let mut renamed = LabelsBuilder::new(vec!["b"]).unwrap();
    renamed.add(vec![1]).unwrap();
    renamed.add(vec![2]).unwrap();
    let renamed = renamed.finish();

    assert!(first.equals(&first.clone()));
    assert!(!first.equals(&swapped));
    assert!(!first.equals(&renamed));
    assert!(first.same_names(&swapped));
    assert!(!first.same_names(&renamed));
}

#[test]
fn tables_are_equal_with_the_same_names_and_rows() {
    let mut first = LabelsBuilder::new(vec!["a", "b"]).unwrap();
    first.add(vec![1, 2]).unwrap();
    first.add(vec![3, 4]).unwrap();
    let first = first.finish();
    let mut second = LabelsBuilder::new(vec!["a", "b"]).unwrap();
    second.add(vec![1, 2]).unwrap();
    second.add(vec![3, 4]).unwrap();
    let second = second.finish();
    let mut shorter = LabelsBuilder::new(vec!["a", "b"]).unwrap();
    shorter.add(vec![1, 2]).unwrap();
    let shorter = shorter.finish();
    assert_eq!(first, second);
    assert_ne!(first, shorter);
    assert_ne!(first, Labels::single());
    assert_eq!(Labels::single(), Labels::single());
    assert_eq!(first.iter(), vec![[1, 2], [3, 4]]);
    assert!(Labels::single().iter() == vec![[0]]);
}
