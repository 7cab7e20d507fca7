use metatensor_core::labels::{find_name, names_are_valid, same_row, same_text};
use metatensor_core::merge::{merge_rows, positions_in, sorted_labels, sorted_union};
use metatensor_core::sorted::{copy_row, merge_sorted, row_less, sorted_rows};
use metatensor_core::split::project_row;
use metatensor_core::text::{push_count, push_decimal, push_joined, push_signed};
use metatensor_core::{Error, LabelsBuilder};

#[test]
fn rows_are_ordered_entry_by_entry() {
    assert!(row_less(&[0, 5], &[1, 0]));
    assert!(row_less(&[1, -1], &[1, 0]));
    assert!(row_less(&[-3], &[2]));
    assert!(!row_less(&[1, 0], &[1, 0]));
    assert!(!row_less(&[1, 0], &[0, 5]));
    assert!(row_less(&[1], &[1, 0]));
    assert!(!row_less(&[1, 0], &[1]));
    assert!(row_less(&[], &[0]));
    assert!(!row_less(&[], &[]));
    assert!(row_less(&[i32::MIN], &[i32::MAX]));
}

#[test]
fn sorting_rows() {
    let rows: Vec<&[i32]> = vec![&[3, 1], &[0, 2], &[3, 0], &[0, 2], &[-1, 9], &[3, 1], &[2, 2]];
    let sorted = sorted_rows(&rows, 0, rows.len());
    assert_eq!(sorted, [[-1, 9], [0, 2], [2, 2], [3, 0], [3, 1]]);
    assert_eq!(sorted_rows(&rows, 1, 4), [[0, 2], [3, 0]]);
    assert_eq!(sorted_rows(&rows, 2, 3), [[3, 0]]);
    assert!(sorted_rows(&rows, 5, 5).is_empty());

    let first: Vec<&[i32]> = vec![&[0], &[2], &[4], &[9]];
    let second: Vec<&[i32]> = vec![&[-1], &[2], &[3], &[9], &[10], &[11]];
    assert_eq!(merge_sorted(&first, &second), [[-1], [0], [2], [3], [4], [9], [10], [11]]);
    assert_eq!(merge_sorted(&second, &first), [[-1], [0], [2], [3], [4], [9], [10], [11]]);
    assert_eq!(merge_sorted(&first, &Vec::new()), first);
    assert_eq!(merge_sorted(&Vec::new(), &first), first);
    assert_eq!(copy_row(&[4, 5, 6]), vec![4, 5, 6]);
}

#[test]
fn many_rows_are_sorted_quickly() {
    let count = 200_000;
    let source: Vec<Vec<i32>> = (0..count).map(|i| vec![(i * 7919) % count, i % 3]).collect();
    let rows = sorted_union(&vec![source.clone(), source]);
    assert_eq!(rows.len(), 200_000);
    assert!(rows.windows(2).all(|pair| pair[0] < pair[1]));
}

#[test]
fn union_of_rows() {
    let sources = vec![
        vec![vec![4], vec![0], vec![2]],
        vec![],
        vec![vec![3], vec![0], vec![1]],
    ];
    let rows = sorted_union(&sources);
    assert_eq!(rows, vec![vec![0], vec![1], vec![2], vec![3], vec![4]]);

    let (labels, positions) = merge_rows(vec!["sample"], &sources).unwrap();
    assert_eq!(labels.names(), ["sample"]);
    assert_eq!(labels.count(), 5);
    assert_eq!(labels.row(3), [3]);
    assert_eq!(positions, vec![vec![4, 0, 2], vec![], vec![3, 0, 1]]);

    let labels = sorted_labels(vec!["x"], &rows).unwrap();
    assert_eq!(positions_in(&labels, &vec![vec![2], vec![4]]), vec![2, 4]);
    assert!(matches!(sorted_labels(vec![""], &rows), Err(Error::InvalidParameter(_))));
    assert!(matches!(merge_rows(vec!["é"], &sources), Err(Error::InvalidParameter(_))));
    assert_eq!(sorted_union(&Vec::new()), Vec::<Vec<i32>>::new());
}

#[test]
fn projection_of_a_row() {
    assert_eq!(project_row(&[10, 20, 30], &vec![2, 0]), vec![30, 10]);
    assert_eq!(project_row(&[10, 20, 30], &vec![1, 1]), vec![20, 20]);
    assert_eq!(project_row(&[10, 20, 30], &vec![]), Vec::<i32>::new());
}

#[test]
fn names_and_rows_compare() {
    assert!(same_text("abc", "abc"));
    assert!(!same_text("abc", "abd"));
    assert!(!same_text("abc", "ab"));
    assert!(same_row(&[1, 2], &[1, 2]));
    assert!(!same_row(&[1, 2], &[1, 3]));
    assert!(!same_row(&[1, 2], &[1]));
    assert!(names_are_valid(&vec!["a", "b", "_"]));
    assert!(names_are_valid(&vec![]));
    assert!(!names_are_valid(&vec!["a", "b", "a"]));
    assert!(!names_are_valid(&vec!["a", ""]));
    assert!(!names_are_valid(&vec!["ü"]));
    let names = vec!["x".to_owned(), "y".to_owned(), "x".to_owned()];
    assert_eq!(find_name(&names, "x"), Some(0));
    assert_eq!(find_name(&names, "y"), Some(1));
    assert_eq!(find_name(&names, "z"), None);
}

#[test]
fn numbers_as_text() {
    let mut text = String::from("n = ");
    push_decimal(&mut text, 0);
    text.push_str(", ");
    push_decimal(&mut text, 9);
    text.push_str(", ");
    push_decimal(&mut text, 10);
    text.push_str(", ");
    push_decimal(&mut text, 12345678901234567890);
    text.push_str(", ");
    push_decimal(&mut text, u64::MAX);
    assert_eq!(text, "n = 0, 9, 10, 12345678901234567890, 18446744073709551615");

    let mut text = String::new();
    push_count(&mut text, 4021);
    text.push(' ');
    push_signed(&mut text, -4021);
    text.push(' ');
    push_signed(&mut text, 0);
    text.push(' ');
    push_signed(&mut text, i32::MAX);
    text.push(' ');
    push_signed(&mut text, i32::MIN);
    assert_eq!(text, "4021 -4021 0 2147483647 -2147483648");

    let mut text = String::from("[");
    push_joined(&mut text, &vec!["a", "bc", "d"], ", ");
    text.push_str("] [");
    push_joined(&mut text, &vec!["only"], ", ");
    text.push_str("] [");
    push_joined(&mut text, &vec![], ", ");
    text.push(']');
    assert_eq!(text, "[a, bc, d] [only] []");
}

#[test]
fn copies_of_a_table_are_independent() {
    let mut builder = LabelsBuilder::new(vec!["a"]).unwrap();
    builder.add(vec![3]).unwrap();
    builder.add(vec![1]).unwrap();
    let labels = builder.finish();
    let copy = labels.clone();
    drop(labels);
    assert_eq!(copy.names(), ["a"]);
    assert_eq!(copy.count(), 2);
    assert_eq!(copy.row(0), [3]);
    assert_eq!(copy.row(1), [1]);
    assert_eq!(copy.position(&[1]), Some(1));
}
