use metatensor_core::array::DENSE_ARRAY_ORIGIN;
use metatensor_core::status::{classify_status, StatusKind, RUST_FUNCTION_FAILED, SUCCESS};
use metatensor_core::{Array, BackendError, DenseArray, Error};

fn numbered(shape: (usize, usize, usize)) -> DenseArray<i64> {
    let mut array = DenseArray::filled(shape, 0, 0).unwrap();
    let mut next = 1;
    for i in 0..shape.0 {
        for j in 0..shape.1 {
            for k in 0..shape.2 {
                assert!(array.set(i, j, k, next));
                next += 1;
            }
        }
    }
    array
}

#[test]
fn cells_are_kept_row_major() {
    let array = numbered((2, 3, 4));
    assert_eq!(array.shape().unwrap(), (2, 3, 4));
    assert_eq!(array.origin().unwrap(), DENSE_ARRAY_ORIGIN);
    assert_eq!(array.get(0, 0, 0), Some(1));
    assert_eq!(array.get(0, 0, 3), Some(4));
    assert_eq!(array.get(0, 1, 0), Some(5));
    assert_eq!(array.get(1, 0, 0), Some(13));
    assert_eq!(array.get(1, 2, 3), Some(24));
    assert_eq!(array.get(2, 0, 0), None);
    assert_eq!(array.get(0, 3, 0), None);
    assert_eq!(array.get(0, 0, 4), None);

    let mut array = array;
    assert!(!array.set(0, 0, 4, 100));
    assert!(array.set(1, 1, 1, 100));
    assert_eq!(array.get(1, 1, 1), Some(100));
    assert_eq!(array.get(1, 1, 0), Some(17));
    assert_eq!(array.get(1, 1, 2), Some(19));
}

#[test]
fn reshape_keeps_the_cells() {
    let mut array = numbered((2, 3, 4));
    array.reshape((2, 1, 12)).unwrap();
    assert_eq!(array.shape().unwrap(), (2, 1, 12));
    assert_eq!(array.get(0, 0, 5), Some(6));
    assert_eq!(array.get(1, 0, 0), Some(13));
    assert_eq!(array.get(1, 0, 11), Some(24));

    let error = array.reshape((2, 2, 5)).unwrap_err();
    assert_eq!(error.code, 1);
    assert_eq!(array.shape().unwrap(), (2, 1, 12));
    assert!(array.reshape((usize::MAX, 2, 2)).is_err());
    array.reshape((24, 1, 1)).unwrap();
    assert_eq!(array.get(23, 0, 0), Some(24));
}

#[test]
fn create_gives_zeros() {
    let array = DenseArray::filled((1, 1, 2), 5.5, -1.0).unwrap();
    let created = array.create((2, 2, 1)).unwrap();
    assert_eq!(created.shape().unwrap(), (2, 2, 1));
    for i in 0..2 {
        for j in 0..2 {
            assert_eq!(created.get(i, j, 0), Some(-1.0));
        }
    }
    assert_eq!(created.create((1, 1, 1)).unwrap().get(0, 0, 0), Some(-1.0));
    assert!(array.create((usize::MAX, 2, 1)).is_err());
    assert!(DenseArray::filled((usize::MAX, usize::MAX, 2), 0u8, 0u8).is_none());
    assert!(DenseArray::filled((usize::MAX, 0, 2), 0u8, 0u8).is_some());
}

#[test]
fn set_from_copies_one_sample() {
    let source = numbered((2, 2, 2));
    let mut target = DenseArray::filled((3, 2, 5), 0, 0).unwrap();
    target.set_from(2, 1..3, &source, 1).unwrap();
    for i in 0..3 {
        for j in 0..2 {
            for k in 0..5 {
                let expected = if i == 2 && (1..3).contains(&k) { source.get(1, j, k - 1).unwrap() } else { 0 };
                assert_eq!(target.get(i, j, k), Some(expected));
            }
        }
    }
    assert_eq!(target.get(2, 0, 1), Some(5));
    assert_eq!(target.get(2, 1, 2), Some(8));
}

#[test]
fn status_codes() {
    assert_eq!(classify_status(SUCCESS), StatusKind::Success);
    assert_eq!(classify_status(0), StatusKind::Success);
    assert_eq!(classify_status(1), StatusKind::Failure);
    assert_eq!(classify_status(255), StatusKind::Failure);
    assert_eq!(classify_status(i32::MAX), StatusKind::Failure);
    assert_eq!(classify_status(RUST_FUNCTION_FAILED), StatusKind::RustFailure);
    assert_eq!(classify_status(-4242), StatusKind::RustFailure);
    assert_eq!(classify_status(-1), StatusKind::ExternalFailure);
    assert_eq!(classify_status(-4243), StatusKind::ExternalFailure);
    assert_eq!(classify_status(i32::MIN), StatusKind::ExternalFailure);
}

#[test]
fn errors_as_text() {
    let error = Error::InvalidParameter("nothing fits".to_owned());
    assert_eq!(error.to_string(), "invalid parameter: nothing fits");
    let error = Error::Unimplemented("later".to_owned());
    assert_eq!(error.to_string(), "not implemented: later");
    let error = Error::ArrayBackend(BackendError { code: -17, message: "out of memory".to_owned() });
    assert_eq!(error.to_string(), "array backend error: out of memory (code -17)");
    let error = Error::ArrayBackend(BackendError { code: i32::MIN, message: String::new() });
    assert_eq!(error.to_string(), "array backend error:  (code -2147483648)");
    let error = Error::ArrayBackend(BackendError { code: 0, message: String::new() });
    assert_eq!(error.to_string(), "array backend error:  (code 0)");
}
