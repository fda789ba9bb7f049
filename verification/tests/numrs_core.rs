use rustlibraries::numrs::{broadcast_shape, normalize_range, resolve_shape, Array, DTypeKind, NormalizedSlice, NumRsError, Slice};

#[test]
fn normalizes_forward_slice() {
    assert_eq!(
        normalize_range(Some(1), Some(5), 2, 6).unwrap(),
        NormalizedSlice::Range {
            start: 1,
            len: 2,
            step: 2
        }
    );
}

#[test]
fn normalizes_reverse_slice() {
    assert_eq!(
        normalize_range(None, None, -1, 5).unwrap(),
        NormalizedSlice::Range {
            start: 4,
            len: 5,
            step: -1
        }
    );
}

#[test]
fn broadcasts_like_numpy() {
    assert_eq!(broadcast_shape(&[2, 1, 3], &[4, 3]).unwrap(), vec![2, 4, 3]);
    assert!(broadcast_shape(&[2, 3], &[4, 3]).is_err());
}

#[test]
fn resolves_inferred_shape() {
    assert_eq!(resolve_shape(&[2, -1, 3], 24).unwrap(), vec![2, 4, 3]);
    assert!(resolve_shape(&[-1, -1], 4).is_err());
}

#[test]
fn integer_sum_wraps_instead_of_panicking_on_overflow() {
    let ints = Array::from_vec(vec![2], vec![i8::MAX, 1]).unwrap();
    assert_eq!(ints.sum_all().unwrap(), i8::MIN);

    let uints = Array::from_vec(vec![2], vec![u8::MAX, 1]).unwrap();
    assert_eq!(uints.sum_all().unwrap(), 0);
}

#[test]
fn supports_nonzero_and_where_selection() {
    let mask = Array::from_vec(
        vec![3, 4],
        vec![
            true, false, false, true, false, true, false, false, true, false, true, false,
        ],
    )
    .unwrap();

    let nonzero = mask.nonzero().unwrap();
    assert_eq!(nonzero.len(), 2);
    assert_eq!(nonzero[0].as_slice(), &[0, 0, 1, 2, 2]);
    assert_eq!(nonzero[1].as_slice(), &[0, 3, 1, 0, 2]);

    let values = Array::from_vec(vec![3, 4], (0_i64..12).collect()).unwrap();
    let fallback = Array::full(vec![1, 4], -1_i64).unwrap();
    let selected = mask.where_select(&values, &fallback).unwrap();
    assert_eq!(selected.shape(), &[3, 4]);
    assert_eq!(
        selected.as_slice(),
        &[0, -1, -1, 3, -1, 5, -1, -1, 8, -1, 10, -1]
    );

    let transposed_mask = mask.transpose();
    let transposed_values = values.transpose();
    let selected = transposed_mask
        .where_select(&transposed_values, &Array::scalar(-2_i64).unwrap().view())
        .unwrap();
    assert_eq!(selected.shape(), &[4, 3]);
    assert_eq!(
        selected.as_slice(),
        &[0, -2, 8, -2, 5, -2, -2, -2, 10, 3, -2, -2]
    );
}

#[test]
fn views_slice_without_copying_and_keep_numpy_negative_index_rules() {
    let a = Array::from_vec(vec![3, 4], (0_i64..12).collect()).unwrap();

    let col = a.slice(&[Slice::All, Slice::Index(-1)]).unwrap();
    assert_eq!(col.shape(), &[3]);
    assert_eq!(col.strides(), &[4]);
    assert_eq!(col.to_vec().unwrap(), vec![3, 7, 11]);

    let reversed = a
        .slice(&[Slice::Index(1), Slice::range(None, None, -1)])
        .unwrap();
    assert_eq!(reversed.shape(), &[4]);
    assert_eq!(reversed.strides(), &[-1]);
    assert_eq!(reversed.to_vec().unwrap(), vec![7, 6, 5, 4]);
}

#[test]
fn reshape_and_transpose_are_metadata_operations() {
    let a = Array::from_vec(vec![2, 3], (0_i64..6).collect()).unwrap();

    let reshaped = a.reshape(&[3, -1]).unwrap();
    assert_eq!(reshaped.shape(), &[3, 2]);
    assert_eq!(reshaped.to_vec().unwrap(), vec![0, 1, 2, 3, 4, 5]);

    let transposed = a.transpose();
    assert_eq!(transposed.shape(), &[3, 2]);
    assert_eq!(transposed.strides(), &[1, 3]);
    assert_eq!(transposed.to_vec().unwrap(), vec![0, 3, 1, 4, 2, 5]);

    let expanded = a.expand_dims(1).unwrap();
    assert_eq!(expanded.shape(), &[2, 1, 3]);
    assert_eq!(expanded.strides(), &[3, 0, 1]);
    assert_eq!(expanded.squeeze(None).unwrap().shape(), &[2, 3]);
    assert_eq!(expanded.squeeze(Some(1)).unwrap().shape(), &[2, 3]);

    let raveled = a.ravel().unwrap();
    assert_eq!(raveled.shape(), &[6]);
    assert_eq!(raveled.to_vec().unwrap(), vec![0, 1, 2, 3, 4, 5]);
}

#[test]
fn rejects_zero_copy_reshape_for_non_contiguous_views() {
    let a = Array::from_vec(vec![2, 3], (0_i64..6).collect()).unwrap();
    let transposed = a.transpose();
    let err = transposed.reshape(&[6]).unwrap_err();
    assert!(matches!(err, NumRsError::NonContiguousReshape { .. }));
}

#[test]
fn supports_bool_broadcast_kernels() {
    let a = Array::from_vec(vec![2, 1], vec![true, false]).unwrap();
    let b = Array::from_vec(vec![1, 3], vec![true, false, true]).unwrap();

    let anded = a.logical_and(&b).unwrap();
    assert_eq!(anded.shape(), &[2, 3]);
    assert_eq!(anded.as_slice(), &[true, false, true, false, false, false]);

    let not = anded.logical_not().unwrap();
    assert_eq!(not.as_slice(), &[false, true, false, true, true, true]);
}

#[test]
fn performs_numpy_style_matmul() {
    let left = Array::from_vec(vec![3], vec![1_i64, 2, 3]).unwrap();
    let right = Array::from_vec(vec![3], vec![4_i64, 5, 6]).unwrap();
    let out = left.matmul(&right).unwrap();
    assert_eq!(out.shape(), &[]);
    assert_eq!(out.as_slice(), &[32]);

    let matrix = Array::from_vec(vec![2, 3], vec![1_i64, 2, 3, 4, 5, 6]).unwrap();
    let vector = Array::from_vec(vec![3], vec![7_i64, 8, 9]).unwrap();
    let out = matrix.matmul(&vector).unwrap();
    assert_eq!(out.shape(), &[2]);
    assert_eq!(out.as_slice(), &[50, 122]);

    let vector = Array::from_vec(vec![2], vec![7_i64, 8]).unwrap();
    let matrix = Array::from_vec(vec![2, 3], vec![1_i64, 2, 3, 4, 5, 6]).unwrap();
    let out = vector.matmul(&matrix).unwrap();
    assert_eq!(out.shape(), &[3]);
    assert_eq!(out.as_slice(), &[39, 54, 69]);

    let batched_left =
        Array::from_vec(vec![2, 2, 3], vec![1_i64, 2, 3, 4, 5, 6, 2, 0, 1, 3, 1, 4]).unwrap();
    let batched_right = Array::from_vec(
        vec![2, 3, 2],
        vec![7_i64, 8, 9, 10, 11, 12, 1, 2, 3, 4, 5, 6],
    )
    .unwrap();
    let out = batched_left.matmul(&batched_right).unwrap();
    assert_eq!(out.shape(), &[2, 2, 2]);
    assert_eq!(out.as_slice(), &[58, 64, 139, 154, 7, 10, 26, 34]);

    let broadcasted_right = Array::from_vec(vec![1, 3, 2], vec![7_i64, 8, 9, 10, 11, 12]).unwrap();
    let out = batched_left.matmul(&broadcasted_right).unwrap();
    assert_eq!(out.shape(), &[2, 2, 2]);
    assert_eq!(out.as_slice(), &[58, 64, 139, 154, 25, 28, 74, 82]);

    let err = Array::from_vec(vec![], vec![1_i64])
        .unwrap()
        .matmul(&right)
        .unwrap_err();
    assert!(matches!(err, NumRsError::InvalidShape(_)));
}

#[test]
fn performs_numpy_style_tensordot() {
    let left = Array::from_vec(vec![2, 3], (0_i64..6).collect()).unwrap();
    let right = Array::from_vec(vec![3, 4], (0_i64..12).collect()).unwrap();
    let out = left.tensordot_axes(&right, &[1], &[0]).unwrap();
    assert_eq!(out.shape(), &[2, 4]);
    assert_eq!(out.as_slice(), &[20, 23, 26, 29, 56, 68, 80, 92]);

    let left = Array::from_vec(vec![2, 3, 4], (0_i64..24).collect()).unwrap();
    let right = Array::from_vec(vec![3, 2, 5], (0_i64..30).collect()).unwrap();
    let out = left.tensordot_axes(&right, &[1, 0], &[0, 1]).unwrap();
    assert_eq!(out.shape(), &[4, 5]);
    assert_eq!(
        out.as_slice(),
        &[
            1000, 1060, 1120, 1180, 1240, 1075, 1141, 1207, 1273, 1339, 1150, 1222, 1294, 1366,
            1438, 1225, 1303, 1381, 1459, 1537
        ]
    );

    let err = left.tensordot_axes(&right, &[1, 1], &[0, 1]).unwrap_err();
    assert!(matches!(err, NumRsError::DuplicateAxis(1)));

    let err = left.tensordot_axes(&right, &[2], &[2]).unwrap_err();
    assert!(matches!(err, NumRsError::DotShapeMismatch { .. }));
}

#[test]
fn returns_clear_shape_errors() {
    let bad = Array::from_vec(vec![2, 2], vec![1_i64, 2, 3]).unwrap_err();
    assert!(matches!(
        bad,
        NumRsError::ShapeDataMismatch {
            expected: 4,
            actual: 3,
            ..
        }
    ));

    let a = Array::from_vec(vec![2, 3], vec![1_i64, 2, 3, 4, 5, 6]).unwrap();
    let b = Array::from_vec(vec![4], vec![1_i64, 2, 3, 4]).unwrap();
    assert!(matches!(
        a.add(&b).unwrap_err(),
        NumRsError::BroadcastMismatch { .. }
    ));
}

#[test]
fn integer_division_truncates_toward_zero_with_broadcasting() {
    let a = Array::from_vec(vec![2, 2], vec![7_i64, -7, 9, -9]).unwrap();
    let b = Array::from_vec(vec![2], vec![2_i64, 4]).unwrap();
    let q = a.div(&b).unwrap();
    assert_eq!(q.shape(), &[2, 2]);
    assert_eq!(q.as_slice(), &[3, -1, 4, -2]);
    let q = a.view().div(&b.view()).unwrap();
    assert_eq!(q.as_slice(), &[3, -1, 4, -2]);
    let mut c = Array::from_vec(vec![3], vec![10_u8, 20, 30]).unwrap();
    c.div_assign(&Array::from_vec(vec![1], vec![3_u8]).unwrap()).unwrap();
    assert_eq!(c.as_slice(), &[3, 6, 10]);
    let bad = Array::from_vec(vec![2], vec![1_u8, 2]).unwrap();
    assert!(c.div_assign(&bad).is_err());
    assert_eq!(c.as_slice(), &[3, 6, 10]);
}

#[test]
fn shape_errors_carry_readable_messages() {
    let a = Array::from_vec(vec![2, 2], vec![1_i64, 2, 3, 4]).unwrap();
    let err = a.tensordot_axes(&a, &[0], &[0, 1]).unwrap_err();
    assert_eq!(err, NumRsError::InvalidShape("tensordot expected equal axes lengths, got 1 and 2".to_string()));
    let err = resolve_shape(&[-2, 2], 4).unwrap_err();
    assert_eq!(err, NumRsError::InvalidShape("negative dimension -2 at axis 0".to_string()));
    let err = resolve_shape(&[-1, 3], 4).unwrap_err();
    assert_eq!(err, NumRsError::InvalidShape("cannot reshape 4 elements with known product 3".to_string()));
    let scalar = Array::from_vec(vec![], vec![5_i64]).unwrap();
    let err = scalar.matmul(&a).unwrap_err();
    assert_eq!(err, NumRsError::InvalidShape("matmul does not accept scalar operands, got [] and [2, 2]".to_string()));
    let mut b = a.clone();
    let err = b.put(&[0], &[]).unwrap_err();
    assert!(matches!(err, NumRsError::InvalidShape(_)));
}

#[test]
fn supports_fancy_indexing_take_and_boolean_masks() {
    let a = Array::from_vec(vec![3, 4], (0_i64..12).collect()).unwrap();

    let flat = a.take(&[0, -1, 5]).unwrap();
    assert_eq!(flat.shape(), &[3]);
    assert_eq!(flat.as_slice(), &[0, 11, 5]);

    let rows = a.take_axis(&[2, 0], 0).unwrap();
    assert_eq!(rows.shape(), &[2, 4]);
    assert_eq!(rows.as_slice(), &[8, 9, 10, 11, 0, 1, 2, 3]);

    let cols = a.take_axis(&[-1, 1], 1).unwrap();
    assert_eq!(cols.shape(), &[3, 2]);
    assert_eq!(cols.as_slice(), &[3, 1, 7, 5, 11, 9]);

    let identity = a.take_axis(&[0, 1, 2], 0).unwrap();
    assert_eq!(identity.shape(), &[3, 4]);
    assert_eq!(identity.as_slice(), a.as_slice());

    let mask = Array::from_vec(
        vec![3, 4],
        vec![
            true, false, false, true, false, true, false, false, true, false, true, false,
        ],
    )
    .unwrap();
    let filtered = a.boolean_mask(&mask).unwrap();
    assert_eq!(filtered.shape(), &[5]);
    assert_eq!(filtered.as_slice(), &[0, 3, 5, 8, 10]);

    let mut writable = Array::from_vec(vec![6], vec![0_i64; 6]).unwrap();
    writable.put(&[0, -1, 2], &[10, 20, 30]).unwrap();
    assert_eq!(writable.as_slice(), &[10, 0, 30, 0, 0, 20]);

    let mask = Array::from_vec(vec![6], vec![false, true, true, false, true, false]).unwrap();
    writable.putmask(&mask, &[7]).unwrap();
    assert_eq!(writable.as_slice(), &[10, 7, 7, 0, 7, 20]);

    writable
        .putmask(&Array::full(vec![6], false).unwrap(), &[])
        .unwrap();
    assert_eq!(writable.as_slice(), &[10, 7, 7, 0, 7, 20]);
    writable
        .putmask(&Array::full(vec![6], true).unwrap(), &[3])
        .unwrap();
    assert_eq!(writable.as_slice(), &[3, 3, 3, 3, 3, 3]);
    assert_eq!(writable.argmax().unwrap(), 0);

    // the accumulation kernels hold integers here: the library keeps no floats
    let mut accum = Array::from_vec(vec![3], vec![0_i64, 0, 0]).unwrap();
    accum.add_at(&[0, 2, 0, -1], &[1, 2, 3, 4]).unwrap();
    assert_eq!(accum.as_slice(), &[4, 0, 6]);
    accum.maximum_at(&[0, 1, 2], &[2, 9, 1]).unwrap();
    assert_eq!(accum.as_slice(), &[4, 9, 6]);
}

#[test]
fn casts_arrays_between_supported_dtypes() {
    // integer targets stand in for the float ones: the library keeps no floats
    let ints = Array::from_vec(vec![3], vec![1_i64, 2, 3]).unwrap();
    let wide = ints.astype::<i64>().unwrap();
    assert_eq!(wide.dtype(), DTypeKind::I64);
    assert_eq!(wide.as_slice(), &[1, 2, 3]);

    let bools = Array::from_vec(vec![2], vec![true, false]).unwrap();
    let ints = bools.astype::<i32>().unwrap();
    assert_eq!(ints.as_slice(), &[1, 0]);

    let values = Array::from_vec(vec![3], vec![0_i64, -2, 3]).unwrap();
    let truth = values.astype::<bool>().unwrap();
    assert_eq!(truth.as_slice(), &[false, true, true]);

    let matrix = Array::from_vec(vec![2, 3], vec![0_i32, 1, 2, 3, 4, 5]).unwrap();
    let transposed = matrix.transpose();
    let cast = transposed.astype::<i64>().unwrap();
    assert_eq!(cast.shape(), &[3, 2]);
    assert_eq!(cast.as_slice(), &[0, 3, 1, 4, 2, 5]);
}

#[test]
fn take_axis_reports_the_first_bad_index() {
    let a = Array::from_vec(vec![3, 4], (0_i64..12).collect()).unwrap();
    assert_eq!(
        a.take_axis(&[1, 7, -9], 1).unwrap_err(),
        NumRsError::IndexOutOfBounds { axis: 1, index: 7, len: 4 }
    );
    assert_eq!(a.take_axis(&[0], 2).unwrap_err(), NumRsError::AxisOutOfBounds { axis: 2, ndim: 2 });
    let none = a.take_axis(&[], 0).unwrap();
    assert_eq!(none.shape(), &[0, 4]);
}

#[test]
fn error_messages_read_like_display() {
    let err = Array::from_vec(vec![2, 2], vec![1_i64, 2, 3]).unwrap_err();
    assert_eq!(err.message(), "shape [2, 2] expects 4 elements, got 3");
    assert_eq!(NumRsError::ShapeOverflow.message(), "shape size overflow");
    assert_eq!(NumRsError::InvalidShape("bad".to_string()).message(), "invalid shape: bad");
    assert_eq!(
        NumRsError::IndexOutOfBounds { axis: 1, index: -7, len: 4 }.message(),
        "index -7 out of bounds for axis 1 with len 4"
    );
    assert_eq!(NumRsError::AxisOutOfBounds { axis: -3, ndim: 2 }.message(), "axis -3 out of bounds for ndim 2");
    assert_eq!(
        NumRsError::NonContiguousReshape { shape: vec![2, 3], strides: vec![1, -2] }.message(),
        "cannot zero-copy reshape non-contiguous layout shape=[2, 3], strides=[1, -2]"
    );
    assert_eq!(
        NumRsError::DotShapeMismatch { left: vec![], right: vec![10] }.message(),
        "2-D dot shape mismatch: [] x [10]"
    );
    assert_eq!(
        NumRsError::BooleanMaskShapeMismatch { array: vec![3], mask: vec![4] }.message(),
        "boolean mask shape [4] does not match array shape [3]"
    );
}

#[test]
fn shape_and_update_errors_name_their_values() {
    let shaped = |m: &str| NumRsError::InvalidShape(m.to_string());
    assert_eq!(resolve_shape(&[-1, -1], 4).unwrap_err(), shaped("only one inferred dimension is allowed"));
    assert_eq!(resolve_shape(&[0, -1], 4).unwrap_err(), shaped("cannot infer dimension when known product is zero"));
    assert_eq!(resolve_shape(&[2, 3], 5).unwrap_err(), shaped("shape [2, 3] has 6 elements, expected 5"));
    assert_eq!(resolve_shape(&[-3, -1, -1], 4).unwrap_err(), shaped("negative dimension -3 at axis 0"));
    assert_eq!(resolve_shape(&[isize::MAX, isize::MAX, -5], 4).unwrap_err(), NumRsError::ShapeOverflow);

    let a = Array::from_vec(vec![2, 3], (0_i64..6).collect()).unwrap();
    assert_eq!(a.reshape_exact(&[4, 2]).unwrap_err(), shaped("shape [4, 2] has 8 elements, expected 6"));
    assert_eq!(a.reshape_exact(&[usize::MAX, 2]).unwrap_err(), NumRsError::ShapeOverflow);
    let t = a.transpose();
    assert_eq!(
        t.ravel().unwrap_err(),
        NumRsError::NonContiguousReshape { shape: vec![3, 2], strides: vec![1, 3] }
    );
    assert_eq!(
        a.slice(&[Slice::Range { start: None, end: None, step: 0 }]).unwrap_err(),
        NumRsError::InvalidSlice("slice step cannot be zero".to_string())
    );
    assert_eq!(
        a.slice(&[Slice::All, Slice::Index(3)]).unwrap_err(),
        NumRsError::IndexOutOfBounds { axis: 1, index: 3, len: 3 }
    );

    let mut b = a.clone();
    assert_eq!(b.put(&[0], &[]).unwrap_err(), shaped("put values cannot be empty when indices are non-empty"));
    let all = Array::full(vec![2, 3], true).unwrap();
    assert_eq!(b.putmask(&all, &[]).unwrap_err(), shaped("putmask values cannot be empty when mask selects values"));
    assert_eq!(b.add_at(&[0, 1], &[1]).unwrap_err(), shaped("add_at expected 2 values, got 1"));
    assert_eq!(b.maximum_at(&[0], &[1, 2]).unwrap_err(), shaped("maximum_at expected 1 values, got 2"));
    assert_eq!(b.as_slice(), a.as_slice());
}

#[test]
fn layout_errors_name_the_offending_entry() {
    let a = Array::from_vec(vec![2, 3], (0_i64..6).collect()).unwrap();
    assert_eq!(a.permute_axes(&[0]).unwrap_err(), NumRsError::IndexRankMismatch { expected: 2, actual: 1 });
    assert_eq!(a.permute_axes(&[5, 0]).unwrap_err(), NumRsError::AxisOutOfBounds { axis: 5, ndim: 2 });
    assert_eq!(a.permute_axes(&[1, 1]).unwrap_err(), NumRsError::DuplicateAxis(1));
    assert_eq!(
        a.broadcast_to(&[4]).unwrap_err(),
        NumRsError::BroadcastMismatch { left: vec![2, 3], right: vec![4] }
    );
}

#[test]
fn transposes_empty_views_with_large_dimensions() {
    let big: usize = 1 << 40;
    let a = Array::<i64>::from_vec(vec![0, big, big], vec![]).unwrap();
    assert_eq!(a.strides(), &[isize::MAX, 1 << 40, 1]);
    let t = a.transpose();
    assert_eq!(t.shape(), &[big, big, 0]);
    assert_eq!(t.strides(), &[1, 1 << 40, isize::MAX]);
    let back = t.transpose();
    assert_eq!(back.shape(), a.shape());
    assert_eq!(back.strides(), a.strides());
    assert_eq!(back.offset(), 0);
    let wide = t.broadcast_to(&[3, big, big, 0]).unwrap();
    assert_eq!(wide.shape(), &[3, big, big, 0]);
    assert_eq!(t.broadcast_to(&[big, big, 1]).unwrap_err(), NumRsError::BroadcastMismatch { left: vec![big, big, 0], right: vec![big, big, 1] });
}
