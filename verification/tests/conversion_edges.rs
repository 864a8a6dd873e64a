use pg_array::{non_rectangular_error, shape_mismatch_error, wrong_dim_error};
use pg_array::{NdArray, Vec2, Vec3};

#[test]
fn error_messages_render_counts() {
    assert_eq!(
        shape_mismatch_error(2, 3),
        "shape mismatch: expected 2 elements, got 3"
    );
    assert_eq!(wrong_dim_error(2, 3), "expected 2 dimensions, got 3");
    assert_eq!(wrong_dim_error(0, 10), "expected 0 dimensions, got 10");
    assert_eq!(
        shape_mismatch_error(1234567890, 0),
        "shape mismatch: expected 1234567890 elements, got 0"
    );
    assert_eq!(
        shape_mismatch_error(usize::MAX, 7),
        format!("shape mismatch: expected {} elements, got 7", usize::MAX)
    );
    assert_eq!(non_rectangular_error(), "non-rectangular nested vector");
}

#[test]
fn ndarray_to_vec2_overflowing_count_reports_true_count() {
    let nd: NdArray<u8> = NdArray {
        dims: vec![usize::MAX, 2],
        data: vec![1, 2],
    };
    let err = Vec2::try_from(nd).unwrap_err();
    let expected = (usize::MAX as u128) * 2;
    assert_eq!(
        err,
        format!("shape mismatch: expected {} elements, got 2", expected)
    );
}

#[test]
fn ndarray_to_vec3_overflowing_count_reports_true_count() {
    let nd: NdArray<u8> = NdArray {
        dims: vec![1 << 40, 1 << 40, 1 << 40],
        data: vec![],
    };
    let err = Vec3::try_from(nd).unwrap_err();
    assert_eq!(
        err,
        "shape mismatch: expected 1329227995784915872903807060280344576 elements, got 0"
    );
}

#[test]
fn ndarray_without_elements_gives_empty_nested_vectors() {
    let nd: NdArray<i32> = NdArray {
        dims: vec![3, 0],
        data: vec![],
    };
    assert_eq!(Vec2::try_from(nd).unwrap().0, Vec::<Vec<i32>>::new());

    let nd: NdArray<i32> = NdArray {
        dims: vec![0, 4, 5],
        data: vec![],
    };
    assert_eq!(Vec3::try_from(nd).unwrap().0, Vec::<Vec<Vec<i32>>>::new());
}

#[test]
fn empty_rows_flatten_to_zero_columns() {
    let v: Vec2<i32> = Vec2(vec![vec![], vec![]]);
    let nd = NdArray::try_from(v).unwrap();
    assert_eq!(nd.dims, vec![2, 0]);
    assert!(nd.data.is_empty());

    let v: Vec2<i32> = Vec2(vec![]);
    let nd = NdArray::try_from(v).unwrap();
    assert_eq!(nd.dims, vec![0, 0]);
}

#[test]
fn planes_with_zero_extent_hold_no_elements() {
    // The extents come from the first plane and its first row; when their
    // product is zero the other planes are not looked at.
    let v = Vec3(vec![vec![], vec![vec![1]]]);
    let nd = NdArray::try_from(v).unwrap();
    assert_eq!(nd.dims, vec![2, 0, 0]);
    assert!(nd.data.is_empty());

    let v = Vec3(vec![vec![vec![]], vec![vec![1, 2]]]);
    let nd = NdArray::try_from(v).unwrap();
    assert_eq!(nd.dims, vec![2, 1, 0]);
    assert!(nd.data.is_empty());
}

#[test]
fn box_shaped_planes_with_zero_extent_have_no_elements() {
    let v: Vec3<i32> = Vec3(vec![vec![], vec![]]);
    let nd = NdArray::try_from(v).unwrap();
    assert_eq!(nd.dims, vec![2, 0, 0]);
    assert!(nd.data.is_empty());

    let v: Vec3<i32> = Vec3(vec![vec![vec![], vec![]], vec![vec![], vec![]]]);
    let nd = NdArray::try_from(v).unwrap();
    assert_eq!(nd.dims, vec![2, 2, 0]);
    assert!(nd.data.is_empty());
}

#[test]
fn lookup_with_zero_extent_finds_nothing() {
    let nd: NdArray<i32> = NdArray {
        dims: vec![2, 0, 5],
        data: vec![],
    };
    assert_eq!(nd.get(&[1, 0, 0]), None);
    assert_eq!(nd.get(&[3, 0, 0]), None);
}

#[test]
fn jagged_planes_are_refused() {
    let v = Vec3(vec![vec![vec![1], vec![2]], vec![vec![3]]]);
    assert_eq!(NdArray::try_from(v).unwrap_err(), non_rectangular_error());
}

#[test]
fn vec2_roundtrip_through_ndarray() {
    let rows = vec![vec!['a', 'b'], vec!['c', 'd'], vec!['e', 'f']];
    let nd = NdArray::try_from(Vec2(rows.clone())).unwrap();
    assert_eq!(nd.get(&[2, 1]), Some(&'f'));
    assert_eq!(nd.get(&[1, 0]), Some(&'c'));
    let back = Vec2::try_from(nd).unwrap();
    assert_eq!(back.0, rows);
}

#[test]
fn vec3_roundtrip_through_ndarray() {
    let planes = vec![
        vec![vec![1, 2, 3], vec![4, 5, 6]],
        vec![vec![7, 8, 9], vec![10, 11, 12]],
    ];
    let nd = NdArray::try_from(Vec3(planes.clone())).unwrap();
    assert_eq!(nd.dims, vec![2, 2, 3]);
    assert_eq!(nd.get(&[1, 0, 2]), Some(&9));
    let back = Vec3::try_from(nd).unwrap();
    assert_eq!(back.0, planes);
}

#[test]
fn ndarray_roundtrip_through_vec2() {
    let nd = NdArray {
        dims: vec![3, 2],
        data: vec![1u8, 2, 3, 4, 5, 6],
    };
    let v = Vec2::try_from(nd.clone()).unwrap();
    assert_eq!(NdArray::try_from(v).unwrap(), nd);
}

#[test]
fn from_wraps_and_unwraps() {
    let rows = vec![vec![1, 2], vec![3, 4]];
    let v: Vec2<i32> = Vec2::from(rows.clone());
    assert_eq!(v.0, rows);
    let back: Vec<Vec<i32>> = v.into();
    assert_eq!(back, rows);

    let planes = vec![vec![vec![1]], vec![vec![2]]];
    let v: Vec3<i32> = Vec3::from(planes.clone());
    let back: Vec<Vec<Vec<i32>>> = Vec::from(v);
    assert_eq!(back, planes);
}

#[test]
fn get_on_short_data_is_none() {
    let nd = NdArray {
        dims: vec![2, 2],
        data: vec![1, 2, 3],
    };
    assert_eq!(nd.get(&[1, 0]), Some(&3));
    assert_eq!(nd.get(&[1, 1]), None);
}

#[test]
fn get_on_zero_dimensional_array() {
    let nd: NdArray<i32> = NdArray {
        dims: vec![],
        data: vec![7],
    };
    assert_eq!(nd.get(&[]), Some(&7));
    let nd: NdArray<i32> = NdArray {
        dims: vec![],
        data: vec![],
    };
    assert_eq!(nd.get(&[]), None);
}

#[test]
fn messages_tell_counts_apart() {
    assert_ne!(shape_mismatch_error(1, 23), shape_mismatch_error(12, 3));
    assert_ne!(wrong_dim_error(1, 23), wrong_dim_error(12, 3));
    assert_ne!(shape_mismatch_error(2, 3), wrong_dim_error(2, 3));
    assert_ne!(wrong_dim_error(0, 0), non_rectangular_error());
}
