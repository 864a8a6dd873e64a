use pg_array::{non_rectangular_error, shape_mismatch_error, wrong_dim_error};
use pg_array::{NdArray, Vec2, Vec3};

#[test]
fn vec2_to_ndarray() {
    let v = Vec2(vec![vec![1, 2, 3, 4, 5, 6]]);
    let nd = NdArray::try_from(v).unwrap();

    assert_eq!(nd.dims, vec![1, 6]);
    assert_eq!(nd.data, vec![1, 2, 3, 4, 5, 6]);

    let v = Vec2(vec![vec![1, 2, 3], vec![4, 5, 6]]);
    let nd = NdArray::try_from(v).unwrap();

    assert_eq!(nd.dims, vec![2, 3]);
    assert_eq!(nd.data, vec![1, 2, 3, 4, 5, 6]);
}

#[test]
fn ndarray_to_vec2() {
    let nd = NdArray {
        dims: vec![2, 3],
        data: vec![1, 2, 3, 4, 5, 6],
    };
    let v = Vec2::try_from(nd).unwrap();

    assert_eq!(v.0, vec![vec![1, 2, 3], vec![4, 5, 6]]);

    let nd = NdArray {
        dims: vec![1, 6],
        data: vec![1, 2, 3, 4, 5, 6],
    };
    let v = Vec2::try_from(nd).unwrap();

    assert_eq!(v.0, vec![vec![1, 2, 3, 4, 5, 6]]);
}

#[test]
fn bad_ndarray_to_vec2() {
    let nd = NdArray {
        dims: vec![1, 2],
        data: vec![1, 2, 3],
    };
    let err = Vec2::try_from(nd).unwrap_err();

    assert_eq!(err.to_string(), shape_mismatch_error(2, 3));

    let nd = NdArray {
        dims: vec![1, 3, 1],
        data: vec![vec![vec![1], vec![2], vec![3]]],
    };
    let err = Vec2::try_from(nd).unwrap_err();

    assert_eq!(err.to_string(), wrong_dim_error(2, 3));
}

#[test]
fn jagged_vec2_to_ndarray() {
    let v = Vec2(vec![vec![1], vec![2, 3]]);
    let err = NdArray::try_from(v).unwrap_err();

    assert_eq!(err.to_string(), non_rectangular_error());
}

#[test]
fn vec3_to_ndarray() {
    let v = Vec3(vec![vec![vec![1, 2, 3, 4, 5, 6]]]);
    let nd = NdArray::try_from(v).unwrap();
    assert_eq!(nd.dims, vec![1, 1, 6]);
    assert_eq!(nd.data, vec![1, 2, 3, 4, 5, 6]);

    let v = Vec3(vec![vec![vec![1, 2, 3], vec![4, 5, 6]]]);
    let nd = NdArray::try_from(v).unwrap();
    assert_eq!(nd.dims, vec![1, 2, 3]);
    assert_eq!(nd.data, vec![1, 2, 3, 4, 5, 6]);

    let v = Vec3(vec![vec![vec![1, 2], vec![2, 3], vec![3, 4]]]);
    let nd = NdArray::try_from(v).unwrap();
    assert_eq!(nd.dims, vec![1, 3, 2]);
    assert_eq!(nd.data, vec![1, 2, 2, 3, 3, 4]);
}

#[test]
fn ndarray_to_vec3() {
    let nd = NdArray {
        dims: vec![1, 2, 3],
        data: vec![1, 2, 3, 4, 5, 6],
    };
    let v = Vec3::try_from(nd).unwrap();
    assert_eq!(v.0, vec![vec![vec![1, 2, 3], vec![4, 5, 6]]]);

    let nd = NdArray {
        dims: vec![1, 6, 1],
        data: vec![1, 2, 3, 4, 5, 6],
    };
    let v = Vec3::try_from(nd).unwrap();
    assert_eq!(
        v.0,
        vec![vec![vec![1], vec![2], vec![3], vec![4], vec![5], vec![6]]]
    );
}

#[test]
fn bad_ndarray_to_vec3() {
    let nd = NdArray {
        dims: vec![1, 2, 1],
        data: vec![1, 2, 3],
    };
    let err = Vec3::try_from(nd).unwrap_err();

    assert_eq!(err.to_string(), shape_mismatch_error(2, 3));

    let nd = NdArray {
        dims: vec![1, 3],
        data: vec![vec![vec![1], vec![2]]],
    };
    let err = Vec3::try_from(nd).unwrap_err();

    assert_eq!(err.to_string(), wrong_dim_error(3, 2));
}

#[test]
fn jagged_vec3_to_ndarray() {
    let v = Vec3(vec![vec![vec![1]], vec![vec![2, 3]]]);
    let err = NdArray::try_from(v).unwrap_err();

    assert_eq!(err.to_string(), non_rectangular_error());
}

#[test]
fn test_ndarray_get_2d() {
    let nd = NdArray {
        dims: vec![2, 3],
        data: vec![1, 2, 3, 4, 5, 6],
    };

    assert_eq!(nd.get(&[0, 0]), Some(&1));
    assert_eq!(nd.get(&[0, 1]), Some(&2));
    assert_eq!(nd.get(&[0, 2]), Some(&3));
    assert_eq!(nd.get(&[1, 0]), Some(&4));
    assert_eq!(nd.get(&[1, 1]), Some(&5));
    assert_eq!(nd.get(&[1, 2]), Some(&6));

    // out of bounds
    assert_eq!(nd.get(&[2, 0]), None);
    assert_eq!(nd.get(&[0, 3]), None);

    // wrong number of indices
    assert_eq!(nd.get(&[0]), None);
    assert_eq!(nd.get(&[0, 0, 0]), None);
}

#[test]
fn test_ndarray_get_3d() {
    let nd = NdArray {
        dims: vec![2, 3, 2],
        data: vec![1, 2, 3, 4, 5, 6, 7, 8, 9, 10, 11, 12],
    };

    assert_eq!(nd.get(&[0, 0, 0]), Some(&1));
    assert_eq!(nd.get(&[0, 0, 1]), Some(&2));
    assert_eq!(nd.get(&[0, 1, 1]), Some(&4));
    assert_eq!(nd.get(&[0, 2, 0]), Some(&5));
    assert_eq!(nd.get(&[1, 0, 0]), Some(&7));
    assert_eq!(nd.get(&[1, 2, 1]), Some(&12));

    // out of bounds
    assert_eq!(nd.get(&[2, 0, 1]), None);
    assert_eq!(nd.get(&[0, 3, 1]), None);

    // wrong number of indices
    assert_eq!(nd.get(&[0, 0]), None);
}

#[test]
fn test_ndarray_get_5d() {
    let nd = NdArray {
        dims: vec![1, 3, 2, 2, 1],
        data: vec![1, 2, 3, 4, 5, 6, 7, 8, 9, 10, 11, 12],
    };

    assert_eq!(nd.get(&[0, 0, 0, 1, 0]), Some(&2));
    assert_eq!(nd.get(&[0, 0, 1, 1, 0]), Some(&4));
    assert_eq!(nd.get(&[0, 2, 1, 0, 0]), Some(&11));

    // out of bounds
    assert_eq!(nd.get(&[2, 0, 1, 0, 0]), None);
    assert_eq!(nd.get(&[0, 3, 1, 1, 0]), None);

    // wrong number of indices
    assert_eq!(nd.get(&[0, 0]), None);
    assert_eq!(nd.get(&[0, 0, 0]), None);
    assert_eq!(nd.get(&[0, 0, 0, 0, 0, 0]), None);
}
