use pg_array::{
    array_to_sql, array_type_metadata, try_decode_vec, vec_from_sql, vec_to_sql, ArrayDecodeError,
    DecodeStop, NdArray, NestedFromSqlError, PgTypeOids, Vec2, Vec3,
};

fn word(n: i32) -> Vec<u8> {
    n.to_be_bytes().to_vec()
}

fn header(ndims: i32, flags: i32, oid: i32) -> Vec<u8> {
    let mut b = word(ndims);
    b.extend(word(flags));
    b.extend(word(oid));
    b
}

#[test]
fn encode_writes_big_endian_header_and_elements() {
    let elems = vec![Some(vec![0xAA, 0xBB]), None, Some(vec![])];
    let mut out = Vec::new();
    array_to_sql(&elems, 23, &mut out).unwrap();
    let expected: Vec<u8> = vec![
        0, 0, 0, 1, // one dimension
        0, 0, 0, 0, // no NULL flag
        0, 0, 0, 23, // element oid
        0, 0, 0, 3, // three elements
        0, 0, 0, 1, // lower bound
        0, 0, 0, 2, 0xAA, 0xBB, // first element
        0xFF, 0xFF, 0xFF, 0xFF, // NULL
        0, 0, 0, 0, // empty element
    ];
    assert_eq!(out, expected);
}

#[test]
fn encode_appends_to_existing_output() {
    let mut out = vec![9u8];
    array_to_sql(&[], 0x0102_0304, &mut out).unwrap();
    assert_eq!(
        out,
        vec![9, 0, 0, 0, 1, 0, 0, 0, 0, 1, 2, 3, 4, 0, 0, 0, 0, 0, 0, 0, 1]
    );
}

#[test]
fn decode_encode_roundtrip_without_nulls() {
    let elems = vec![Some(vec![1, 2, 3]), Some(vec![]), Some(vec![0xFF; 300])];
    let mut out = Vec::new();
    array_to_sql(&elems, 25, &mut out).unwrap();
    assert_eq!(vec_from_sql(&out), Ok(elems));
}

#[test]
fn decode_of_encoded_null_is_invalid_size() {
    let elems = vec![Some(vec![1]), None];
    let mut out = Vec::new();
    array_to_sql(&elems, 25, &mut out).unwrap();
    assert_eq!(
        vec_from_sql(&out),
        Err(ArrayDecodeError::InvalidElementSize)
    );
}

#[test]
fn decode_with_null_flag_reads_nulls() {
    let mut b = header(1, 1, 23);
    b.extend(word(2));
    b.extend(word(1));
    b.extend(word(-1));
    b.extend(word(1));
    b.push(0x42);
    assert_eq!(vec_from_sql(&b), Ok(vec![None, Some(vec![0x42])]));
}

#[test]
fn decode_zero_dimensions_is_empty() {
    let b = header(0, 0, 23);
    assert_eq!(vec_from_sql(&b), Ok(vec![]));
    let nd = NdArray::<Option<Vec<u8>>>::from_sql(&b).unwrap();
    assert!(nd.dims.is_empty());
    assert!(nd.data.is_empty());
}

#[test]
fn decode_errors() {
    assert_eq!(vec_from_sql(&[0, 0, 0]), Err(ArrayDecodeError::UnexpectedEof));
    assert_eq!(
        vec_from_sql(&header(1, 0, 23)),
        Err(ArrayDecodeError::UnexpectedEof)
    );
    let mut b = header(2, 0, 23);
    b.extend(word(1));
    b.extend(word(1));
    assert_eq!(vec_from_sql(&b), Err(ArrayDecodeError::MultiDimensional));

    let mut b = header(1, 0, 23);
    b.extend(word(1));
    b.extend(word(1));
    b.extend(word(-5));
    assert_eq!(vec_from_sql(&b), Err(ArrayDecodeError::InvalidElementSize));

    let mut b = header(1, 0, 23);
    b.extend(word(2));
    b.extend(word(1));
    b.extend(word(0));
    assert_eq!(vec_from_sql(&b), Err(ArrayDecodeError::UnexpectedEof));
}

#[test]
fn negative_count_reads_no_elements() {
    let mut b = header(1, 0, 23);
    b.extend(word(-3));
    b.extend(word(1));
    assert_eq!(vec_from_sql(&b), Ok(vec![]));
}

#[test]
fn overrunning_element_is_reported_by_the_checked_decoder() {
    let mut b = header(1, 0, 23);
    b.extend(word(1));
    b.extend(word(1));
    b.extend(word(10));
    b.extend([1, 2, 3]);
    assert_eq!(try_decode_vec(&b), Err(DecodeStop::Overrun));
    assert_eq!(
        NdArray::<Option<Vec<u8>>>::try_decode(&b),
        Err(DecodeStop::Failed(ArrayDecodeError::OneDimensional))
    );
}

fn nd_bytes(dims: &[i32], flags: i32, elems: &[Option<&[u8]>]) -> Vec<u8> {
    let mut b = header(dims.len() as i32, flags, 23);
    for d in dims {
        b.extend(word(*d));
        b.extend(word(1));
    }
    for e in elems {
        match e {
            Some(bytes) => {
                b.extend(word(bytes.len() as i32));
                b.extend(bytes.iter());
            }
            None => b.extend(word(-1)),
        }
    }
    b
}

#[test]
fn decode_ndarray() {
    let b = nd_bytes(
        &[2, 3],
        1,
        &[Some(&[1]), Some(&[2]), None, Some(&[4]), Some(&[5, 5]), Some(&[6])],
    );
    let nd = NdArray::<Option<Vec<u8>>>::from_sql(&b).unwrap();
    assert_eq!(nd.dims, vec![2, 3]);
    assert_eq!(nd.get(&[0, 2]), Some(&None));
    assert_eq!(nd.get(&[1, 1]), Some(&Some(vec![5, 5])));

    let v = Vec2::<Option<Vec<u8>>>::from_sql(&b).unwrap();
    assert_eq!(v.0[1][0], Some(vec![4]));
    assert_eq!(v.0.len(), 2);

    let err = Vec3::<Option<Vec<u8>>>::from_sql(&b).unwrap_err();
    assert_eq!(
        err,
        NestedFromSqlError::Shape("expected 3 dimensions, got 2".to_string())
    );
}

#[test]
fn decode_ndarray_three_dimensions() {
    let b = nd_bytes(
        &[2, 1, 2],
        0,
        &[Some(&[1]), Some(&[2]), Some(&[3]), Some(&[4])],
    );
    let v = Vec3::<Option<Vec<u8>>>::from_sql(&b).unwrap();
    assert_eq!(
        v.0,
        vec![
            vec![vec![Some(vec![1]), Some(vec![2])]],
            vec![vec![Some(vec![3]), Some(vec![4])]]
        ]
    );
}

#[test]
fn decode_ndarray_errors() {
    let b = nd_bytes(&[3], 0, &[Some(&[1]), Some(&[2]), Some(&[3])]);
    assert_eq!(
        NdArray::<Option<Vec<u8>>>::from_sql(&b),
        Err(ArrayDecodeError::OneDimensional)
    );
    assert_eq!(
        Vec2::<Option<Vec<u8>>>::from_sql(&b),
        Err(NestedFromSqlError::Decode(ArrayDecodeError::OneDimensional))
    );
    let b = header(-2, 0, 23);
    assert_eq!(
        NdArray::<Option<Vec<u8>>>::from_sql(&b),
        Err(ArrayDecodeError::NegativeDimensionCount)
    );
    let b = nd_bytes(&[2, -1], 0, &[]);
    assert_eq!(
        NdArray::<Option<Vec<u8>>>::from_sql(&b),
        Err(ArrayDecodeError::NegativeDimensionLength)
    );
    let b = nd_bytes(&[2, 2], 0, &[Some(&[1])]);
    assert_eq!(
        NdArray::<Option<Vec<u8>>>::from_sql(&b),
        Err(ArrayDecodeError::UnexpectedEof)
    );
}

#[test]
fn dimensions_with_zero_extent_hold_no_elements() {
    let b = nd_bytes(&[2, 0, 5], 0, &[]);
    let nd = NdArray::<Option<Vec<u8>>>::from_sql(&b).unwrap();
    assert_eq!(nd.dims, vec![2, 0, 5]);
    assert!(nd.data.is_empty());
}

#[test]
fn overflowing_element_count_is_reported() {
    let big = i32::MAX;
    let b = nd_bytes(&[big, big, big], 0, &[]);
    let r = NdArray::<Option<Vec<u8>>>::try_decode(&b);
    if usize::BITS == 64 {
        assert_eq!(r, Err(DecodeStop::CountOverflow));
    }
}

#[test]
fn error_messages() {
    assert_eq!(
        ArrayDecodeError::MultiDimensional.message(),
        "multi-dimensional arrays are not supported"
    );
    assert_eq!(
        ArrayDecodeError::OneDimensional.message(),
        "trying to deserialize one-dimensional postgres array into NdArray<T>, use Vec<T> instead"
    );
    assert_eq!(
        ArrayDecodeError::NegativeDimensionCount.message(),
        "number of dimensions must be positive"
    );
    assert_eq!(
        ArrayDecodeError::NegativeDimensionLength.message(),
        "array dimension length must be positive"
    );
}

#[test]
fn array_type_uses_element_array_oid() {
    let elem: Result<PgTypeOids, String> = Ok(PgTypeOids {
        oid: 23,
        array_oid: 1007,
    });
    assert_eq!(
        array_type_metadata(elem),
        Ok(PgTypeOids {
            oid: 1007,
            array_oid: 0
        })
    );
    let missing: Result<PgTypeOids, String> = Err("unknown type".to_string());
    assert_eq!(array_type_metadata(missing), Err("unknown type".to_string()));
}

#[test]
fn vec_and_slice_encode_the_same() {
    let elems = vec![Some(vec![7u8, 8]), None];
    let mut a = Vec::new();
    let mut b = Vec::new();
    assert_eq!(array_to_sql(&elems[..], 5, &mut a), Ok(()));
    assert_eq!(vec_to_sql(&elems, 5, &mut b), Ok(()));
    assert_eq!(a, b);
}

#[test]
fn nested_error_messages() {
    let b = nd_bytes(&[3], 0, &[Some(&[1]), Some(&[2]), Some(&[3])]);
    let err = Vec2::<Option<Vec<u8>>>::from_sql(&b).unwrap_err();
    assert_eq!(
        err.message(),
        "trying to deserialize one-dimensional postgres array into NdArray<T>, use Vec<T> instead"
    );
    let b = nd_bytes(&[1, 1, 1], 0, &[Some(&[1])]);
    let err = Vec2::<Option<Vec<u8>>>::from_sql(&b).unwrap_err();
    assert_eq!(err.message(), "expected 2 dimensions, got 3");
}
