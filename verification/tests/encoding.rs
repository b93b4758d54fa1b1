use core::cmp::Ordering;
use core::fmt::Debug;

use kv_3d_storage::{
    assert_dimension_works, assert_point3d_works, Dimension, Point3d, U8FixedWidth,
    U8VariableWidth,
};

/// Check that the encodings of two values of a dimension keep what the
/// `Dimension` trait promises.
fn check_dimension<D: Dimension + Debug + PartialEq>(v1: &D, v2: &D) {
    let mut v1_buf = vec![0u8; D::HOMOMORPHIC_ENCODING_MAX_LENGTH];
    let v1_encoding_len = v1.homomorphic_encode(&mut v1_buf);

    if D::IS_FIXED_WIDTH_ENCODING {
        assert_eq!(v1_encoding_len, D::HOMOMORPHIC_ENCODING_MAX_LENGTH);
    } else {
        assert!(v1_encoding_len <= D::HOMOMORPHIC_ENCODING_MAX_LENGTH);
        for i in 1..v1_encoding_len {
            assert!(!(v1_buf[i] == 0 && v1_buf[i - 1] == 0));
        }
    }

    let (v1_decoded, v1_num_decoded_bytes) = D::homomorphic_decode(&v1_buf).unwrap();
    assert_eq!(&v1_decoded, v1);
    assert_eq!(v1_num_decoded_bytes, v1_encoding_len);

    let mut v2_buf = vec![0u8; D::HOMOMORPHIC_ENCODING_MAX_LENGTH];
    let v2_encoding_len = v2.homomorphic_encode(&mut v2_buf);

    assert_eq!(
        v1.compare(v2),
        v1_buf[0..v1_encoding_len].cmp(&v2_buf[0..v2_encoding_len])
    );
}

/// Check that the encodings of two 3d points work and are homomorphic.
fn check_point3d<X, Y, Z>(v1: &Point3d<X, Y, Z>, v2: &Point3d<X, Y, Z>)
where
    X: Dimension + Debug + PartialEq,
    Y: Dimension + Debug + PartialEq,
    Z: Dimension + Debug + PartialEq,
{
    let all_fixed =
        X::IS_FIXED_WIDTH_ENCODING && Y::IS_FIXED_WIDTH_ENCODING && Z::IS_FIXED_WIDTH_ENCODING;

    // xyz
    let max = Point3d::<X, Y, Z>::max_encoding_len_xyz();
    let mut v1_buf = vec![0u8; max];
    let v1_len = v1.encode_xyz(&mut v1_buf);
    if all_fixed {
        assert_eq!(v1_len, max);
    } else {
        assert!(v1_len <= max);
    }
    let (decoded, decoded_len) = Point3d::<X, Y, Z>::decode_xyz(&v1_buf).unwrap();
    assert_eq!(&decoded, v1);
    assert_eq!(decoded_len, v1_len);
    let mut v2_buf = vec![0u8; max];
    let v2_len = v2.encode_xyz(&mut v2_buf);
    assert_eq!(v1.cmp_xyz(v2), v1_buf[0..v1_len].cmp(&v2_buf[0..v2_len]));

    // yzx
    let max = Point3d::<X, Y, Z>::max_encoding_len_yzx();
    let mut v1_buf = vec![0u8; max];
    let v1_len = v1.encode_yzx(&mut v1_buf);
    if all_fixed {
        assert_eq!(v1_len, max);
    } else {
        assert!(v1_len <= max);
    }
    let (decoded, decoded_len) = Point3d::<X, Y, Z>::decode_yzx(&v1_buf).unwrap();
    assert_eq!(&decoded, v1);
    assert_eq!(decoded_len, v1_len);
    let mut v2_buf = vec![0u8; max];
    let v2_len = v2.encode_yzx(&mut v2_buf);
    assert_eq!(v1.cmp_yzx(v2), v1_buf[0..v1_len].cmp(&v2_buf[0..v2_len]));

    // zxy
    let max = Point3d::<X, Y, Z>::max_encoding_len_zxy();
    let mut v1_buf = vec![0u8; max];
    let v1_len = v1.encode_zxy(&mut v1_buf);
    if all_fixed {
        assert_eq!(v1_len, max);
    } else {
        assert!(v1_len <= max);
    }
    let (decoded, decoded_len) = Point3d::<X, Y, Z>::decode_zxy(&v1_buf).unwrap();
    assert_eq!(&decoded, v1);
    assert_eq!(decoded_len, v1_len);
    let mut v2_buf = vec![0u8; max];
    let v2_len = v2.encode_zxy(&mut v2_buf);
    assert_eq!(v1.cmp_zxy(v2), v1_buf[0..v1_len].cmp(&v2_buf[0..v2_len]));
}

/// A small deterministic generator of bytes.
struct Bytes(u64);

impl Bytes {
    fn next(&mut self) -> u8 {
        self.0 = self.0.wrapping_mul(6364136223846793005).wrapping_add(1442695040888963407);
        (self.0 >> 33) as u8
    }
}

fn check_all_shapes(x1: u8, y1: u8, z1: u8, x2: u8, y2: u8, z2: u8) {
    check_dimension(&U8FixedWidth(x1), &U8FixedWidth(y1));
    check_dimension(&U8VariableWidth(x1), &U8VariableWidth(y1));
    // All fixed-width.
    check_point3d(
        &Point3d { x: U8FixedWidth(x1), y: U8FixedWidth(y1), z: U8FixedWidth(z1) },
        &Point3d { x: U8FixedWidth(x2), y: U8FixedWidth(y2), z: U8FixedWidth(z2) },
    );
    // All variable-width.
    check_point3d(
        &Point3d { x: U8VariableWidth(x1), y: U8VariableWidth(y1), z: U8VariableWidth(z1) },
        &Point3d { x: U8VariableWidth(x2), y: U8VariableWidth(y2), z: U8VariableWidth(z2) },
    );
    // One fixed-width, two variable-width.
    check_point3d(
        &Point3d { x: U8FixedWidth(x1), y: U8VariableWidth(y1), z: U8VariableWidth(z1) },
        &Point3d { x: U8FixedWidth(x2), y: U8VariableWidth(y2), z: U8VariableWidth(z2) },
    );
    // Two fixed-width, one variable-width.
    check_point3d(
        &Point3d { x: U8FixedWidth(x1), y: U8FixedWidth(y1), z: U8VariableWidth(z1) },
        &Point3d { x: U8FixedWidth(x2), y: U8FixedWidth(y2), z: U8VariableWidth(z2) },
    );
}

#[test]
fn library_checks_pass_for_all_pairs_of_bytes() {
    for a in 0..=255u8 {
        for b in 0..=255u8 {
            assert!(assert_dimension_works(&U8FixedWidth(a), &U8FixedWidth(b)));
            assert!(assert_dimension_works(&U8VariableWidth(a), &U8VariableWidth(b)));
        }
    }
}

#[test]
fn library_checks_pass_for_generated_points() {
    let mut bytes = Bytes(19);
    for _ in 0..1000 {
        let (x1, y1, z1) = (bytes.next(), bytes.next(), bytes.next());
        let (x2, y2, z2) = (bytes.next(), bytes.next(), bytes.next());
        assert!(assert_point3d_works(
            &Point3d { x: U8FixedWidth(x1), y: U8FixedWidth(y1), z: U8FixedWidth(z1) },
            &Point3d { x: U8FixedWidth(x2), y: U8FixedWidth(y2), z: U8FixedWidth(z2) },
        ));
        assert!(assert_point3d_works(
            &Point3d { x: U8VariableWidth(x1), y: U8VariableWidth(y1), z: U8VariableWidth(z1) },
            &Point3d { x: U8VariableWidth(x2), y: U8VariableWidth(y2), z: U8VariableWidth(z2) },
        ));
        assert!(assert_point3d_works(
            &Point3d { x: U8FixedWidth(x1), y: U8VariableWidth(y1), z: U8VariableWidth(z1) },
            &Point3d { x: U8FixedWidth(x2), y: U8VariableWidth(y2), z: U8VariableWidth(z2) },
        ));
        assert!(assert_point3d_works(
            &Point3d { x: U8FixedWidth(x1), y: U8FixedWidth(y1), z: U8VariableWidth(z1) },
            &Point3d { x: U8FixedWidth(x2), y: U8FixedWidth(y2), z: U8VariableWidth(z2) },
        ));
    }
}

#[test]
fn bytes_compare_as_slices_do() {
    let samples: [&[u8]; 9] =
        [&[], &[0], &[0, 0], &[1], &[1, 0], &[1, 2], &[2], &[2, 1, 255], &[255]];
    for a in samples {
        for b in samples {
            assert_eq!(kv_3d_storage::bytes::compare_bytes(a, b), a.cmp(b));
        }
    }
    assert_eq!(kv_3d_storage::bytes::first_difference(&[1, 2, 3], &[1, 2, 4, 5]), 2);
    assert_eq!(kv_3d_storage::bytes::first_difference(&[1, 2], &[1, 2, 4]), 2);
    assert_eq!(kv_3d_storage::bytes::first_difference(&[], &[]), 0);
}

#[test]
fn dimensions_work_for_all_pairs_of_bytes() {
    for a in 0..=255u8 {
        for b in 0..=255u8 {
            check_dimension(&U8FixedWidth(a), &U8FixedWidth(b));
            check_dimension(&U8VariableWidth(a), &U8VariableWidth(b));
        }
    }
}

#[test]
fn points_work_for_generated_pairs() {
    let mut bytes = Bytes(7);
    for _ in 0..2000 {
        let (x1, y1, z1) = (bytes.next(), bytes.next(), bytes.next());
        let (x2, y2, z2) = (bytes.next(), bytes.next(), bytes.next());
        check_all_shapes(x1, y1, z1, x2, y2, z2);
    }
}

#[test]
fn points_work_at_the_edges() {
    let edges = [0u8, 1, 2, 254, 255];
    for &x1 in &edges {
        for &y1 in &edges {
            for &x2 in &edges {
                for &z2 in &edges {
                    check_all_shapes(x1, y1, 0, x2, y1, z2);
                    check_all_shapes(x1, y1, 255, x2, 255, z2);
                }
            }
        }
    }
}

#[test]
fn variable_width_encoding_of_two() {
    let mut buf = vec![0u8; 256];
    let len = U8VariableWidth(2).homomorphic_encode(&mut buf);
    assert_eq!(len, 3);
    assert_eq!(&buf[..len], &[0x02, 0x02, 0x01]);
}

#[test]
fn variable_width_encoding_of_five_comes_after_that_of_two() {
    let mut two = vec![0u8; 256];
    let two_len = U8VariableWidth(2).homomorphic_encode(&mut two);
    let mut five = vec![0u8; 256];
    let five_len = U8VariableWidth(5).homomorphic_encode(&mut five);
    assert_eq!(five_len, 6);
    assert_eq!(&five[..five_len], &[0x02, 0x02, 0x02, 0x02, 0x02, 0x01]);
    assert_eq!(two[..two_len].cmp(&five[..five_len]), Ordering::Less);
    assert_eq!(U8VariableWidth(2).compare(&U8VariableWidth(5)), Ordering::Less);
}

#[test]
fn variable_width_encoding_of_zero_and_of_the_maximum() {
    let mut buf = vec![7u8; 256];
    assert_eq!(U8VariableWidth(0).homomorphic_encode(&mut buf), 1);
    assert_eq!(buf[0], 1);
    assert_eq!(buf[1], 7);
    let mut buf = vec![0u8; 256];
    assert_eq!(U8VariableWidth(255).homomorphic_encode(&mut buf), 256);
    assert!(buf[..255].iter().all(|b| *b == 2));
    assert_eq!(buf[255], 1);
    assert_eq!(U8VariableWidth::homomorphic_decode(&buf), Ok((U8VariableWidth(255), 256)));
}

#[test]
fn fixed_width_encoding_is_the_byte() {
    let mut buf = vec![9u8; 3];
    assert_eq!(U8FixedWidth(3).homomorphic_encode(&mut buf), 1);
    assert_eq!(buf, vec![3, 9, 9]);
    assert_eq!(U8FixedWidth::homomorphic_decode(&buf), Ok((U8FixedWidth(3), 1)));
}

#[test]
fn encoding_leaves_the_rest_of_the_buffer() {
    let p = Point3d { x: U8FixedWidth(3), y: U8VariableWidth(2), z: U8FixedWidth(4) };
    let mut buf = vec![0xAAu8; 12];
    let len = p.encode_xyz(&mut buf);
    assert_eq!(len, 7);
    assert_eq!(buf, vec![3, 2, 2, 1, 0, 0, 4, 0xAA, 0xAA, 0xAA, 0xAA, 0xAA]);
}

#[test]
fn fixed_width_decode_fails_on_empty_input() {
    assert_eq!(U8FixedWidth::homomorphic_decode(&[]), Err(()));
}

#[test]
fn variable_width_decode_fails_on_malformed_input() {
    // Runs past the supplied bytes.
    assert_eq!(U8VariableWidth::homomorphic_decode(&[]), Err(()));
    assert_eq!(U8VariableWidth::homomorphic_decode(&[2, 2]), Err(()));
    // A byte that is neither 0x02 nor the terminator.
    assert_eq!(U8VariableWidth::homomorphic_decode(&[2, 3, 1]), Err(()));
    assert_eq!(U8VariableWidth::homomorphic_decode(&[0, 1]), Err(()));
    // No terminator within the longest encoding.
    let mut long = vec![2u8; 256];
    long.push(1);
    assert_eq!(U8VariableWidth::homomorphic_decode(&long), Err(()));
    assert_eq!(U8VariableWidth::homomorphic_decode(&vec![2u8; 300]), Err(()));
}

#[test]
fn variable_width_decode_stops_at_the_terminator() {
    assert_eq!(
        U8VariableWidth::homomorphic_decode(&[2, 2, 1, 2, 2, 1]),
        Ok((U8VariableWidth(2), 3))
    );
    assert_eq!(U8VariableWidth::homomorphic_decode(&[1]), Ok((U8VariableWidth(0), 1)));
}

#[test]
fn mixed_point_encodings_in_the_three_orderings() {
    let p = Point3d { x: U8FixedWidth(3), y: U8VariableWidth(2), z: U8VariableWidth(0) };
    type P = Point3d<U8FixedWidth, U8VariableWidth, U8VariableWidth>;
    assert_eq!(P::max_encoding_len_xyz(), 1 + 256 + 2 + 256);
    assert_eq!(P::max_encoding_len_yzx(), 256 + 2 + 256 + 2 + 1);
    assert_eq!(P::max_encoding_len_zxy(), 256 + 2 + 1 + 256);

    let mut buf = vec![0u8; P::max_encoding_len_xyz()];
    let len = p.encode_xyz(&mut buf);
    assert_eq!(&buf[..len], &[3, 2, 2, 1, 0, 0, 1]);
    assert_eq!(P::decode_xyz(&buf), Ok((p, len)));

    let mut buf = vec![0u8; P::max_encoding_len_yzx()];
    let len = p.encode_yzx(&mut buf);
    assert_eq!(&buf[..len], &[2, 2, 1, 0, 0, 1, 0, 0, 3]);
    assert_eq!(P::decode_yzx(&buf), Ok((p, len)));

    let mut buf = vec![0u8; P::max_encoding_len_zxy()];
    let len = p.encode_zxy(&mut buf);
    assert_eq!(&buf[..len], &[1, 0, 0, 3, 2, 2, 1]);
    assert_eq!(P::decode_zxy(&buf), Ok((p, len)));
}

#[test]
fn fixed_width_point_has_the_maximum_length() {
    type P = Point3d<U8FixedWidth, U8FixedWidth, U8FixedWidth>;
    assert_eq!(P::max_encoding_len_xyz(), 3);
    assert_eq!(P::max_encoding_len_yzx(), 3);
    assert_eq!(P::max_encoding_len_zxy(), 3);
    let p = Point3d { x: U8FixedWidth(1), y: U8FixedWidth(2), z: U8FixedWidth(3) };
    let mut buf = [0u8; 3];
    assert_eq!(p.encode_xyz(&mut buf), 3);
    assert_eq!(buf, [1, 2, 3]);
    assert_eq!(p.encode_yzx(&mut buf), 3);
    assert_eq!(buf, [2, 3, 1]);
    assert_eq!(p.encode_zxy(&mut buf), 3);
    assert_eq!(buf, [3, 1, 2]);
}

#[test]
fn point_decode_fails_on_a_wrong_delimiter() {
    type P = Point3d<U8VariableWidth, U8FixedWidth, U8FixedWidth>;
    assert_eq!(
        P::decode_xyz(&[2, 1, 0, 0, 5, 6]),
        Ok((Point3d { x: U8VariableWidth(1), y: U8FixedWidth(5), z: U8FixedWidth(6) }, 6))
    );
    assert_eq!(P::decode_xyz(&[2, 1, 0, 1, 5, 6]), Err(()));
    assert_eq!(P::decode_xyz(&[2, 1, 1, 0, 5, 6]), Err(()));
}

#[test]
fn point_decode_fails_on_truncated_input() {
    type P = Point3d<U8VariableWidth, U8FixedWidth, U8FixedWidth>;
    assert_eq!(P::decode_xyz(&[]), Err(()));
    assert_eq!(P::decode_xyz(&[2, 1]), Err(()));
    assert_eq!(P::decode_xyz(&[2, 1, 0]), Err(()));
    assert_eq!(P::decode_xyz(&[2, 1, 0, 0]), Err(()));
    assert_eq!(P::decode_xyz(&[2, 1, 0, 0, 5]), Err(()));
    assert_eq!(P::decode_yzx(&[5, 6]), Err(()));
    assert_eq!(P::decode_zxy(&[5, 2, 2]), Err(()));
}

#[test]
fn the_three_orderings_differ() {
    let p = Point3d { x: U8FixedWidth(1), y: U8FixedWidth(9), z: U8FixedWidth(5) };
    let q = Point3d { x: U8FixedWidth(2), y: U8FixedWidth(0), z: U8FixedWidth(5) };
    assert_eq!(p.cmp_xyz(&q), Ordering::Less);
    assert_eq!(p.cmp_yzx(&q), Ordering::Greater);
    assert_eq!(p.cmp_zxy(&q), Ordering::Less);
    assert_eq!(q.cmp_xyz(&p), Ordering::Greater);
    assert_eq!(p.cmp_xyz(&p), Ordering::Equal);
    assert_eq!(p.cmp_yzx(&p), Ordering::Equal);
    assert_eq!(p.cmp_zxy(&p), Ordering::Equal);
}

#[test]
fn later_dimensions_break_ties() {
    let p = Point3d { x: U8FixedWidth(1), y: U8FixedWidth(1), z: U8FixedWidth(1) };
    let q = Point3d { x: U8FixedWidth(1), y: U8FixedWidth(1), z: U8FixedWidth(2) };
    let r = Point3d { x: U8FixedWidth(1), y: U8FixedWidth(2), z: U8FixedWidth(0) };
    assert_eq!(p.cmp_xyz(&q), Ordering::Less);
    assert_eq!(q.cmp_xyz(&r), Ordering::Less);
    assert_eq!(q.cmp_zxy(&r), Ordering::Greater);
    assert_eq!(r.cmp_yzx(&q), Ordering::Greater);
}
