use core::cmp::Ordering;

use kv_3d_storage::{
    cmp_points_at_rank, Dimension, LiftingCommutativeMonoid, Point3d, Rotation, U8FixedWidth,
    U8VariableWidth,
};

type Fixed = Point3d<U8FixedWidth, U8FixedWidth, U8FixedWidth>;

fn point(x: u8, y: u8, z: u8) -> Fixed {
    Point3d { x: U8FixedWidth(x), y: U8FixedWidth(y), z: U8FixedWidth(z) }
}

#[test]
fn counting_monoid_counts() {
    assert_eq!(<usize as LiftingCommutativeMonoid<u8>>::NEUTRAL, 0);
    assert_eq!(<usize as LiftingCommutativeMonoid<u8>>::lift(&200), 1);
    assert_eq!(<usize as LiftingCommutativeMonoid<(Fixed, u8)>>::lift(&(point(1, 2, 3), 9)), 1);
    assert_eq!(<usize as LiftingCommutativeMonoid<u8>>::combine(&2, &3), 5);
    assert_eq!(<usize as LiftingCommutativeMonoid<u8>>::combine(&0, &7), 7);
    assert_eq!(<usize as LiftingCommutativeMonoid<u8>>::combine(&7, &0), 7);
}

#[test]
fn counting_monoid_wraps_around_beyond_the_greatest_number() {
    assert_eq!(<usize as LiftingCommutativeMonoid<u8>>::combine(&usize::MAX, &1), 0);
    assert_eq!(<usize as LiftingCommutativeMonoid<u8>>::combine(&usize::MAX, &usize::MAX), usize::MAX - 1);
}

#[test]
fn counting_monoid_keeps_the_laws_on_samples() {
    let samples = [0usize, 1, 2, 77, usize::MAX - 1, usize::MAX];
    let combine = <usize as LiftingCommutativeMonoid<u8>>::combine;
    for a in samples {
        assert_eq!(combine(&a, &0), a);
        assert_eq!(combine(&0, &a), a);
        for b in samples {
            assert_eq!(combine(&a, &b), combine(&b, &a));
            for c in samples {
                assert_eq!(combine(&combine(&a, &b), &c), combine(&a, &combine(&b, &c)));
            }
        }
    }
}

#[test]
fn trivial_monoid_does_nothing() {
    assert_eq!(<() as LiftingCommutativeMonoid<u8>>::NEUTRAL, ());
    assert_eq!(<() as LiftingCommutativeMonoid<u8>>::lift(&3), ());
    assert_eq!(<() as LiftingCommutativeMonoid<u8>>::combine(&(), &()), ());
}

#[test]
fn rank_selects_the_ordering() {
    assert_eq!(Rotation::for_rank(0), Rotation::Zxy);
    assert_eq!(Rotation::for_rank(1), Rotation::Yzx);
    assert_eq!(Rotation::for_rank(2), Rotation::Xyz);
    assert_eq!(Rotation::for_rank(3), Rotation::Zxy);
    assert_eq!(Rotation::for_rank(253), Rotation::Yzx);
    assert_eq!(Rotation::for_rank(254), Rotation::Xyz);
    assert_eq!(Rotation::for_rank(255), Rotation::Zxy);
}

#[test]
fn points_compare_in_the_ordering_of_a_rank() {
    let p = point(1, 9, 5);
    let q = point(2, 0, 5);
    assert_eq!(cmp_points_at_rank(2, &p, &q), Ordering::Less);
    assert_eq!(cmp_points_at_rank(1, &p, &q), Ordering::Greater);
    assert_eq!(cmp_points_at_rank(0, &p, &q), Ordering::Less);
    assert_eq!(cmp_points_at_rank(5, &p, &q), p.cmp_xyz(&q));
    assert_eq!(cmp_points_at_rank(4, &p, &q), p.cmp_yzx(&q));
    assert_eq!(cmp_points_at_rank(3, &p, &q), p.cmp_zxy(&q));
    assert_eq!(cmp_points_at_rank(7, &p, &p), Ordering::Equal);
}

#[test]
fn point_functions_by_rotation_agree_with_the_named_ones() {
    let p = Point3d { x: U8VariableWidth(1), y: U8FixedWidth(9), z: U8VariableWidth(2) };
    let q = Point3d { x: U8VariableWidth(1), y: U8FixedWidth(8), z: U8VariableWidth(3) };
    type P = Point3d<U8VariableWidth, U8FixedWidth, U8VariableWidth>;
    assert_eq!(P::max_encoding_len(Rotation::Xyz), P::max_encoding_len_xyz());
    assert_eq!(P::max_encoding_len(Rotation::Yzx), P::max_encoding_len_yzx());
    assert_eq!(P::max_encoding_len(Rotation::Zxy), P::max_encoding_len_zxy());
    assert_eq!(P::max_encoding_len(Rotation::Xyz), 256 + 2 + 1 + 256);
    assert_eq!(P::max_encoding_len(Rotation::Yzx), 1 + 256 + 2 + 256);
    assert_eq!(P::max_encoding_len(Rotation::Zxy), 256 + 2 + 256 + 2 + 1);

    assert_eq!(p.cmp(Rotation::Xyz, &q), Ordering::Greater);
    assert_eq!(p.cmp(Rotation::Yzx, &q), Ordering::Greater);
    assert_eq!(p.cmp(Rotation::Zxy, &q), Ordering::Less);
    assert!(p.comes_before(Rotation::Zxy, &q));
    assert!(!p.comes_before(Rotation::Xyz, &q));
    assert!(!p.comes_before(Rotation::Zxy, &p));
    assert!(p.same_as(&p));
    assert!(!p.same_as(&q));

    let mut buf = vec![0u8; 600];
    let len = p.encode(Rotation::Zxy, &mut buf);
    assert_eq!(&buf[..len], &[2, 2, 1, 0, 0, 2, 1, 0, 0, 9]);
    assert_eq!(P::decode(Rotation::Zxy, &buf), Ok((p, 10)));
    let len = p.encode(Rotation::Yzx, &mut buf);
    assert_eq!(&buf[..len], &[9, 2, 2, 1, 0, 0, 2, 1]);
    assert_eq!(P::decode(Rotation::Yzx, &buf[..len]), Ok((p, 8)));
    assert_eq!(P::decode(Rotation::Xyz, &buf[..len]), Err(()));
}

#[test]
fn dimensions_declare_their_widths() {
    assert_eq!(U8FixedWidth::HOMOMORPHIC_ENCODING_MAX_LENGTH, 1);
    assert!(U8FixedWidth::IS_FIXED_WIDTH_ENCODING);
    assert_eq!(U8VariableWidth::HOMOMORPHIC_ENCODING_MAX_LENGTH, 256);
    assert!(!U8VariableWidth::IS_FIXED_WIDTH_ENCODING);
}

#[test]
fn dimensions_compare_as_their_bytes() {
    assert_eq!(U8FixedWidth(3).compare(&U8FixedWidth(4)), Ordering::Less);
    assert_eq!(U8FixedWidth(4).compare(&U8FixedWidth(4)), Ordering::Equal);
    assert_eq!(U8FixedWidth(5).compare(&U8FixedWidth(4)), Ordering::Greater);
    assert_eq!(U8VariableWidth(0).compare(&U8VariableWidth(255)), Ordering::Less);
    assert_eq!(U8VariableWidth(255).compare(&U8VariableWidth(255)), Ordering::Equal);
    assert_eq!(U8VariableWidth(255).compare(&U8VariableWidth(0)), Ordering::Greater);
}
