use lr_tree::mbr::{common_mbr, common_mbr_from_iter, intersects, mbr_delta, Bounds, MBR};

fn mbr1(x: (i64, i64)) -> MBR {
    MBR::new(vec![Bounds::new(x.0, x.1)])
}

fn mbr2(x: (i64, i64), y: (i64, i64)) -> MBR {
    MBR::new(vec![Bounds::new(x.0, x.1), Bounds::new(y.0, y.1)])
}

fn make_n_dim_mbr(n: usize, min: i64, max: i64) -> MBR {
    MBR::new(vec![Bounds::new(min, max); n])
}

fn check_dimension_intersects(src_mbr: &MBR, test_mbr: &MBR, test_dim_index: usize) {
    let src_bounds = *src_mbr.bounds(0);
    let length = src_bounds.length();

    let intersect_set = vec![
        Bounds::new(src_bounds.min - length, src_bounds.max - length),
        Bounds::new(src_bounds.min - length / 2, src_bounds.max - length / 2),
        Bounds::new(src_bounds.min + length / 2, src_bounds.max + length / 2),
        Bounds::new(src_bounds.min + length, src_bounds.max + length),
        Bounds::new(src_bounds.min + length / 4, src_bounds.max - length / 4),
        Bounds::new(src_bounds.min - length / 4, src_bounds.max + length / 4),
    ];

    let non_intersect_set = vec![
        Bounds::new(src_bounds.min - length - 1, src_bounds.max - length - 1),
        Bounds::new(src_bounds.min + length + 1, src_bounds.max + length + 1),
    ];

    for bounds in intersect_set {
        let mut test_mbr = test_mbr.clone();
        test_mbr.bounds[test_dim_index] = bounds;

        assert!(intersects(src_mbr, &test_mbr));
        assert!(intersects(&test_mbr, src_mbr));
    }

    for bounds in non_intersect_set {
        let mut test_mbr = test_mbr.clone();
        test_mbr.bounds[test_dim_index] = bounds;

        assert!(!intersects(src_mbr, &test_mbr));
        assert!(!intersects(&test_mbr, src_mbr));
    }
}

fn check_1d_intersects() {
    let mbr_0 = mbr1((0, 4));

    assert!(intersects(&mbr_0, &mbr_0));

    let mbr_1 = mbr1((5, 9));
    assert!(!intersects(&mbr_0, &mbr_1));
    assert!(!intersects(&mbr_1, &mbr_0));

    let mbr_1 = mbr1((4, 9));
    assert!(intersects(&mbr_0, &mbr_1));
    assert!(intersects(&mbr_1, &mbr_0));

    let mbr_1 = mbr1((-4, 0));
    assert!(intersects(&mbr_0, &mbr_1));
    assert!(intersects(&mbr_1, &mbr_0));

    let mbr_1 = mbr1((-4, 1));
    assert!(intersects(&mbr_0, &mbr_1));
    assert!(intersects(&mbr_1, &mbr_0));

    let mbr_1 = mbr1((1, 5));
    assert!(intersects(&mbr_0, &mbr_1));
    assert!(intersects(&mbr_1, &mbr_0));

    let mbr_1 = mbr1((-10, 10));
    assert!(intersects(&mbr_0, &mbr_1));
    assert!(intersects(&mbr_1, &mbr_0));
}

#[test]
fn test_new_mbr() {
    let mbr = mbr1((0, 10));

    assert_eq!(mbr.dimension(), 1);
    assert_eq!(mbr.bounds(0).min, 0);
    assert_eq!(mbr.bounds(0).max, 10);

    let mbr = mbr2((0, 10), (-10, -1));

    assert_eq!(mbr.dimension(), 2);
    assert_eq!(mbr.bounds(0).min, 0);
    assert_eq!(mbr.bounds(0).max, 10);
    assert_eq!(mbr.bounds(1).min, -10);
    assert_eq!(mbr.bounds(1).max, -1);
}

#[test]
fn mbr_test_new_mbr() {
    let mbr = mbr1((0, 10));

    assert!(!mbr.is_undefined());
    assert_eq!(mbr.dimension(), 1);
    assert_eq!(mbr.bounds[0].min, 0);
    assert_eq!(mbr.bounds[0].max, 10);

    let mbr = mbr2((0, 10), (-10, -1));

    assert!(!mbr.is_undefined());
    assert_eq!(mbr.dimension(), 2);
    assert_eq!(mbr.bounds[0].min, 0);
    assert_eq!(mbr.bounds[0].max, 10);
    assert_eq!(mbr.bounds[1].min, -10);
    assert_eq!(mbr.bounds[1].max, -1);
}

#[test]
fn test_undefined() {
    let undefined = MBR::undefined();

    assert!(undefined.is_undefined());
}

#[test]
fn test_mbr_bounds() {
    let mbr = mbr1((0, 10));

    assert_eq!(mbr.dimension(), 1);
    assert_eq!(mbr.bounds(0).min, 0);
    assert_eq!(mbr.bounds(0).max, 10);

    let mbr = mbr2((0, 10), (-10, -1));

    assert_eq!(mbr.dimension(), 2);
    assert_eq!(mbr.bounds(0).min, 0);
    assert_eq!(mbr.bounds(0).max, 10);
    assert_eq!(mbr.bounds(1).min, -10);
    assert_eq!(mbr.bounds(1).max, -1);

    let undefined = MBR::undefined();

    assert_eq!(undefined.dimension(), 0);
}

#[test]
fn test_bounds_length() {
    let bounds = Bounds::new(-4, 4);
    assert_eq!(bounds.length(), 8);
}

#[test]
fn mbr_test_bounds_length() {
    let bounds = Bounds::new(-4, 4);
    assert_eq!(bounds.length(), 8);
    assert!(bounds.is_in_bound(&-4));
    assert!(bounds.is_in_bound(&4));
    assert!(!bounds.is_in_bound(&5));
}

#[test]
fn test_mbr_volume() {
    let mbr = mbr1((-4, 4));
    assert_eq!(mbr.volume(), 8);

    let mbr = mbr2((0, 8), (3, 7));
    assert_eq!(mbr.volume(), 32);
}

#[test]
fn mbr_test_mbr_volume() {
    let mbr = mbr1((-4, 4));
    assert_eq!(mbr.volume(), 8);

    let mbr = mbr2((0, 8), (3, 7));
    assert_eq!(mbr.volume(), 32);

    let undefined = MBR::undefined();
    assert_eq!(undefined.volume(), 0);
}

#[test]
fn test_1d_mbr_intersects() {
    check_1d_intersects();
}

#[test]
fn mbr_test_1d_mbr_intersects() {
    check_1d_intersects();
}

#[test]
fn test_multidimensional_mbr_intersects_with() {
    let test_min_bound = 0;
    let test_max_bound = 10;

    let max_test_dim = 4;

    for dims in 1..=max_test_dim {
        let src_mbr = make_n_dim_mbr(dims, test_min_bound, test_max_bound);
        let test_mbr = make_n_dim_mbr(dims, test_min_bound, test_max_bound);

        for test_dim_index in 0..dims {
            check_dimension_intersects(&src_mbr, &test_mbr, test_dim_index);
        }
    }
}

#[test]
fn mbr_test_multidimensional_mbr_intersects_with() {
    for dims in 1..=4 {
        let src_mbr = make_n_dim_mbr(dims, 0, 10);
        let test_mbr = make_n_dim_mbr(dims, 0, 10);

        for test_dim_index in 0..dims {
            check_dimension_intersects(&src_mbr, &test_mbr, test_dim_index);
        }
    }
}

#[test]
fn test_mbr_cross_intersects_with() {
    let mbr_0 = mbr2((0, 10), (-3, 8));
    let mbr_1 = mbr2((-5, 4), (-7, -1));

    assert!(intersects(&mbr_0, &mbr_1));
    assert!(intersects(&mbr_1, &mbr_0));
}

#[test]
fn mbr_test_mbr_cross_intersects_with() {
    let mbr_0 = mbr2((0, 10), (-3, 8));
    let mbr_1 = mbr2((-5, 4), (-7, -1));

    assert!(intersects(&mbr_0, &mbr_1));
    assert!(intersects(&mbr_1, &mbr_0));
}

#[test]
fn test_mbr_intersects_undefined() {
    let undefined = MBR::undefined();
    let undefined_1 = MBR::undefined();
    let mbr = mbr2((0, 10), (-3, 8));

    assert!(intersects(&mbr, &undefined));
    assert!(intersects(&undefined, &mbr));
    assert!(intersects(&undefined, &undefined_1));
    assert!(intersects(&undefined_1, &undefined));
}

#[test]
fn test_common_mbr() {
    let mbr_0 = mbr2((0, 10), (-3, 8));
    let mbr_1 = mbr2((-5, 4), (-7, -1));

    let common = common_mbr(&mbr_0, &mbr_1);
    assert_eq!(common.bounds(0).min, -5);
    assert_eq!(common.bounds(0).max, 10);
    assert_eq!(common.bounds(1).min, -7);
    assert_eq!(common.bounds(1).max, 8);
}

#[test]
fn mbr_test_common_mbr() {
    let mbr_0 = mbr2((0, 10), (-3, 8));
    let mbr_1 = mbr2((-5, 4), (-7, -1));

    let common = common_mbr(&mbr_0, &mbr_1);
    assert_eq!(common.bounds[0].min, -5);
    assert_eq!(common.bounds[0].max, 10);
    assert_eq!(common.bounds[1].min, -7);
    assert_eq!(common.bounds[1].max, 8);
}

#[test]
fn test_common_mbr_undefined() {
    let undefined = MBR::undefined();
    let mbr = mbr2((0, 10), (-3, 8));

    let common = common_mbr(&mbr, &undefined);
    assert_eq!(common, mbr);

    let undefined_1 = MBR::undefined();

    let common = common_mbr(&undefined, &undefined_1);
    assert_eq!(common, undefined);
    assert_eq!(common, undefined_1);
    assert_eq!(common, MBR::undefined());
}

#[test]
fn test_1d_point_intersects() {
    let mbr = mbr1((0, 10));

    for x in 0..=10 {
        assert!(intersects(&mbr, &mbr1((x, x))));
    }

    assert!(!intersects(&mbr, &mbr1((-1, -1))));
    assert!(!intersects(&mbr, &mbr1((11, 11))));
}

#[test]
fn test_2d_line_intersects() {
    let mbr = mbr2((0, 10), (0, 10));

    for x in 0..=10 {
        assert!(intersects(&mbr, &mbr2((x, x), (0, 10))));
    }

    assert!(!intersects(&mbr, &mbr2((-1, -1), (0, 10))));
    assert!(!intersects(&mbr, &mbr2((11, 11), (0, 10))));
}

#[test]
fn test_common_mbr_iter() {
    let mbr_0 = mbr2((0, 10), (-3, 8));
    let mbr_1 = mbr2((-5, 4), (-7, -1));
    let mbr_2 = mbr2((5, 19), (2, 9));

    let mbrs = vec![mbr_0, mbr_1, mbr_2];

    let common = common_mbr_from_iter(&mbrs);
    assert_eq!(common.bounds(0).min, -5);
    assert_eq!(common.bounds(0).max, 19);
    assert_eq!(common.bounds(1).min, -7);
    assert_eq!(common.bounds(1).max, 9);
}

#[test]
fn common_mbr_of_nothing_is_undefined() {
    let mbrs: Vec<MBR> = vec![];
    assert!(common_mbr_from_iter(&mbrs).is_undefined());
}

#[test]
fn delta_is_the_volume_gained() {
    let src = mbr2((0, 5), (0, 5));
    let add = mbr2((8, 10), (3, 5));
    // the common rectangle is [0;10] x [0;5]
    assert_eq!(mbr_delta(&src, &add), 50 - 25);
    assert_eq!(mbr_delta(&src, &src), 0);
    assert_eq!(mbr_delta(&MBR::undefined(), &add), 4);
}

#[test]
fn volume_with_a_flat_axis_is_zero() {
    let flat = mbr2((3, 3), (0, 10));
    assert!(flat.fits());
    assert_eq!(flat.volume(), 0);
}

#[test]
fn fits_tells_when_the_volume_overflows() {
    let big = mbr2((0, i64::MAX), (0, 2));
    assert!(!big.fits());
    let wide = mbr1((i64::MIN, i64::MAX));
    assert!(!wide.fits());
    let inverted = Bounds::new_unchecked(4, 1);
    assert!(!MBR::new(vec![inverted]).fits());
    assert!(!MBR::new(vec![inverted]).is_ordered());
    assert!(mbr1((0, i64::MAX)).fits());
    assert_eq!(mbr1((0, i64::MAX)).volume(), i64::MAX);
}

#[test]
fn equals_compares_axis_by_axis() {
    assert!(mbr2((0, 1), (2, 3)).equals(&mbr2((0, 1), (2, 3))));
    assert!(!mbr2((0, 1), (2, 3)).equals(&mbr2((0, 1), (2, 4))));
    assert!(!mbr2((0, 1), (2, 3)).equals(&mbr1((0, 1))));
}

#[test]
#[should_panic]
fn test_panic_mbr_bounds() {
    let mbr = mbr1((0, 10));

    mbr.bounds(mbr.dimension());
}

#[test]
#[should_panic]
fn test_panic_undefined_bounds() {
    let undefined = MBR::undefined();

    undefined.bounds(0);
}

#[test]
fn text_of_a_rectangle() {
    assert_eq!(MBR::undefined().to_string(), "MBR { /undefined/ }");
    assert_eq!(mbr1((0, 10)).to_string(), "MBR { x1: [0; 10] }");
    assert_eq!(
        mbr2((-5, 4), (-70, -1)).to_string(),
        "MBR { x1: [-5; 4] x2: [-70; -1] }"
    );
    assert_eq!(
        mbr1((i64::MIN, i64::MAX)).to_string(),
        "MBR { x1: [-9223372036854775808; 9223372036854775807] }"
    );
    let many = MBR::new(vec![Bounds::new(1, 2); 11]);
    assert!(many.to_string().ends_with("x10: [1; 2] x11: [1; 2] }"));
}

#[test]
fn common_mbr_is_the_least_rectangle_around_both() {
    let a = mbr2((0, 10), (-3, 8));
    let b = mbr2((-5, 4), (-7, -1));
    let c = mbr2((20, 30), (0, 0));
    assert_eq!(common_mbr(&a, &b), common_mbr(&b, &a));
    assert_eq!(
        common_mbr(&common_mbr(&a, &b), &c),
        common_mbr(&a, &common_mbr(&b, &c))
    );
    assert_eq!(common_mbr(&a, &a), a);
    let both = common_mbr(&a, &b);
    assert!(intersects(&both, &a) && intersects(&both, &b));
    assert_eq!(both.volume(), 15 * 15);
}
