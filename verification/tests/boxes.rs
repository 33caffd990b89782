use packed_features::bbox::{key_of, lower, upper, BoundingBox};

fn b(min_x: f64, min_y: f64, max_x: f64, max_y: f64) -> BoundingBox {
    BoundingBox {
        min_x: min_x.to_bits(),
        min_y: min_y.to_bits(),
        max_x: max_x.to_bits(),
        max_y: max_y.to_bits(),
    }
}

#[test]
fn keys_order_as_the_numbers_do() {
    let values = [
        f64::NEG_INFINITY,
        -1.0e300,
        -2.5,
        -1.0,
        -f64::MIN_POSITIVE,
        0.0,
        f64::MIN_POSITIVE,
        0.5,
        1.0,
        2.5,
        1.0e300,
        f64::INFINITY,
    ];
    for i in 0..values.len() {
        for j in 0..values.len() {
            let ki = key_of(values[i].to_bits());
            let kj = key_of(values[j].to_bits());
            assert_eq!(ki < kj, values[i] < values[j]);
            assert_eq!(ki == kj, values[i] == values[j]);
        }
    }
}

#[test]
fn key_exact_values() {
    assert_eq!(key_of(0), 0);
    assert_eq!(key_of(0x8000_0000_0000_0000), 0);
    assert_eq!(key_of(1), 1);
    assert_eq!(key_of(0x8000_0000_0000_0001), -1);
    assert_eq!(key_of(1.0f64.to_bits()), 0x3ff0_0000_0000_0000);
    assert_eq!(key_of((-1.0f64).to_bits()), -0x3ff0_0000_0000_0000);
    assert_eq!(key_of(u64::MAX), -0x7fff_ffff_ffff_ffff);
    assert_eq!(key_of(0x7fff_ffff_ffff_ffff), 0x7fff_ffff_ffff_ffff);
}

#[test]
fn the_two_zeros_rank_alike() {
    assert_eq!(key_of(0.0f64.to_bits()), key_of((-0.0f64).to_bits()));
    assert!(b(0.0, 0.0, 1.0, 1.0).intersects(b(-1.0, -1.0, -0.0, -0.0)));
}

#[test]
fn lower_and_upper() {
    let one = 1.0f64.to_bits();
    let minus = (-3.0f64).to_bits();
    assert_eq!(lower(one, minus), minus);
    assert_eq!(lower(minus, one), minus);
    assert_eq!(upper(one, minus), one);
    assert_eq!(upper(minus, one), one);
    assert_eq!(lower(0.0f64.to_bits(), (-0.0f64).to_bits()), 0.0f64.to_bits());
    assert_eq!(upper((-0.0f64).to_bits(), 0.0f64.to_bits()), (-0.0f64).to_bits());
}

#[test]
fn point_box() {
    assert_eq!(BoundingBox::point(1.5f64.to_bits(), (-2.0f64).to_bits()), b(1.5, -2.0, 1.5, -2.0));
}

#[test]
fn union_is_the_least_box_that_holds_both() {
    let u = b(0.0, 0.0, 1.0, 1.0).union(b(-2.0, 0.5, 0.5, 3.0));
    assert_eq!(u, b(-2.0, 0.0, 1.0, 3.0));
    assert!(u.contains(b(0.0, 0.0, 1.0, 1.0)));
    assert!(u.contains(b(-2.0, 0.5, 0.5, 3.0)));
}

#[test]
fn contains_includes_the_bounds() {
    let outer = b(0.0, 0.0, 10.0, 10.0);
    assert!(outer.contains(outer));
    assert!(outer.contains(b(0.0, 0.0, 1.0, 1.0)));
    assert!(outer.contains(b(9.0, 9.0, 10.0, 10.0)));
    assert!(!outer.contains(b(-0.1, 0.0, 1.0, 1.0)));
    assert!(!outer.contains(b(9.0, 9.0, 10.0, 10.1)));
    assert!(!b(0.0, 0.0, 1.0, 1.0).contains(outer));
}

#[test]
fn intersects_includes_the_bounds() {
    let a = b(0.0, 0.0, 1.0, 1.0);
    assert!(a.intersects(b(1.0, 1.0, 2.0, 2.0)));
    assert!(a.intersects(b(-1.0, -1.0, 0.0, 0.0)));
    assert!(a.intersects(b(0.25, 0.25, 0.5, 0.5)));
    assert!(a.intersects(b(-5.0, 0.5, 5.0, 0.6)));
    assert!(!a.intersects(b(1.1, 0.0, 2.0, 1.0)));
    assert!(!a.intersects(b(0.0, 1.1, 1.0, 2.0)));
    assert!(!a.intersects(b(-2.0, -2.0, -0.1, 5.0)));
    assert_eq!(a.intersects(b(5.0, 5.0, 6.0, 6.0)), b(5.0, 5.0, 6.0, 6.0).intersects(a));
}

#[test]
fn what_meets_a_box_meets_every_box_around_it() {
    let inner = b(1.0, 1.0, 2.0, 2.0);
    let outer = b(0.0, 0.0, 3.0, 3.0);
    let q = b(2.0, 2.0, 5.0, 5.0);
    assert!(outer.contains(inner));
    assert!(inner.intersects(q));
    assert!(outer.intersects(q));
}
