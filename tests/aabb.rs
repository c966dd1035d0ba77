use ray_tracing_rs::aabb::{Point3, AABB};
use ray_tracing_rs::key::{bits_of_key, key_of_bits, NEG_INFINITY, POS_INFINITY, ZERO};

fn k(x: f64) -> i64 {
    key_of_bits(x.to_bits())
}

fn p(x: f64, y: f64, z: f64) -> Point3 {
    Point3::from(k(x), k(y), k(z))
}

/// Slab parameters of a ray against a box, computed in floating point the
/// way a caller does, then tested by the library.
fn box_hit(b: (f64, f64, f64, f64, f64, f64), o: [f64; 3], d: [f64; 3], t_min: f64, t_max: f64) -> bool {
    let mins = [b.0, b.1, b.2];
    let maxs = [b.3, b.4, b.5];
    let mut t0 = [0.0; 3];
    let mut t1 = [0.0; 3];
    let mut rev = [false; 3];
    for a in 0..3 {
        let inv = 1.0 / d[a];
        t0[a] = (mins[a] - o[a]) * inv;
        t1[a] = (maxs[a] - o[a]) * inv;
        rev[a] = inv < 0.0;
    }
    AABB::hit(&p(t0[0], t0[1], t0[2]), &p(t1[0], t1[1], t1[2]), &rev, k(t_min), k(t_max))
}

#[test]
fn keys_follow_float_order() {
    let xs = [f64::NEG_INFINITY, -1e300, -2.0, -1.0, -1e-300, -0.0, 0.0, 1e-300, 0.5, 1.0, 3.0, 1e300, f64::INFINITY];
    for w in xs.windows(2) {
        assert!(k(w[0]) < k(w[1]), "{} {}", w[0], w[1]);
    }
    assert_eq!(k(f64::INFINITY), POS_INFINITY);
    assert_eq!(k(f64::NEG_INFINITY), NEG_INFINITY);
    assert_eq!(k(0.0), ZERO);
    assert_eq!(k(-0.0), -1);
}

#[test]
fn keys_round_trip() {
    for x in [0.0, -0.0, 1.5, -7.25, f64::MAX, f64::MIN, f64::INFINITY, f64::NEG_INFINITY] {
        assert_eq!(f64::from_bits(bits_of_key(k(x))).to_bits(), x.to_bits());
    }
    for key in [i64::MIN, -1, 0, 1, i64::MAX] {
        assert_eq!(key_of_bits(bits_of_key(key)), key);
    }
}

#[test]
fn new_and_from() {
    let b = AABB::new();
    assert_eq!(b.min, Point3::new());
    assert_eq!(b.max, Point3::from(0, 0, 0));
    let c = AABB::from(Point3::from(1, 2, 3), Point3::from(4, 5, 6));
    assert_eq!(c.min.axis(0), 1);
    assert_eq!(c.min.axis(1), 2);
    assert_eq!(c.max.axis(2), 6);
}

#[test]
fn surrounding_box_is_componentwise_extent() {
    let a = AABB::from(Point3::from(0, 5, -3), Point3::from(2, 6, 1));
    let b = AABB::from(Point3::from(-1, 7, 0), Point3::from(1, 9, 4));
    let u = AABB::surrounding_box(&a, &b);
    assert_eq!(u.min, Point3::from(-1, 5, -3));
    assert_eq!(u.max, Point3::from(2, 9, 4));
}

#[test]
fn surrounding_box_holds_every_corner() {
    let a = AABB::from(p(0.0, 0.0, 0.0), p(1.0, 2.0, 3.0));
    let b = AABB::from(p(-4.0, 1.0, 2.5), p(-3.0, 1.5, 8.0));
    let u = AABB::surrounding_box(&a, &b);
    for bx in [a, b] {
        for c in 0..8 {
            let corner = Point3::from(
                if c & 1 == 0 { bx.min.x } else { bx.max.x },
                if c & 2 == 0 { bx.min.y } else { bx.max.y },
                if c & 4 == 0 { bx.min.z } else { bx.max.z },
            );
            assert!(u.contains(&corner));
        }
    }
    assert!(!u.contains(&p(1.5, 0.0, 0.0)));
}

#[test]
fn ray_through_box_hits() {
    let b = (1.0, 2.0, 3.0, 4.0, 5.0, 6.0);
    // From outside towards the box centre.
    assert!(box_hit(b, [0.0, 0.0, 0.0], [2.5, 3.5, 4.5], 0.001, f64::INFINITY));
    // Through two of its construction corners.
    assert!(box_hit(b, [1.0, 2.0, 3.0], [3.0, 3.0, 3.0], -1.0, f64::INFINITY));
    // Along -x towards the box.
    assert!(box_hit(b, [10.0, 3.5, 4.5], [-1.0, 0.0, 0.0], 0.001, f64::INFINITY));
}

#[test]
fn ray_past_translated_box_misses() {
    // The same rays miss the box moved by more than its extent.
    let b = (1.0 + 5.0, 2.0, 3.0, 4.0 + 5.0, 5.0, 6.0);
    assert!(!box_hit(b, [0.0, 0.0, 0.0], [2.5, 3.5, 4.5], 0.001, f64::INFINITY));
    let b = (1.0, 2.0 + 4.0, 3.0, 4.0, 5.0 + 4.0, 6.0);
    assert!(!box_hit(b, [10.0, 3.5, 4.5], [-1.0, 0.0, 0.0], 0.001, f64::INFINITY));
}

#[test]
fn box_behind_or_beyond_bound_misses() {
    let b = (1.0, 2.0, 3.0, 4.0, 5.0, 6.0);
    assert!(!box_hit(b, [0.0, 0.0, 0.0], [-2.5, -3.5, -4.5], 0.001, f64::INFINITY));
    assert!(!box_hit(b, [0.0, 0.0, 0.0], [2.5, 3.5, 4.5], 0.001, 0.5));
}

#[test]
fn parallel_ray_outside_flat_slab_misses() {
    // A box of zero width on z; the ray runs parallel to the slab, off it.
    let b = (0.0, 0.0, 1.0, 1.0, 1.0, 1.0);
    assert!(!box_hit(b, [-1.0, 0.5, 2.0], [1.0, 0.0, 0.0], 0.001, f64::INFINITY));
    assert!(!box_hit(b, [-1.0, 0.5, 0.0], [1.0, 0.0, 0.0], 0.001, f64::INFINITY));
    // Parallel to the x slab and outside it.
    let b = (0.0, 0.0, 0.0, 1.0, 1.0, 1.0);
    assert!(!box_hit(b, [2.0, -1.0, 0.5], [0.0, 1.0, 0.0], 0.001, f64::INFINITY));
}

#[test]
fn slab_intervals_by_hand() {
    let t0 = Point3::from(1, 2, 0);
    let t1 = Point3::from(5, 6, 9);
    assert!(AABB::hit(&t0, &t1, &[false; 3], 0, 100));
    // Entries 1, 2, 0 and exits 5, 6, 9: the interval is (2, 5).
    assert!(!AABB::hit(&t0, &t1, &[false; 3], 5, 100));
    assert!(!AABB::hit(&t0, &t1, &[false; 3], 0, 2));
    assert!(AABB::hit(&t0, &t1, &[false; 3], 0, 3));
    // Reversed x: entry 5, exit 1 on x, so nothing overlaps.
    assert!(!AABB::hit(&t0, &t1, &[true, false, false], 0, 100));
}

#[test]
fn union_all_and_enclosing() {
    assert!(AABB::union_all(&vec![]).is_none());
    let boxes = vec![
        AABB::from(Point3::from(0, 0, 0), Point3::from(1, 1, 1)),
        AABB::from(Point3::from(-2, 3, 0), Point3::from(0, 4, 2)),
        AABB::from(Point3::from(5, -1, -1), Point3::from(6, 0, 0)),
    ];
    let u = AABB::union_all(&boxes).unwrap();
    assert_eq!(u, AABB::from(Point3::from(-2, -1, -1), Point3::from(6, 4, 2)));
    assert!(AABB::enclosing(&vec![]).is_none());
    let pts = vec![Point3::from(3, -1, 2), Point3::from(-4, 7, 2), Point3::from(0, 0, 9)];
    let e = AABB::enclosing(&pts).unwrap();
    assert_eq!(e, AABB::from(Point3::from(-4, -1, 2), Point3::from(3, 7, 9)));
}
