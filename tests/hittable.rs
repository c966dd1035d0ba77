use ray_tracing_rs::hittable::{medium_span, rect_accepts, select_root};
use ray_tracing_rs::key::{key_of_bits, POS_INFINITY};

fn k(x: f64) -> i64 {
    key_of_bits(x.to_bits())
}

/// Roots of the ray/sphere quadratic for a ray from `o` along `d`.
fn roots(o: [f64; 3], d: [f64; 3], c: [f64; 3], r: f64) -> Option<(f64, f64)> {
    let oc = [o[0] - c[0], o[1] - c[1], o[2] - c[2]];
    let a = d[0] * d[0] + d[1] * d[1] + d[2] * d[2];
    let half_b = oc[0] * d[0] + oc[1] * d[1] + oc[2] * d[2];
    let cc = oc[0] * oc[0] + oc[1] * oc[1] + oc[2] * oc[2] - r * r;
    let disc = half_b * half_b - a * cc;
    if disc > 0.0 {
        let root = disc.sqrt();
        Some(((-half_b - root) / a, (-half_b + root) / a))
    } else {
        None
    }
}

#[test]
fn sphere_hit_from_outside_at_distance_minus_radius() {
    let (near, far) = roots([0.0, 0.0, 0.0], [0.0, 0.0, -1.0], [0.0, 0.0, -5.0], 1.5).unwrap();
    let t = select_root(k(near), k(far), k(0.001), POS_INFINITY).unwrap();
    assert_eq!(t, k(3.5));
}

#[test]
fn root_choice() {
    assert_eq!(select_root(4, 6, 1, 10), Some(4));
    assert_eq!(select_root(4, 6, 5, 10), Some(6));
    assert_eq!(select_root(4, 6, 1, 5), Some(4));
    assert_eq!(select_root(4, 6, 6, 10), None);
    assert_eq!(select_root(4, 6, 1, 4), None);
    // From inside the sphere the far root is taken.
    assert_eq!(select_root(-2, 3, 0, 100), Some(3));
}

#[test]
fn rect_acceptance() {
    assert!(rect_accepts(5, 1, 10, 2, 3, 0, 4, 0, 4));
    // The bounds of the parameter interval are excluded.
    assert!(!rect_accepts(10, 1, 10, 4, 0, 0, 4, 0, 4));
    assert!(!rect_accepts(1, 1, 10, 2, 3, 0, 4, 0, 4));
    assert!(rect_accepts(9, 1, 10, 4, 0, 0, 4, 0, 4));
    assert!(!rect_accepts(11, 1, 10, 2, 3, 0, 4, 0, 4));
    assert!(!rect_accepts(0, 1, 10, 2, 3, 0, 4, 0, 4));
    assert!(!rect_accepts(5, 1, 10, 5, 3, 0, 4, 0, 4));
    assert!(!rect_accepts(5, 1, 10, 2, -1, 0, 4, 0, 4));
}

#[test]
fn medium_spans() {
    assert_eq!(medium_span(2, 8, 1, 10), Some((2, 8)));
    assert_eq!(medium_span(2, 8, 3, 6), Some((3, 6)));
    assert_eq!(medium_span(2, 8, 8, 10), None);
    assert_eq!(medium_span(2, 8, 0, 2), None);
    // Ray starting inside: the entry lies behind the origin and is moved to 0.
    assert_eq!(medium_span(-5, 8, -100, 100), Some((0, 8)));
    // Both crossings behind the origin: no stretch in front of it.
    assert_eq!(medium_span(-5, -1, -100, 100), None);
    assert_eq!(medium_span(-5, 0, -100, 100), None);
}
