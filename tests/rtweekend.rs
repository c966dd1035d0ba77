use ray_tracing_rs::key::key_of_bits;
use ray_tracing_rs::rtweekend::{clamp, ffmax, ffmin};

#[test]
fn min_and_max() {
    assert_eq!(ffmin(3, -4), -4);
    assert_eq!(ffmin(-4, 3), -4);
    assert_eq!(ffmax(3, -4), 3);
    assert_eq!(ffmax(7, 7), 7);
}

#[test]
fn clamping() {
    assert_eq!(clamp(-5, 0, 10), 0);
    assert_eq!(clamp(15, 0, 10), 10);
    assert_eq!(clamp(4, 0, 10), 4);
    assert_eq!(clamp(0, 0, 10), 0);
    assert_eq!(clamp(10, 0, 10), 10);
}

#[test]
fn clamping_doubles_by_key() {
    let k = |x: f64| key_of_bits(x.to_bits());
    assert_eq!(clamp(k(1.7), k(0.0), k(0.999)), k(0.999));
    assert_eq!(clamp(k(-0.25), k(0.0), k(0.999)), k(0.0));
    assert_eq!(clamp(k(0.5), k(0.0), k(0.999)), k(0.5));
}
