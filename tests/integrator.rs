use ray_tracing_rs::integrator::{exhausted, shade, Bounce, Shade};

#[test]
fn bounce_budget() {
    assert!(exhausted(0));
    assert!(exhausted(-3));
    assert!(!exhausted(1));
    assert_eq!(shade(0, Bounce::Scattered), Shade::Black);
    assert_eq!(shade(-1, Bounce::Miss), Shade::Black);
}

#[test]
fn shading_decisions() {
    assert_eq!(shade(50, Bounce::Miss), Shade::Background);
    assert_eq!(shade(50, Bounce::Absorbed), Shade::Emitted);
    assert_eq!(shade(50, Bounce::Scattered), Shade::EmittedPlus { next_depth: 49 });
    assert_eq!(shade(1, Bounce::Scattered), Shade::EmittedPlus { next_depth: 0 });
}

#[test]
fn path_stops_within_depth() {
    let mut depth = 50;
    let mut queries = 0;
    while !exhausted(depth) {
        queries += 1;
        match shade(depth, Bounce::Scattered) {
            Shade::EmittedPlus { next_depth } => depth = next_depth,
            other => panic!("{:?}", other),
        }
    }
    assert_eq!(queries, 50);
}
