use ray_tracing_rs::aabb::{Point3, AABB};
use ray_tracing_rs::bvh::{BvhNode, Child};
use ray_tracing_rs::hittable_list::{closest_hit, HittableList};

/// Small deterministic generator for scene and ray coordinates.
struct Lcg(u64);

impl Lcg {
    fn next(&mut self, n: i64) -> i64 {
        self.0 = self.0.wrapping_mul(6364136223846793005).wrapping_add(1442695040888963407);
        ((self.0 >> 33) % (n as u64)) as i64
    }
}

fn scene(seed: u64, n: usize) -> Vec<AABB> {
    let mut g = Lcg(seed);
    let mut boxes = Vec::new();
    for _ in 0..n {
        let x = g.next(1000);
        let y = g.next(1000);
        let z = g.next(1000);
        boxes.push(AABB::from(
            Point3::from(x, y, z),
            Point3::from(x + 1 + g.next(50), y + 1 + g.next(50), z + 1 + g.next(50)),
        ));
    }
    boxes
}

/// A ray along +x at height (y, z), parameter = x coordinate. A leaf is hit
/// at its box's minimum x when (y, z) lies in the box's y/z extent.
fn leaf(boxes: &[AABB], y: i64, z: i64, j: usize) -> Option<i64> {
    let b = boxes[j];
    if b.min.y <= y && y <= b.max.y && b.min.z <= z && z <= b.max.z {
        Some(b.min.x)
    } else {
        None
    }
}

fn boxtest(b: AABB, y: i64, z: i64, t: i64) -> bool {
    b.min.y <= y && y <= b.max.y && b.min.z <= z && z <= b.max.z && b.min.x < t
}

fn count_leaves(t: &BvhNode, c: Child, seen: &mut Vec<usize>) {
    match c {
        Child::Leaf(j) => seen.push(j),
        Child::Node(m) => {
            let n = t.nodes[m];
            count_leaves(t, n.left, seen);
            count_leaves(t, n.right, seen);
        }
    }
}

#[test]
fn empty_tree_misses() {
    let t = BvhNode::new();
    assert!(t.bounding_box().is_none());
    let r = t.hit(i64::MAX, &|_b: AABB, _t: i64| true, &|_j: usize| Some(0));
    assert_eq!(r, None);
    assert!(t.nodes.is_empty());
}

#[test]
fn single_leaf_tree() {
    let b = AABB::from(Point3::from(1, 1, 1), Point3::from(2, 2, 2));
    let t = BvhNode::from(vec![b]);
    assert_eq!(t.nodes.len(), 1);
    assert_eq!(t.nodes[0].left, Child::Leaf(0));
    assert_eq!(t.nodes[0].right, Child::Leaf(0));
    assert_eq!(t.nodes[0].aabb_box, b);
    assert_eq!(t.bounding_box(), Some(b));
}

#[test]
fn two_leaves_ordered_by_key() {
    // Leaf 1 is below leaf 0 on every axis, so it goes left whatever the axis.
    let b0 = AABB::from(Point3::from(5, 5, 5), Point3::from(6, 6, 6));
    let b1 = AABB::from(Point3::from(1, 1, 1), Point3::from(2, 2, 2));
    let t = BvhNode::from(vec![b0, b1]);
    assert_eq!(t.nodes.len(), 1);
    assert_eq!(t.nodes[0].left, Child::Leaf(1));
    assert_eq!(t.nodes[0].right, Child::Leaf(0));
    // Equal keys on every axis keep the input order.
    let t = BvhNode::from(vec![b0, b0]);
    assert_eq!(t.nodes[0].left, Child::Leaf(0));
    assert_eq!(t.nodes[0].right, Child::Leaf(1));
}

#[test]
fn tree_covers_every_leaf_once_and_boxes_nest() {
    for seed in 0..5u64 {
        let boxes = scene(seed, 37);
        let t = BvhNode::from(boxes.clone());
        let root = t.nodes.len() - 1;
        let mut seen = Vec::new();
        count_leaves(&t, Child::Node(root), &mut seen);
        seen.sort();
        seen.dedup();
        assert_eq!(seen, (0..37).collect::<Vec<usize>>());
        assert_eq!(t.bounding_box(), AABB::union_all(&boxes));
        for n in &t.nodes {
            for c in [n.left, n.right] {
                let cb = match c {
                    Child::Leaf(j) => boxes[j],
                    Child::Node(m) => t.nodes[m].aabb_box,
                };
                assert!(n.aabb_box.min.x <= cb.min.x && cb.max.x <= n.aabb_box.max.x);
                assert!(n.aabb_box.min.y <= cb.min.y && cb.max.y <= n.aabb_box.max.y);
                assert!(n.aabb_box.min.z <= cb.min.z && cb.max.z <= n.aabb_box.max.z);
            }
        }
    }
}

#[test]
fn bvh_hit_matches_linear_scan() {
    for seed in 0..4u64 {
        let boxes = scene(seed, 200);
        let t = BvhNode::from(boxes.clone());
        let list = HittableList { objects: boxes.clone() };
        let mut g = Lcg(seed + 100);
        let mut hits = 0;
        for _ in 0..2000 {
            let y = g.next(1050);
            let z = g.next(1050);
            let t_max = if g.next(4) == 0 { g.next(1100) } else { i64::MAX };
            let lf = |j: usize| leaf(&boxes, y, z, j);
            let bf = |b: AABB, tb: i64| boxtest(b, y, z, tb);
            let a = t.hit(t_max, &bf, &lf);
            let b = list.hit(t_max, &lf);
            assert_eq!(a.map(|h| h.1), b.map(|h| h.1));
            if let (Some((ja, sa)), Some((jb, _))) = (a, b) {
                let ties = (0..boxes.len()).filter(|&j| lf(j) == Some(sa)).count();
                if ties == 1 {
                    assert_eq!(ja, jb);
                }
                hits += 1;
            }
        }
        assert!(hits > 100);
    }
}

#[test]
fn bvh_prunes_missed_boxes() {
    let boxes = scene(9, 64);
    let t = BvhNode::from(boxes.clone());
    let calls = std::cell::Cell::new(0usize);
    let lf = |j: usize| {
        calls.set(calls.get() + 1);
        leaf(&boxes, -10, -10, j)
    };
    let r = t.hit(i64::MAX, &|b: AABB, tb: i64| boxtest(b, -10, -10, tb), &lf);
    assert_eq!(r, None);
    assert_eq!(calls.get(), 0);
    assert_eq!(closest_hit(boxes.len(), i64::MAX, &lf), None);
    assert_eq!(calls.get(), 64);
}

fn leaf_set(t: &BvhNode, c: Child) -> Vec<usize> {
    let mut v = Vec::new();
    count_leaves(t, c, &mut v);
    v.sort();
    v.dedup();
    v
}

#[test]
fn nodes_split_at_the_middle() {
    for n in [1usize, 2, 3, 4, 5, 8, 13, 64] {
        let boxes = scene(n as u64, n);
        let t = BvhNode::from(boxes);
        for (k, node) in t.nodes.iter().enumerate() {
            let m = leaf_set(&t, Child::Node(k)).len();
            let l = leaf_set(&t, node.left);
            let r = leaf_set(&t, node.right);
            match m {
                1 => {
                    assert_eq!(node.left, node.right);
                    assert!(matches!(node.left, Child::Leaf(_)));
                }
                2 => {
                    assert!(matches!(node.left, Child::Leaf(_)) && matches!(node.right, Child::Leaf(_)));
                    assert_ne!(node.left, node.right);
                }
                _ => {
                    assert!(matches!(node.left, Child::Node(_)) && matches!(node.right, Child::Node(_)));
                    assert_eq!(l.len(), m / 2);
                    assert_eq!(r.len(), m - m / 2);
                    assert!(l.iter().all(|j| !r.contains(j)));
                }
            }
        }
    }
}
