use pathtracer::aabb::{Coord3, AABB};
use pathtracer::bvh::{scan_point, Bvh};

fn cube(x: u64, y: u64, z: u64, size: u64) -> AABB {
    AABB::new(Coord3::new(x, y, z), Coord3::new(x + size, y + size, z + size))
}

/// A small deterministic pseudo-random stream for building scenes.
struct Lcg(u64);

impl Lcg {
    fn next(&mut self) -> u64 {
        self.0 = self.0.wrapping_mul(6364136223846793005).wrapping_add(1442695040888963407);
        self.0 >> 33
    }
}

fn sorted_unique(mut v: Vec<usize>) -> Vec<usize> {
    v.sort();
    v.dedup();
    v
}

#[test]
fn scan_point_picks_exactly_the_containing_boxes() {
    let boxes = vec![cube(0, 0, 0, 10), cube(5, 5, 5, 10), cube(100, 100, 100, 1)];
    let hits = scan_point(&boxes, Coord3::new(7, 7, 7));
    assert_eq!(sorted_unique(hits), vec![0, 1]);
    let hits = scan_point(&boxes, Coord3::new(100, 100, 101));
    assert_eq!(sorted_unique(hits), vec![2]);
    let hits = scan_point(&boxes, Coord3::new(50, 50, 50));
    assert!(hits.is_empty());
}

#[test]
fn bvh_over_one_primitive_finds_it() {
    let boxes = vec![cube(3, 3, 3, 4)];
    let bvh = Bvh::build(&boxes);
    assert_eq!(sorted_unique(bvh.query_point(&boxes, Coord3::new(4, 4, 4))), vec![0]);
    assert!(bvh.query_point(&boxes, Coord3::new(0, 0, 0)).is_empty());
}

#[test]
fn bvh_query_agrees_with_scan_on_a_generated_scene() {
    let mut rng = Lcg(42);
    let mut boxes = Vec::new();
    for _ in 0..60 {
        let x = rng.next() % 1000;
        let y = rng.next() % 1000;
        let z = rng.next() % 1000;
        let s = 1 + rng.next() % 200;
        boxes.push(cube(x, y, z, s));
    }
    let bvh = Bvh::build(&boxes);
    for _ in 0..40 {
        let p = Coord3::new(rng.next() % 1200, rng.next() % 1200, rng.next() % 1200);
        let via_bvh = sorted_unique(bvh.query_point(&boxes, p));
        let via_scan = sorted_unique(scan_point(&boxes, p));
        assert_eq!(via_bvh, via_scan);
    }
}

#[test]
fn bvh_root_box_equals_the_list_fold() {
    let mut rng = Lcg(7);
    let mut boxes = Vec::new();
    for _ in 0..25 {
        let x = rng.next() % 500;
        let y = rng.next() % 500;
        let z = rng.next() % 500;
        let s = 1 + rng.next() % 50;
        boxes.push(cube(x, y, z, s));
    }
    let bvh = Bvh::build(&boxes);
    let root_box = bvh.bounding_box(&boxes);
    let folded = AABB::surrounding_box_all(&boxes).unwrap();
    assert_eq!(root_box, folded);
}

#[test]
fn list_fold_is_order_independent() {
    let boxes = vec![cube(5, 1, 9, 3), cube(0, 8, 2, 7), cube(4, 4, 4, 1), cube(9, 0, 0, 2)];
    let mut shuffled = boxes.clone();
    shuffled.reverse();
    shuffled.swap(0, 2);
    assert_eq!(
        AABB::surrounding_box_all(&boxes).unwrap(),
        AABB::surrounding_box_all(&shuffled).unwrap()
    );
}

#[test]
fn bvh_query_agrees_with_scan_on_overlapping_boxes() {
    let boxes = vec![
        cube(0, 0, 0, 100),
        cube(10, 10, 10, 100),
        cube(20, 20, 20, 100),
        cube(500, 500, 500, 10),
        cube(501, 501, 501, 10),
    ];
    let bvh = Bvh::build(&boxes);
    for p in [
        Coord3::new(15, 15, 15),
        Coord3::new(50, 50, 50),
        Coord3::new(505, 505, 505),
        Coord3::new(999, 999, 999),
    ] {
        assert_eq!(
            sorted_unique(bvh.query_point(&boxes, p)),
            sorted_unique(scan_point(&boxes, p))
        );
    }
}
