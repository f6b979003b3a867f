use pathtracer::perlin::{Perlin, POINT_COUNT};

#[test]
fn generated_table_is_a_permutation() {
    let t = Perlin::perlin_generate_perm();
    assert_eq!(t.len(), POINT_COUNT);
    let mut seen = vec![false; POINT_COUNT];
    for &v in &t {
        assert!(v < POINT_COUNT);
        assert!(!seen[v]);
        seen[v] = true;
    }
}

#[test]
fn fresh_tables_differ_between_axes_in_general() {
    // Three independent shuffles of 256 entries virtually never agree;
    // what matters here is that each one is a permutation on its own.
    let p = Perlin::new();
    for table in [&p.perm_x, &p.perm_y, &p.perm_z] {
        let mut sorted: Vec<usize> = table.clone();
        sorted.sort();
        let identity: Vec<usize> = (0..POINT_COUNT).collect();
        assert_eq!(sorted, identity);
    }
}

#[test]
fn gradient_index_stays_in_range() {
    let p = Perlin::new();
    for (i, j, k) in [
        (0, 0, 0),
        (-1, -255, -256),
        (255, 256, 257),
        (123456, -654321, 17),
        (i32::MAX, i32::MIN, -1),
    ] {
        assert!(p.gradient_index(i, j, k) < POINT_COUNT);
    }
}

#[test]
fn gradient_index_xors_the_table_entries() {
    let identity: Vec<usize> = (0..POINT_COUNT).collect();
    let p = Perlin {
        perm_x: identity.clone(),
        perm_y: identity.clone(),
        perm_z: identity,
    };
    assert_eq!(p.gradient_index(1, 2, 4), 1 ^ 2 ^ 4);
    assert_eq!(p.gradient_index(0, 0, 0), 0);
    assert_eq!(p.gradient_index(-1, 0, 0), 255);
    assert_eq!(p.gradient_index(256, 0, 0), 0);
    assert_eq!(p.gradient_index(257, 3, 0), 1 ^ 3);
}
