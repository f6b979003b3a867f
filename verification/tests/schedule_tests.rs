use pathtracer::schedule::{output_index, samples_per_worker, worker_slice};

#[test]
fn sample_budget_splits_evenly_without_oversampling() {
    assert_eq!(samples_per_worker(100, 10), 10);
    assert_eq!(samples_per_worker(2000, 19), 105);
    assert!(105 * 19 <= 2000);
    assert_eq!(samples_per_worker(5, 10), 0);
    assert_eq!(samples_per_worker(7, 1), 7);
}

#[test]
fn worker_slices_tile_the_rows() {
    for (total, workers) in [(600, 10), (601, 7), (3, 8), (0, 4), (1, 1)] {
        let mut next = 0;
        for w in 0..workers {
            let (start, end) = worker_slice(total, workers, w);
            assert_eq!(start, next);
            assert!(start <= end);
            next = end;
        }
        assert_eq!(next, total);
    }
}

#[test]
fn output_order_is_row_major_top_down() {
    let width = 4;
    let height = 3;
    // The top row of the image (framebuffer row height - 1) is written first.
    assert_eq!(output_index(0, height - 1, width, height), 0);
    assert_eq!(output_index(3, height - 1, width, height), 3);
    assert_eq!(output_index(0, 0, width, height), 8);
    assert_eq!(output_index(3, 0, width, height), 11);
}

#[test]
fn output_positions_are_distinct_and_complete() {
    let width = 7;
    let height = 5;
    let mut seen = vec![false; width * height];
    for i in 0..width {
        for j in 0..height {
            let r = output_index(i, j, width, height);
            assert!(r < width * height);
            assert!(!seen[r]);
            seen[r] = true;
        }
    }
    assert!(seen.iter().all(|&s| s));
}
