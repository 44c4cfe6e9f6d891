use mandelbrot::bands::{partition, rows_per_band, Band};

#[test]
fn rows_per_band_rounds_up() {
    assert_eq!(rows_per_band(100, 8), 13);
    assert_eq!(rows_per_band(16, 8), 2);
    assert_eq!(rows_per_band(17, 8), 3);
    assert_eq!(rows_per_band(1, 8), 1);
    assert_eq!(rows_per_band(750, 1), 750);
    assert_eq!(rows_per_band(usize::MAX, 1), usize::MAX);
    assert_eq!(rows_per_band(usize::MAX, usize::MAX), 1);
}

#[test]
fn partition_of_a_hundred_rows() {
    let bands = partition(100, 8);
    assert_eq!(bands.len(), 8);
    for i in 0..7 {
        assert_eq!(bands[i], Band { top: 13 * i, height: 13 });
    }
    assert_eq!(bands[7], Band { top: 91, height: 9 });
}

#[test]
fn partition_with_more_workers_than_rows() {
    let bands = partition(3, 8);
    assert_eq!(bands, vec![
        Band { top: 0, height: 1 },
        Band { top: 1, height: 1 },
        Band { top: 2, height: 1 },
    ]);
    assert_eq!(partition(5, 1), vec![Band { top: 0, height: 5 }]);
    assert_eq!(partition(1, 1), vec![Band { top: 0, height: 1 }]);
}

#[test]
fn partition_covers_every_row_once() {
    for height in 1..60usize {
        for workers in 1..12usize {
            let rows = rows_per_band(height, workers);
            let bands = partition(height, workers);
            assert_eq!(bands.len(), (height + rows - 1) / rows);
            assert!(bands.len() <= workers);
            let mut hits = vec![0u32; height];
            for b in bands.iter() {
                assert!(b.height >= 1 && b.height <= rows);
                for row in b.top..b.top + b.height {
                    hits[row] += 1;
                }
            }
            assert!(hits.iter().all(|&h| h == 1));
            for (row, _) in hits.iter().enumerate() {
                let owner = bands[row / rows];
                assert!(owner.top <= row && row < owner.top + owner.height);
            }
        }
    }
}

#[test]
fn band_pixel_counts_add_up() {
    let bands = partition(100, 8);
    let total: usize = bands.iter().map(|b| b.pixel_count(37)).sum();
    assert_eq!(total, 3700);
    assert_eq!(bands[7].pixel_count(37), 9 * 37);
}

#[test]
fn band_corners_use_the_image_rows() {
    let bands = partition(100, 8);
    assert_eq!(bands[0].corners(100), ((0, 0), (100, 13)));
    assert_eq!(bands[1].corners(100), ((0, 13), (100, 26)));
    assert_eq!(bands[7].corners(100), ((0, 91), (100, 100)));
}
