use mandelbrot::bands::partition;
use mandelbrot::dispatch::{render_banded, zeroed};
use mandelbrot::raster::{render, shade};

#[test]
fn shade_inverts_the_escape_time() {
    assert_eq!(shade(None), 0);
    assert_eq!(shade(Some(0)), 255);
    assert_eq!(shade(Some(1)), 254);
    assert_eq!(shade(Some(254)), 1);
    assert_eq!(shade(Some(255)), 0);
    assert_eq!(shade(Some(256)), 255);
}

#[test]
fn render_fills_row_by_row() {
    let mut pixels = vec![9u8; 6];
    render(&mut pixels, (3, 2), |col, row| {
        if col == row { None } else { Some((10 * row + col) as u32) }
    });
    assert_eq!(pixels, vec![0, 254, 253, 245, 0, 243]);
}

#[test]
fn render_of_an_empty_grid_writes_nothing() {
    let mut pixels: Vec<u8> = Vec::new();
    render(&mut pixels, (0, 5), |_, _| Some(1));
    assert!(pixels.is_empty());
    render(&mut pixels, (5, 0), |_, _| Some(1));
    assert!(pixels.is_empty());
}

#[test]
fn render_twice_gives_the_same_bytes() {
    let escape = |col: usize, row: usize| {
        if (col + row) % 3 == 0 { None } else { Some((col * row) as u32 % 255) }
    };
    let mut first = vec![0u8; 35];
    let mut second = vec![7u8; 35];
    render(&mut first, (7, 5), escape);
    render(&mut second, (7, 5), escape);
    assert_eq!(first, second);
}

#[test]
fn a_bounded_pixel_is_black() {
    let mut pixels = vec![1u8; 100 * 100];
    render(&mut pixels, (100, 100), |col, row| {
        if col == 50 && row == 50 { None } else { Some(3) }
    });
    assert_eq!(pixels[50 * 100 + 50], 0);
    assert_eq!(pixels[50 * 100 + 51], 252);
}

fn escape_of(col: usize, row: usize) -> Option<u32> {
    if (col * 7 + row * 3) % 5 == 0 {
        None
    } else {
        Some(((col * 31 + row * 17) % 255) as u32)
    }
}

#[test]
fn bands_rendered_apart_make_the_whole_image() {
    let bounds = (9usize, 23usize);
    let mut whole = vec![0u8; bounds.0 * bounds.1];
    render(&mut whole, bounds, escape_of);
    for workers in 1..30usize {
        let mut pixels = vec![0u8; bounds.0 * bounds.1];
        let mut rest: &mut [u8] = &mut pixels;
        for band in partition(bounds.1, workers) {
            let (part, tail) = rest.split_at_mut(band.pixel_count(bounds.0));
            rest = tail;
            render(part, (bounds.0, band.height), |col, row| escape_of(col, band.top + row));
        }
        assert!(rest.is_empty());
        assert_eq!(pixels, whole);
    }
}

#[test]
fn render_banded_gives_the_image_for_any_worker_count() {
    let bounds = (9usize, 23usize);
    let mut whole = vec![0u8; bounds.0 * bounds.1];
    render(&mut whole, bounds, escape_of);
    for workers in 1..30usize {
        assert_eq!(render_banded(bounds, workers, &escape_of), whole);
    }
    assert_eq!(render_banded((1, 1), 8, &|_, _| Some(5)), vec![250]);
}

#[test]
fn zeroed_is_all_zero() {
    assert_eq!(zeroed(0), Vec::<u8>::new());
    assert_eq!(zeroed(5), vec![0u8; 5]);
}
