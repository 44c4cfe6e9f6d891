//! How the bands, each rendered on its own, make up the image; and a
//! renderer that goes through the bands one after the other.

use crate::bands::{
    band_count_spec, band_height_spec, band_top_spec, lemma_band_offsets, lemma_bands_tile,
    lemma_row_in_one_band, partition, rows_per_band_spec, Band,
};
use crate::raster::{
    computed_by, lemma_grid_determined, lemma_place, lemma_render_of_function, render, shade_spec,
    shaded_by, shaded_grid, shaded_prefix,
};
use vstd::arithmetic::div_mod::lemma_fundamental_div_mod_converse;
use vstd::prelude::*;

verus! {

/// The part of the buffer that band `i` takes.
pub open spec fn band_pixels(pixels: Seq<u8>, width: int, height: int, rows: int, i: int) -> Seq<
    u8,
> {
    pixels.subrange(
        band_top_spec(rows, i) * width,
        (band_top_spec(rows, i) + band_height_spec(height, rows, i)) * width,
    )
}

/// The escape times as band `i` sees them, with its own first row as row 0.
pub open spec fn band_escape(
    escape: spec_fn(int, int) -> Option<u32>,
    rows: int,
    i: int,
) -> spec_fn(int, int) -> Option<u32> {
    |col: int, row: int| escape(col, band_top_spec(rows, i) + row)
}

/// Band `i` has been rendered: its part of the buffer is the shaded grid of
/// its own rows.
pub open spec fn band_rendered(
    pixels: Seq<u8>,
    width: int,
    height: int,
    rows: int,
    i: int,
    escape: spec_fn(int, int) -> Option<u32>,
) -> bool {
    shaded_grid(
        band_pixels(pixels, width, height, rows, i),
        width,
        band_height_spec(height, rows, i),
        band_escape(escape, rows, i),
    )
}

/// Every band of the image for `worker_count` workers has been rendered.
pub open spec fn all_bands_rendered(
    pixels: Seq<u8>,
    width: int,
    height: int,
    worker_count: int,
    escape: spec_fn(int, int) -> Option<u32>,
) -> bool {
    let rows = rows_per_band_spec(height, worker_count);
    &&& pixels.len() == width * height
    &&& forall|i: int|
        0 <= i < band_count_spec(height, rows) ==> #[trigger] band_rendered(
            pixels,
            width,
            height,
            rows,
            i,
            escape,
        )
}

/// Once every band has been rendered, the buffer holds the image: each
/// pixel has the shade of its own escape time.
pub proof fn lemma_bands_assemble(
    pixels: Seq<u8>,
    width: int,
    height: int,
    worker_count: int,
    escape: spec_fn(int, int) -> Option<u32>,
)
    requires
        width >= 1,
        height >= 1,
        worker_count >= 1,
        all_bands_rendered(pixels, width, height, worker_count, escape),
    ensures
        shaded_grid(pixels, width, height, escape),
{
    let rows = rows_per_band_spec(height, worker_count);
    assert forall|p: int| 0 <= p < pixels.len() implies #[trigger] pixels[p] == shade_spec(
        escape(p % width, p / width),
    ) by {
        lemma_place(width, height, p);
        let col = p % width;
        let row = p / width;
        lemma_row_in_one_band(height, worker_count, row);
        let i = row / rows;
        lemma_bands_tile(height, worker_count, i);
        lemma_band_offsets(width, height, rows, i, col, row);
        let top = band_top_spec(rows, i);
        let end = top + band_height_spec(height, rows, i);
        assert(end * width <= width * height) by (nonlinear_arith)
            requires
                end <= height,
                width >= 1,
        ;
        let part = band_pixels(pixels, width, height, rows, i);
        let q = p - top * width;
        assert((row - top) * width == row * width - top * width) by (nonlinear_arith);
        lemma_fundamental_div_mod_converse(q, width, row - top, col);
        assert(band_rendered(pixels, width, height, rows, i, escape));
        assert(part[q] == pixels[p]);
    }
}

/// The image does not depend on the number of workers: two buffers whose
/// bands have all been rendered, for any two numbers of workers, are equal
/// byte for byte.
pub proof fn lemma_worker_count_is_immaterial(
    first: Seq<u8>,
    second: Seq<u8>,
    width: int,
    height: int,
    first_workers: int,
    second_workers: int,
    escape: spec_fn(int, int) -> Option<u32>,
)
    requires
        width >= 1,
        height >= 1,
        first_workers >= 1,
        second_workers >= 1,
        all_bands_rendered(first, width, height, first_workers, escape),
        all_bands_rendered(second, width, height, second_workers, escape),
    ensures
        first == second,
{
    lemma_bands_assemble(first, width, height, first_workers, escape);
    lemma_bands_assemble(second, width, height, second_workers, escape);
    lemma_grid_determined(first, second, width, height, escape);
}

/// A buffer of `len` zero bytes.
pub fn zeroed(len: usize) -> (buffer: Vec<u8>)
    ensures
        buffer@ == Seq::new(len as nat, |i: int| 0u8),
{
    let mut buffer: Vec<u8> = Vec::new();
    let mut i: usize = 0;
    while i < len
        invariant
            i <= len,
            buffer@ == Seq::new(i as nat, |j: int| 0u8),
        decreases len - i,
    {
        buffer.push(0);
        i += 1;
        proof {
            assert(buffer@ =~= Seq::new(i as nat, |j: int| 0u8));
        }
    }
    buffer
}

proof fn lemma_band_place(width: int, band_height: int, top: int, q: int)
    requires
        width >= 1,
        top >= 0,
        0 <= q < width * band_height,
    ensures
        (top * width + q) % width == q % width,
        (top * width + q) / width == top + q / width,
        0 <= q % width < width,
        0 <= q / width < band_height,
{
    lemma_place(width, band_height, q);
    let row = q / width;
    let col = q % width;
    assert((top + row) * width == top * width + row * width) by (nonlinear_arith);
    lemma_fundamental_div_mod_converse(top * width + q, width, top + row, col);
}

/// Renders the image one band after the other, as `worker_count` workers
/// would side by side: each band is rendered on a buffer of its own, with
/// its first row as row 0, and the bands are put together from the top
/// down. The image is the one that a single `render` of the whole grid
/// gives, whatever the number of workers.
#[verifier::loop_isolation(false)]
pub fn render_banded<F: Fn(usize, usize) -> Option<u32>>(
    bounds: (usize, usize),
    worker_count: usize,
    escape: &F,
) -> (pixels: Vec<u8>)
    requires
        bounds.0 >= 1,
        bounds.1 >= 1,
        worker_count >= 1,
        bounds.0 * bounds.1 <= usize::MAX,
        forall|col: usize, row: usize|
            col < bounds.0 && row < bounds.1 ==> call_requires(*escape, (col, row)),
    ensures
        pixels@.len() == bounds.0 * bounds.1,
        shaded_prefix(pixels@, bounds.0, *escape, bounds.0 * bounds.1),
        forall|f: spec_fn(int, int) -> Option<u32>| #[trigger]
            computed_by(*escape, bounds, f) ==> shaded_grid(
                pixels@,
                bounds.0 as int,
                bounds.1 as int,
                f,
            ),
{
    let width: usize = bounds.0;
    let height: usize = bounds.1;
    let bands: Vec<Band> = partition(height, worker_count);
    let ghost rows = rows_per_band_spec(height as int, worker_count as int);
    let mut pixels: Vec<u8> = Vec::new();
    let mut top: usize = 0;
    let mut i: usize = 0;
    proof {
        lemma_bands_tile(height as int, worker_count as int, 0);
        assert(top * width == 0) by (nonlinear_arith)
            requires
                top == 0,
        ;
    }
    while i < bands.len()
        invariant
            i <= bands@.len(),
            top <= height,
            i < bands@.len() ==> top == band_top_spec(rows, i as int),
            i == bands@.len() ==> top == height,
            pixels@.len() == top * width,
            shaded_prefix(pixels@, width, *escape, top * width),
        decreases bands@.len() - i,
    {
        let band: Band = bands[i];
        proof {
            assert(bands@[i as int].is_band(height as int, rows, i as int));
            lemma_bands_tile(height as int, worker_count as int, i as int);
            assert((top + band.height) * width <= width * height) by (nonlinear_arith)
                requires
                    top + band.height <= height,
                    width >= 1,
            ;
            assert((top + band.height) * width == top * width + band.height * width)
                by (nonlinear_arith);
            assert(band.height * width == width * band.height) by (nonlinear_arith);
        }
        let band_height: usize = band.height;
        let mut part: Vec<u8> = zeroed(band.pixel_count(width));
        let shifted = |col: usize, row: usize| -> (e: Option<u32>)
            requires
                col < width,
                row < band_height,
            ensures
                call_ensures(*escape, (col, (top + row) as usize), e),
            { escape(col, top + row) };
        render(part.as_mut_slice(), (width, band_height), shifted);
        let ghost before = pixels@;
        pixels.extend_from_slice(part.as_slice());
        proof {
            assert forall|p: int| 0 <= p < (top + band_height) * width implies shaded_by(
                *escape,
                (p % width as int) as usize,
                (p / width as int) as usize,
                #[trigger] pixels@[p],
            ) by {
                if p < top * width {
                    assert(pixels@[p] == before[p]);
                } else {
                    let q = p - top * width;
                    lemma_band_place(width as int, band_height as int, top as int, q);
                    assert(pixels@[p] == part@[q]);
                    let col = (q % width as int) as usize;
                    let row = (q / width as int) as usize;
                    assert(shaded_by(shifted, col, row, part@[q]));
                }
            }
        }
        top = top + band_height;
        i += 1;
    }
    proof {
        assert(height * width == width * height) by (nonlinear_arith);
        assert forall|f: spec_fn(int, int) -> Option<u32>| #[trigger]
            computed_by(*escape, bounds, f) implies shaded_grid(
            pixels@,
            bounds.0 as int,
            bounds.1 as int,
            f,
        ) by {
            lemma_render_of_function(pixels@, bounds, *escape, f);
        }
    }
    pixels
}

} // verus!
