//! The split of an image's rows into horizontal bands, one for each worker.

use vstd::arithmetic::div_mod::{
    lemma_div_plus_one, lemma_fundamental_div_mod, lemma_fundamental_div_mod_converse,
};
use vstd::prelude::*;

verus! {

/// `a / b`, rounded up.
pub open spec fn ceil_div(a: int, b: int) -> int {
    (a + b - 1) / b
}

/// The rows that a full band has when `height` rows go to `worker_count`
/// workers.
pub open spec fn rows_per_band_spec(height: int, worker_count: int) -> int {
    ceil_div(height, worker_count)
}

/// The number of bands that `height` rows make at `rows` rows a band.
pub open spec fn band_count_spec(height: int, rows: int) -> int {
    ceil_div(height, rows)
}

/// The first row of band `i`.
pub open spec fn band_top_spec(rows: int, i: int) -> int {
    i * rows
}

/// The rows of band `i`: `rows` of them, or what is left of the image.
pub open spec fn band_height_spec(height: int, rows: int, i: int) -> int {
    if height - i * rows < rows {
        height - i * rows
    } else {
        rows
    }
}

/// Row `row` of the image lies in band `i`.
pub open spec fn band_has_row(height: int, rows: int, i: int, row: int) -> bool {
    band_top_spec(rows, i) <= row < band_top_spec(rows, i) + band_height_spec(height, rows, i)
}

/// Pixel `(col, row)` of an image `width` wide lies in band `i`: bands keep
/// the image's width.
pub open spec fn band_has_pixel(
    width: int,
    height: int,
    rows: int,
    i: int,
    col: int,
    row: int,
) -> bool {
    0 <= col < width && band_has_row(height, rows, i, row)
}

/// Place `p` of a row-major buffer of rows `width` long lies in the part of
/// the buffer that band `i` takes.
pub open spec fn band_has_offset(width: int, height: int, rows: int, i: int, p: int) -> bool {
    band_top_spec(rows, i) * width <= p < (band_top_spec(rows, i) + band_height_spec(
        height,
        rows,
        i,
    )) * width
}

/// A horizontal slice of the image: `height` rows, the first of which is row
/// `top` of the image.
#[derive(Clone, Copy, Debug, PartialEq, Eq, Structural)]
pub struct Band {
    pub top: usize,
    pub height: usize,
}

impl Band {
    /// This is band `i` of an image of `height` rows cut at `rows` rows a band.
    pub open spec fn is_band(self, height: int, rows: int, i: int) -> bool {
        self.top == band_top_spec(rows, i) && self.height == band_height_spec(height, rows, i)
    }

    /// The pixels of the whole image at which the band's plane rectangle
    /// has its corners: the first of its top row, and the one past the last
    /// of the row below its bottom row.
    pub fn corners(&self, width: usize) -> (r: ((usize, usize), (usize, usize)))
        requires
            self.top + self.height <= usize::MAX,
        ensures
            r == ((0usize, self.top), (width, (self.top + self.height) as usize)),
    {
        ((0, self.top), (width, self.top + self.height))
    }

    /// The bytes that this band takes of a row-major buffer of rows `width`
    /// long.
    pub fn pixel_count(&self, width: usize) -> (count: usize)
        requires
            self.height * width <= usize::MAX,
        ensures
            count == self.height * width,
    {
        self.height * width
    }
}

proof fn lemma_ceil_div_bounds(a: int, b: int)
    requires
        a >= 1,
        b >= 1,
    ensures
        (ceil_div(a, b) - 1) * b < a <= ceil_div(a, b) * b,
        1 <= ceil_div(a, b) <= a,
{
    let q = ceil_div(a, b);
    lemma_fundamental_div_mod(a + b - 1, b);
    assert(b * q == q * b) by (nonlinear_arith);
    assert((q - 1) * b == q * b - b) by (nonlinear_arith);
    if q < 1 {
        assert(q * b <= 0) by (nonlinear_arith)
            requires
                q < 1,
                b >= 1,
        ;
    }
    if q > a {
        assert((q - 1) * b >= a) by (nonlinear_arith)
            requires
                q > a,
                a >= 1,
                b >= 1,
        ;
    }
}

proof fn lemma_ceil_div_unique(a: int, b: int, q: int)
    requires
        b >= 1,
        (q - 1) * b < a <= q * b,
    ensures
        q == ceil_div(a, b),
{
    assert((q - 1) * b == q * b - b) by (nonlinear_arith);
    lemma_fundamental_div_mod_converse(a + b - 1, b, q, a + b - 1 - q * b);
}

/// The rows of a full band: `height / worker_count`, rounded up.
pub fn rows_per_band(height: usize, worker_count: usize) -> (rows: usize)
    requires
        height >= 1,
        worker_count >= 1,
    ensures
        rows == rows_per_band_spec(height as int, worker_count as int),
        1 <= rows <= height,
{
    proof {
        lemma_div_plus_one(height - 1, worker_count as int);
        lemma_ceil_div_bounds(height as int, worker_count as int);
    }
    (height - 1) / worker_count + 1
}

/// The bands of an image of `height` rows for `worker_count` workers, from
/// the top of the image down.
pub fn partition(height: usize, worker_count: usize) -> (bands: Vec<Band>)
    requires
        height >= 1,
        worker_count >= 1,
    ensures
        bands@.len() == band_count_spec(
            height as int,
            rows_per_band_spec(height as int, worker_count as int),
        ),
        1 <= bands@.len() <= worker_count,
        forall|i: int|
            0 <= i < bands@.len() ==> (#[trigger] bands@[i]).is_band(
                height as int,
                rows_per_band_spec(height as int, worker_count as int),
                i,
            ),
{
    proof {
        lemma_band_count(height as int, worker_count as int);
    }
    let rows: usize = rows_per_band(height, worker_count);
    let mut bands: Vec<Band> = Vec::new();
    let mut top: usize = 0;
    proof {
        assert(bands@.len() * rows == 0) by (nonlinear_arith)
            requires
                bands@.len() == 0,
        ;
    }
    while top < height
        invariant
            1 <= rows <= height,
            top <= height,
            top < height ==> top == bands@.len() * rows,
            top == height ==> (bands@.len() - 1) * rows < height <= bands@.len() * rows,
            forall|i: int|
                0 <= i < bands@.len() ==> (#[trigger] bands@[i]).is_band(
                    height as int,
                    rows as int,
                    i,
                ),
        decreases height - top,
    {
        let left: usize = height - top;
        let band_height: usize = if left < rows {
            left
        } else {
            rows
        };
        let ghost count = bands@.len() as int;
        proof {
            assert((count + 1) * rows == count * rows + rows) by (nonlinear_arith);
        }
        bands.push(Band { top, height: band_height });
        top = top + band_height;
    }
    proof {
        lemma_ceil_div_unique(height as int, rows as int, bands@.len() as int);
    }
    bands
}

/// Every row of the image lies in exactly one band: that of index
/// `row / rows`, where `rows` are the rows of a full band.
pub proof fn lemma_row_in_one_band(height: int, worker_count: int, row: int)
    requires
        height >= 1,
        worker_count >= 1,
        0 <= row < height,
    ensures
        ({
            let rows = rows_per_band_spec(height, worker_count);
            let count = band_count_spec(height, rows);
            let owner = row / rows;
            &&& 0 <= owner < count
            &&& band_has_row(height, rows, owner, row)
            &&& forall|i: int| 0 <= i < count && band_has_row(height, rows, i, row) ==> i == owner
        }),
{
    let rows = rows_per_band_spec(height, worker_count);
    let count = band_count_spec(height, rows);
    let owner = row / rows;
    lemma_ceil_div_bounds(height, worker_count);
    lemma_ceil_div_bounds(height, rows);
    lemma_fundamental_div_mod(row, rows);
    assert(rows * owner == owner * rows) by (nonlinear_arith);
    assert(owner >= 0) by (nonlinear_arith)
        requires
            owner * rows + rows > 0,
            rows >= 1,
    ;
    assert(owner < count) by (nonlinear_arith)
        requires
            owner * rows <= row,
            row < height,
            height <= count * rows,
            rows >= 1,
    ;
    assert forall|i: int| 0 <= i < count && band_has_row(height, rows, i, row) implies i
        == owner by {
        lemma_fundamental_div_mod_converse(row, rows, i, row - i * rows);
    }
}

/// The bands follow one another without a gap: the first starts at row 0,
/// each has at least one row and ends where the next starts, and the last
/// ends with the image.
pub proof fn lemma_bands_tile(height: int, worker_count: int, i: int)
    requires
        height >= 1,
        worker_count >= 1,
        0 <= i < band_count_spec(height, rows_per_band_spec(height, worker_count)),
    ensures
        ({
            let rows = rows_per_band_spec(height, worker_count);
            let count = band_count_spec(height, rows);
            &&& band_top_spec(rows, 0) == 0
            &&& 1 <= band_height_spec(height, rows, i) <= rows
            &&& band_top_spec(rows, i) + band_height_spec(height, rows, i) == if i + 1 < count {
                band_top_spec(rows, i + 1)
            } else {
                height
            }
        }),
{
    let rows = rows_per_band_spec(height, worker_count);
    let count = band_count_spec(height, rows);
    lemma_ceil_div_bounds(height, worker_count);
    lemma_ceil_div_bounds(height, rows);
    assert(0 * rows == 0) by (nonlinear_arith);
    assert((i + 1) * rows == i * rows + rows) by (nonlinear_arith);
    assert((i + 1) * rows <= (count - 1) * rows || i + 1 >= count) by (nonlinear_arith)
        requires
            rows >= 1,
    ;
    assert(i * rows <= (count - 1) * rows) by (nonlinear_arith)
        requires
            i <= count - 1,
            rows >= 1,
    ;
    assert((count - 1) * rows == count * rows - rows) by (nonlinear_arith);
    if i + 1 >= count {
        assert(i == count - 1);
    }
}

/// There are never more bands than workers, and always at least one.
pub proof fn lemma_band_count(height: int, worker_count: int)
    requires
        height >= 1,
        worker_count >= 1,
    ensures
        1 <= band_count_spec(height, rows_per_band_spec(height, worker_count)) <= worker_count,
{
    let rows = rows_per_band_spec(height, worker_count);
    let count = band_count_spec(height, rows);
    lemma_ceil_div_bounds(height, worker_count);
    lemma_ceil_div_bounds(height, rows);
    assert(count - 1 < worker_count) by (nonlinear_arith)
        requires
            (count - 1) * rows < height,
            height <= rows * worker_count,
            rows >= 1,
    ;
}

/// The part of the buffer that a band takes holds the bytes of its own
/// pixels and of no others.
pub proof fn lemma_band_offsets(width: int, height: int, rows: int, i: int, col: int, row: int)
    requires
        0 <= col < width,
    ensures
        band_has_offset(width, height, rows, i, row * width + col) <==> band_has_row(
            height,
            rows,
            i,
            row,
        ),
{
    let top = band_top_spec(rows, i);
    let end = top + band_height_spec(height, rows, i);
    assert(top <= row <==> top * width <= row * width + col) by (nonlinear_arith)
        requires
            0 <= col < width,
    ;
    assert(row < end <==> row * width + col < end * width) by (nonlinear_arith)
        requires
            0 <= col < width,
    ;
}

/// Every pixel of the image lies in exactly one band, and the bands hold
/// nothing but pixels of the image.
pub proof fn lemma_pixel_in_one_band(
    width: int,
    height: int,
    worker_count: int,
    col: int,
    row: int,
)
    requires
        width >= 1,
        height >= 1,
        worker_count >= 1,
    ensures
        ({
            let rows = rows_per_band_spec(height, worker_count);
            let count = band_count_spec(height, rows);
            &&& 0 <= col < width && 0 <= row < height ==> {
                &&& 0 <= row / rows < count
                &&& band_has_pixel(width, height, rows, row / rows, col, row)
            }
            &&& forall|i: int|
                0 <= i < count && band_has_pixel(width, height, rows, i, col, row) ==> {
                    &&& 0 <= col < width
                    &&& 0 <= row < height
                    &&& i == row / rows
                }
        }),
{
    let rows = rows_per_band_spec(height, worker_count);
    let count = band_count_spec(height, rows);
    lemma_ceil_div_bounds(height, worker_count);
    if 0 <= row < height {
        lemma_row_in_one_band(height, worker_count, row);
    }
    assert forall|i: int|
        0 <= i < count && band_has_pixel(width, height, rows, i, col, row) implies 0 <= row
        < height by {
        assert(i * rows >= 0) by (nonlinear_arith)
            requires
                i >= 0,
                rows >= 1,
        ;
    }
}

} // verus!
