//! Shading of a row-major pixel grid from per-pixel escape times.

use vstd::arithmetic::div_mod::{lemma_fundamental_div_mod, lemma_fundamental_div_mod_converse};
use vstd::prelude::*;

verus! {

/// The intensity of a pixel whose point left the escape radius at iteration
/// `i` (`Some(i)`), or stayed bounded (`None`): black for a bounded point,
/// and the brighter the sooner the point escaped.
pub open spec fn shade_spec(escape: Option<u32>) -> u8 {
    match escape {
        None => 0u8,
        Some(i) => (255 - (i % 256)) as u8,
    }
}

/// The intensity byte for an escape time.
pub fn shade(escape: Option<u32>) -> (byte: u8)
    ensures
        byte == shade_spec(escape),
{
    match escape {
        None => 0,
        Some(i) => 255 - ((i % 256) as u8),
    }
}

/// The place of pixel `(col, row)` in a row-major buffer of rows `width` long.
pub open spec fn offset_spec(width: int, col: int, row: int) -> int {
    row * width + col
}

/// `byte` is the shade of an escape time that `escape` may give for pixel
/// `(col, row)`.
pub open spec fn shaded_by<F: Fn(usize, usize) -> Option<u32>>(
    escape: F,
    col: usize,
    row: usize,
    byte: u8,
) -> bool {
    exists|e: Option<u32>| #[trigger] call_ensures(escape, (col, row), e) && byte == shade_spec(e)
}

/// The first `count` bytes of `pixels` are shaded by `escape`, each for the
/// pixel whose place in the row-major order it holds.
pub open spec fn shaded_prefix<F: Fn(usize, usize) -> Option<u32>>(
    pixels: Seq<u8>,
    width: usize,
    escape: F,
    count: int,
) -> bool {
    forall|p: int|
        0 <= p < count ==> shaded_by(
            escape,
            (p % width as int) as usize,
            (p / width as int) as usize,
            #[trigger] pixels[p],
        )
}

/// `pixels` is the grid `width` wide and `height` high in which every pixel
/// has the shade of the escape time that `escape` assigns to its coordinates.
pub open spec fn shaded_grid(
    pixels: Seq<u8>,
    width: int,
    height: int,
    escape: spec_fn(int, int) -> Option<u32>,
) -> bool {
    &&& pixels.len() == width * height
    &&& forall|p: int|
        0 <= p < pixels.len() ==> #[trigger] pixels[p] == shade_spec(escape(p % width, p / width))
}

/// Whatever `escape` gives for a pixel of the grid is what `f` assigns to it.
pub open spec fn computed_by<F: Fn(usize, usize) -> Option<u32>>(
    escape: F,
    bounds: (usize, usize),
    f: spec_fn(int, int) -> Option<u32>,
) -> bool {
    forall|col: usize, row: usize, e: Option<u32>|
        col < bounds.0 && row < bounds.1 && #[trigger] call_ensures(escape, (col, row), e) ==> e
            == f(col as int, row as int)
}

/// A place of the buffer is that of the pixel in its row and column.
pub proof fn lemma_place(width: int, height: int, p: int)
    requires
        0 <= p < width * height,
        width >= 0,
    ensures
        0 <= p % width < width,
        0 <= p / width < height,
        offset_spec(width, p % width, p / width) == p,
{
    assert(width > 0) by (nonlinear_arith)
        requires
            0 < width * height,
            width >= 0,
    ;
    lemma_fundamental_div_mod(p, width);
    let row = p / width;
    assert(width * row == row * width) by (nonlinear_arith);
    assert(0 <= row < height) by (nonlinear_arith)
        requires
            0 <= p < width * height,
            p == row * width + p % width,
            0 <= p % width < width,
    ;
}

/// What `render` leaves in the buffer, where the escape times are a function
/// of the coordinates: the shaded grid of that function.
pub proof fn lemma_render_of_function<F: Fn(usize, usize) -> Option<u32>>(
    pixels: Seq<u8>,
    bounds: (usize, usize),
    escape: F,
    f: spec_fn(int, int) -> Option<u32>,
)
    requires
        pixels.len() == bounds.0 * bounds.1,
        shaded_prefix(pixels, bounds.0, escape, bounds.0 * bounds.1),
        computed_by(escape, bounds, f),
    ensures
        shaded_grid(pixels, bounds.0 as int, bounds.1 as int, f),
{
    assert forall|p: int| 0 <= p < pixels.len() implies #[trigger] pixels[p] == shade_spec(
        f(p % bounds.0 as int, p / bounds.0 as int),
    ) by {
        lemma_place(bounds.0 as int, bounds.1 as int, p);
        let col = (p % bounds.0 as int) as usize;
        let row = (p / bounds.0 as int) as usize;
        assert(shaded_by(escape, col, row, pixels[p]));
    }
}

/// Two buffers that hold the shaded grid of one function are equal byte
/// for byte.
pub proof fn lemma_grid_determined(
    first: Seq<u8>,
    second: Seq<u8>,
    width: int,
    height: int,
    escape: spec_fn(int, int) -> Option<u32>,
)
    requires
        shaded_grid(first, width, height, escape),
        shaded_grid(second, width, height, escape),
    ensures
        first == second,
{
    assert(first =~= second);
}

proof fn lemma_offset(width: int, height: int, col: int, row: int)
    requires
        0 <= col < width,
        0 <= row < height,
    ensures
        0 <= offset_spec(width, col, row) < width * height,
        offset_spec(width, col, row) < offset_spec(width, 0, row + 1),
        offset_spec(width, 0, row + 1) <= width * height,
        offset_spec(width, col, row) % width == col,
        offset_spec(width, col, row) / width == row,
{
    assert(row * width >= 0) by (nonlinear_arith)
        requires
            row >= 0,
            width >= 0,
    ;
    assert((row + 1) * width == row * width + width) by (nonlinear_arith);
    assert((row + 1) * width <= width * height) by (nonlinear_arith)
        requires
            row + 1 <= height,
            width >= 0,
    ;
    lemma_fundamental_div_mod_converse(row * width + col, width, row, col);
}

/// Shades the grid `bounds.0` wide and `bounds.1` high, row by row:
/// pixel `(col, row)` gets the shade of `escape(col, row)`, at place
/// `row * bounds.0 + col` of `pixels`.
#[verifier::loop_isolation(false)]
pub fn render<F: Fn(usize, usize) -> Option<u32>>(
    pixels: &mut [u8],
    bounds: (usize, usize),
    escape: F,
)
    requires
        old(pixels)@.len() == bounds.0 * bounds.1,
        forall|col: usize, row: usize|
            col < bounds.0 && row < bounds.1 ==> call_requires(escape, (col, row)),
    ensures
        final(pixels)@.len() == old(pixels)@.len(),
        shaded_prefix(final(pixels)@, bounds.0, escape, bounds.0 * bounds.1),
        forall|f: spec_fn(int, int) -> Option<u32>| #[trigger]
            computed_by(escape, bounds, f) ==> shaded_grid(
                final(pixels)@,
                bounds.0 as int,
                bounds.1 as int,
                f,
            ),
{
    let width: usize = bounds.0;
    let height: usize = bounds.1;
    let len: usize = pixels.len();
    let mut row: usize = 0;
    while row < height
        invariant
            row <= height,
            pixels@.len() == width * height,
            shaded_prefix(pixels@, width, escape, offset_spec(width as int, 0, row as int)),
        decreases height - row,
    {
        let mut col: usize = 0;
        while col < width
            invariant
                row < height,
                col <= width,
                pixels@.len() == width * height,
                shaded_prefix(
                    pixels@,
                    width,
                    escape,
                    offset_spec(width as int, col as int, row as int),
                ),
            decreases width - col,
        {
            proof {
                lemma_offset(width as int, height as int, col as int, row as int);
                assert(row * width + col < len);
            }
            let e: Option<u32> = escape(col, row);
            let byte: u8 = shade(e);
            let p: usize = row * width + col;
            pixels[p] = byte;
            proof {
                assert(shaded_by(escape, col, row, byte));
            }
            col += 1;
        }
        proof {
            assert(offset_spec(width as int, width as int, row as int) == offset_spec(
                width as int,
                0,
                row + 1,
            )) by (nonlinear_arith);
        }
        row += 1;
    }
    proof {
        assert(offset_spec(width as int, 0, height as int) == width * height) by (nonlinear_arith);
        assert forall|f: spec_fn(int, int) -> Option<u32>| #[trigger]
            computed_by(escape, bounds, f) implies shaded_grid(
            pixels@,
            bounds.0 as int,
            bounds.1 as int,
            f,
        ) by {
            lemma_render_of_function(pixels@, bounds, escape, f);
        }
    }
}

} // verus!
