//! Laying rasterized glyphs out in cells of pixels, for backends that draw
//! the grid themselves.

use vstd::prelude::*;

use crate::terminal::canvas::lemma_cell_index;
use crate::terminal::Size;

verus! {

/// How many cells of the given size fit on a surface, in each direction.
pub fn compute_grid_size(
    surface_width: u32,
    surface_height: u32,
    cell_width: u32,
    cell_height: u32,
) -> (grid: Size)
    requires
        cell_width > 0,
        cell_height > 0,
    ensures
        grid.width == surface_width / cell_width,
        grid.height == surface_height / cell_height,
{
    Size::new((surface_width / cell_width) as usize, (surface_height / cell_height) as usize)
}

/// The pixels of `buffer`, three bytes each, with a fourth byte after each:
/// a copy of its first.
pub open spec fn with_alpha(buffer: Seq<u8>) -> Seq<u8> {
    Seq::new(
        (buffer.len() / 3 * 4) as nat,
        |i: int|
            if i % 4 == 3 {
                buffer[i / 4 * 3]
            } else {
                buffer[i / 4 * 3 + i % 4]
            },
    )
}

/// Gives every pixel of three bytes a fourth: its first byte again.
pub fn add_alpha_channel(buffer: &[u8]) -> (output: Vec<u8>)
    requires
        buffer@.len() % 3 == 0,
    ensures
        output@ == with_alpha(buffer@),
{
    let pixels = buffer.len() / 3;
    let mut output: Vec<u8> = Vec::new();
    let mut pixel: usize = 0;
    while pixel < pixels
        invariant
            pixel <= pixels,
            buffer@.len() <= usize::MAX,
            pixels == buffer@.len() / 3,
            buffer@.len() % 3 == 0,
            output@.len() == pixel * 4,
            forall|i: int|
                0 <= i < output@.len() ==> #[trigger] output@[i] == if i % 4 == 3 {
                    buffer@[i / 4 * 3]
                } else {
                    buffer@[i / 4 * 3 + i % 4]
                },
        decreases pixels - pixel,
    {
        let at = pixel * 3;
        output.push(buffer[at]);
        output.push(buffer[at + 1]);
        output.push(buffer[at + 2]);
        output.push(buffer[at]);
        pixel = pixel + 1;
    }
    assert(output@ =~= with_alpha(buffer@));
    output
}

/// A rasterized glyph: a box of pixels and where the box lies with respect
/// to the pen.
pub struct Glyph {
    /// The pixels of the box, row by row, three bytes each or four.
    pub buffer: Vec<u8>,
    /// Whether the pixels have four bytes: red, green, blue and alpha.
    pub has_alpha: bool,
    /// The extent of the box, in pixels.
    pub width: usize,
    pub height: usize,
    /// How far the top of the box lies above the baseline.
    pub top: i32,
    /// How far the left edge of the box lies to the right of the pen.
    pub left: i32,
}

impl Glyph {
    /// How many bytes a pixel of the glyph has.
    pub open spec fn stride(self) -> int {
        if self.has_alpha {
            4
        } else {
            3
        }
    }

    /// Whether the glyph holds as many bytes as its box has pixels.
    pub open spec fn valid(self) -> bool {
        self.buffer@.len() == self.stride() * (self.width * self.height)
    }

    /// The pixel in column `x` of row `y` of the box, packed into a word:
    /// red in the lowest byte, then green, blue and alpha. A pixel of three
    /// bytes gets its red for alpha.
    pub open spec fn pixel(self, x: int, y: int) -> u32 {
        let at = self.stride() * (y * self.width + x);
        let alpha = if self.has_alpha {
            self.buffer@[at + 3]
        } else {
            self.buffer@[at]
        };
        pack(self.buffer@[at], self.buffer@[at + 1], self.buffer@[at + 2], alpha)
    }
}

/// A pixel as a word: red in the lowest byte, then green, blue and alpha.
pub open spec fn pack(red: u8, green: u8, blue: u8, alpha: u8) -> u32 {
    (red as u32) | (green as u32) << 8 | (blue as u32) << 16 | (alpha as u32) << 24
}

/// Packs a pixel into a word.
pub fn pack_pixel(red: u8, green: u8, blue: u8, alpha: u8) -> (word: u32)
    ensures
        word == pack(red, green, blue, alpha),
{
    (red as u32) | (green as u32) << 8 | (blue as u32) << 16 | (alpha as u32) << 24
}

/// The row of a cell at which the top of a box lies that reaches `top`
/// above the baseline, the baseline lying `descent` above the bottom of the
/// cell: the first row if the box reaches above the cell, and the row after
/// the last if it lies below the cell.
pub open spec fn top_row(pixel_height: int, descent: int, top: int) -> int {
    if pixel_height + descent - top <= 0 {
        0
    } else if pixel_height + descent - top >= pixel_height {
        pixel_height
    } else {
        pixel_height + descent - top
    }
}

/// The column of a cell at which the left edge of a box lies.
pub open spec fn left_column(left: int) -> int {
    if left > 0 {
        left
    } else {
        0
    }
}

/// What the pixel in column `x` of row `y` of a cell shows once `glyph` is
/// laid into it: the pixel of the glyph that comes to lie there, and
/// nothing outside of its box.
pub open spec fn laid_pixel(glyph: Glyph, pixel_height: int, descent: int, x: int, y: int) -> u32 {
    let top = top_row(pixel_height, descent, glyph.top as int);
    let left = left_column(glyph.left as int);
    if left <= x < left + glyph.width && top <= y < top + glyph.height {
        glyph.pixel(x - left, y - top)
    } else {
        0
    }
}

/// Lays a glyph into a cell of pixels that is `pixel_width` wide. `descent`
/// is where the baseline lies, counted from the bottom of the cell; it is
/// negative where the baseline lies above the bottom.
pub fn lay_glyph(descent: i32, glyph: &Glyph, buffer: &mut Vec<u32>, pixel_width: usize)
    requires
        pixel_width > 0,
        old(buffer)@.len() % pixel_width as nat == 0,
        old(buffer)@.len() / pixel_width as nat <= i32::MAX,
        glyph.valid(),
    ensures
        final(buffer)@.len() == old(buffer)@.len(),
        forall|x: int, y: int|
            0 <= x < pixel_width && 0 <= y < old(buffer)@.len() / pixel_width as nat
                ==> final(buffer)@[y * pixel_width + x] == #[trigger] laid_pixel(
                *glyph,
                (old(buffer)@.len() / pixel_width as nat) as int,
                descent as int,
                x,
                y,
            ),
{
    let pixel_height = buffer.len() / pixel_width;
    let stride: usize = if glyph.has_alpha {
        4
    } else {
        3
    };
    assert(pixel_height <= i32::MAX);
    let above = pixel_height as i64 + descent as i64 - glyph.top as i64;
    let top: usize = if above <= 0 {
        0
    } else if above >= pixel_height as i64 {
        pixel_height
    } else {
        above as usize
    };
    assert(top == top_row(pixel_height as int, descent as int, glyph.top as int));
    let left: usize = if glyph.left > 0 {
        glyph.left as usize
    } else {
        0
    };
    proof {
        assert(buffer@.len() == pixel_width * pixel_height) by (nonlinear_arith)
            requires
                pixel_width > 0,
                buffer@.len() % pixel_width as nat == 0,
                pixel_height == buffer@.len() / pixel_width as nat,
        ;
    }
    let mut pixel_y: usize = 0;
    while pixel_y < pixel_height
        invariant
            pixel_y <= pixel_height,
            pixel_width > 0,
            buffer@.len() == old(buffer)@.len(),
            buffer@.len() == pixel_width * pixel_height,
            pixel_height == old(buffer)@.len() / pixel_width as nat,
            glyph.valid(),
            stride == glyph.stride(),
            top == top_row(pixel_height as int, descent as int, glyph.top as int),
            left == left_column(glyph.left as int),
            forall|x: int, y: int|
                0 <= x < pixel_width && 0 <= y < pixel_y ==> buffer@[y * pixel_width + x]
                    == #[trigger] laid_pixel(*glyph, pixel_height as int, descent as int, x, y),
        decreases pixel_height - pixel_y,
    {
        let mut pixel_x: usize = 0;
        while pixel_x < pixel_width
            invariant
                pixel_x <= pixel_width,
                pixel_y < pixel_height,
                pixel_width > 0,
                buffer@.len() == old(buffer)@.len(),
                buffer@.len() == pixel_width * pixel_height,
                pixel_height == old(buffer)@.len() / pixel_width as nat,
                glyph.valid(),
                stride == glyph.stride(),
                top == top_row(pixel_height as int, descent as int, glyph.top as int),
                left == left_column(glyph.left as int),
                forall|x: int, y: int|
                    0 <= x < pixel_width && (0 <= y < pixel_y || (y == pixel_y && x < pixel_x))
                        ==> buffer@[y * pixel_width + x] == #[trigger] laid_pixel(
                        *glyph,
                        pixel_height as int,
                        descent as int,
                        x,
                        y,
                    ),
            decreases pixel_width - pixel_x,
        {
            proof {
                lemma_cell_index(
                    pixel_width as int,
                    pixel_height as int,
                    pixel_x as int,
                    pixel_y as int,
                );
                assert(buffer@.len() == buffer.len());
            }
            let inside = pixel_x >= left && pixel_x - left < glyph.width && pixel_y >= top
                && pixel_y - top < glyph.height;
            let word = if inside {
                proof {
                    lemma_cell_index(
                        glyph.width as int,
                        glyph.height as int,
                        pixel_x as int - left as int,
                        pixel_y as int - top as int,
                    );
                    assert(glyph.buffer@.len() == glyph.buffer.len());
                    let at = (pixel_y as int - top as int) * glyph.width as int + (pixel_x as int
                        - left as int);
                    assert(stride as int * at + stride as int <= stride as int * (
                    glyph.width as int * glyph.height as int)) by (nonlinear_arith)
                        requires
                            0 <= at < glyph.width as int * glyph.height as int,
                            stride > 0,
                    ;
                    assert(0 <= stride as int * at) by (nonlinear_arith)
                        requires
                            0 <= at,
                            stride > 0,
                    ;
                }
                let font_index = stride * ((pixel_y - top) * glyph.width + (pixel_x - left));
                let red = glyph.buffer[font_index];
                let green = glyph.buffer[font_index + 1];
                let blue = glyph.buffer[font_index + 2];
                let alpha = if glyph.has_alpha {
                    glyph.buffer[font_index + 3]
                } else {
                    glyph.buffer[font_index]
                };
                pack_pixel(red, green, blue, alpha)
            } else {
                0
            };
            let ghost earlier = buffer@;
            buffer.set(pixel_y * pixel_width + pixel_x, word);
            proof {
                assert forall|x: int, y: int|
                    0 <= x < pixel_width && (0 <= y < pixel_y || (y == pixel_y && x < pixel_x + 1))
                    implies buffer@[y * pixel_width + x] == #[trigger] laid_pixel(
                    *glyph,
                    pixel_height as int,
                    descent as int,
                    x,
                    y,
                ) by {
                    lemma_cell_index(pixel_width as int, pixel_height as int, x, y);
                    if x == pixel_x && y == pixel_y {
                    } else {
                        assert(buffer@[y * pixel_width + x] == earlier[y * pixel_width + x]);
                    }
                }
            }
            pixel_x = pixel_x + 1;
        }
        pixel_y = pixel_y + 1;
    }
}

} // verus!
