//! Colour frames held row by row, and the pixel-level operations on them.
use vstd::prelude::*;
use crate::palette::Bgr;
use crate::grid::{lemma_cell_in_grid, lemma_cell_coords};

verus! {

/// A picture of `width` by `height` colours, stored row after row.
pub struct Frame {
    pub width: usize,
    pub height: usize,
    pub pixels: Vec<Bgr>,
}

impl Frame {
    /// The pixel vector holds exactly one colour per cell.
    pub open spec fn wf(&self) -> bool {
        self.pixels.len() == self.width * self.height
    }

    /// The colour at column `x`, row `y`.
    pub open spec fn at(&self, x: int, y: int) -> Bgr {
        self.pixels@[y * self.width + x]
    }
}

/// A colour as the display takes it: `0x00RRGGBB`.
pub open spec fn packed_rgb(c: Bgr) -> u32 {
    (c.r as int * 65536 + c.g as int * 256 + c.b as int) as u32
}

/// Packs one colour into a display word.
pub fn pack_rgb(c: Bgr) -> (w: u32)
    ensures
        w == packed_rgb(c),
        w == c.r as int * 65536 + c.g as int * 256 + c.b as int,
{
    let r = c.r as u32;
    let g = c.g as u32;
    let b = c.b as u32;
    assert((r << 16u32) | (g << 8u32) | b == r * 65536 + g * 256 + b) by (bit_vector)
        requires
            r < 256,
            g < 256,
            b < 256,
    ;
    (r << 16u32) | (g << 8u32) | b
}

/// A display word keeps its three channels apart: each comes back out of it
/// by a shift and a mask, and nothing stands above the red byte.
pub proof fn lemma_packed_rgb_channels(c: Bgr)
    ensures
        packed_rgb(c) < 0x100_0000,
        (packed_rgb(c) >> 16u32) & 0xff == c.r as u32,
        (packed_rgb(c) >> 8u32) & 0xff == c.g as u32,
        packed_rgb(c) & 0xff == c.b as u32,
{
    let r = c.r as u32;
    let g = c.g as u32;
    let b = c.b as u32;
    let w = packed_rgb(c);
    assert(w == r * 65536 + g * 256 + b);
    assert(w < 0x100_0000 && (w >> 16u32) & 0xff == r && (w >> 8u32) & 0xff == g && w & 0xff == b)
        by (bit_vector)
        requires
            r < 256,
            g < 256,
            b < 256,
            w == r * 65536 + g * 256 + b,
    ;
}

/// Copies a frame into a display buffer, one packed word per pixel in the
/// same row-major order; words past the frame are left as they were.
pub fn mat_to_rgb_buffer(frame: &Frame, buffer: &mut Vec<u32>)
    requires
        frame.wf(),
        frame.width * frame.height <= old(buffer).len(),
    ensures
        final(buffer).len() == old(buffer).len(),
        forall|k: int|
            0 <= k < frame.width * frame.height ==> final(buffer)@[k] == packed_rgb(
                #[trigger] frame.pixels@[k],
            ),
        forall|k: int|
            frame.width * frame.height <= k < old(buffer).len() ==> final(buffer)@[k] == old(
                buffer,
            )@[k],
{
    let n = frame.pixels.len();
    let mut k: usize = 0;
    while k < n
        invariant
            n == frame.pixels.len(),
            n == frame.width * frame.height,
            n <= buffer.len(),
            buffer.len() == old(buffer).len(),
            0 <= k <= n,
            forall|j: int| 0 <= j < k ==> buffer@[j] == packed_rgb(#[trigger] frame.pixels@[j]),
            forall|j: int| k <= j < buffer.len() ==> buffer@[j] == old(buffer)@[j],
        decreases n - k,
    {
        let w = pack_rgb(frame.pixels[k]);
        buffer.set(k, w);
        k = k + 1;
    }
}

/// The square of `side` by `side` pixels whose top-left corner is `(x, y)`.
pub fn crop_square(frame: &Frame, x: i32, y: i32, side: i32) -> (out: Frame)
    requires
        frame.wf(),
        0 <= x,
        0 <= y,
        0 <= side,
        x + side <= frame.width,
        y + side <= frame.height,
    ensures
        out.wf(),
        out.width == side,
        out.height == side,
        forall|i: int, j: int|
            0 <= i < side && 0 <= j < side ==> #[trigger] out.at(i, j) == frame.at(x + i, y + j),
{
    let w = side as usize;
    let x0 = x as usize;
    let y0 = y as usize;
    assert(w * w <= frame.width * frame.height) by (nonlinear_arith)
        requires
            0 <= w <= frame.width,
            w <= frame.height,
    ;
    let mut pixels: Vec<Bgr> = Vec::new();
    let mut k: usize = 0;
    let mut row: usize = 0;
    while row < w
        invariant
            frame.wf(),
            w * w <= frame.width * frame.height,
            w == side,
            x0 == x,
            y0 == y,
            x0 + w <= frame.width,
            y0 + w <= frame.height,
            0 <= row <= w,
            k == row * w,
            pixels.len() == k,
            forall|j: int|
                0 <= j < k ==> #[trigger] pixels@[j] == frame.at(x + j % (w as int), y + j / (w as int)),
        decreases w - row,
    {
        let mut col: usize = 0;
        while col < w
            invariant
                frame.wf(),
                w * w <= frame.width * frame.height,
                w == side,
                x0 == x,
                y0 == y,
                x0 + w <= frame.width,
                y0 + w <= frame.height,
                0 <= row < w,
                0 <= col <= w,
                k == row * w + col,
                pixels.len() == k,
                forall|j: int|
                    0 <= j < k ==> #[trigger] pixels@[j] == frame.at(x + j % (w as int), y + j / (w as int)),
            decreases w - col,
        {
            proof {
                lemma_cell_in_grid((x0 + col) as int, (y0 + row) as int, frame.width as int, frame.height as int);
                lemma_cell_coords(col as int, row as int, w as int);
                lemma_cell_in_grid(col as int, row as int, w as int, w as int);
            }
            let src = (y0 + row) * frame.width + (x0 + col);
            pixels.push(frame.pixels[src]);
            k = k + 1;
            col = col + 1;
        }
        assert(k == (row + 1) * w) by (nonlinear_arith)
            requires
                k == row * w + w,
        ;
        row = row + 1;
    }
    assert(k == w * w) by (nonlinear_arith)
        requires
            k == row * w,
            row == w,
    ;
    let out = Frame { width: w, height: w, pixels };
    assert forall|i: int, j: int| 0 <= i < side && 0 <= j < side implies #[trigger] out.at(i, j) == frame.at(
        x + i,
        y + j,
    ) by {
        lemma_cell_in_grid(i, j, w as int, w as int);
        lemma_cell_coords(i, j, w as int);
    }
    out
}

/// Where the copied block starts in the source, along one axis.
pub open spec fn shift_source_start(d: int) -> int {
    if d < 0 {
        -d
    } else {
        0
    }
}

/// Where the copied block starts in the result, along one axis.
pub open spec fn shift_target_start(d: int) -> int {
    if d >= 0 {
        d
    } else {
        0
    }
}

/// How far the copied block reaches along an axis of length `n` moved by `d`.
pub open spec fn shift_span(n: int, d: int) -> int {
    let a = if d >= 0 {
        d
    } else {
        -d
    };
    if n - a > 0 {
        n - a
    } else {
        0
    }
}

/// Some part of the texture is still inside its own bounds after the move.
pub open spec fn shift_copies(texture: &Frame, dx: int, dy: int) -> bool {
    shift_span(texture.width as int, dx) > 0 && shift_span(texture.height as int, dy) > 0
}

/// Cell `(x, y)` of the result receives a texture pixel.
pub open spec fn shift_covers(texture: &Frame, dx: int, dy: int, x: int, y: int) -> bool {
    &&& shift_copies(texture, dx, dy)
    &&& shift_target_start(dx) <= x < shift_target_start(dx) + shift_span(texture.width as int, dx)
    &&& shift_target_start(dy) <= y < shift_target_start(dy) + shift_span(texture.height as int, dy)
}

/// The colour that a shift by `(dx, dy)` over `fill` puts at `(x, y)`.
pub open spec fn shifted_at(texture: &Frame, fill: &Frame, dx: int, dy: int, x: int, y: int) -> Bgr {
    if shift_covers(texture, dx, dy, x, y) {
        texture.at(x - dx, y - dy)
    } else {
        fill.at(x, y)
    }
}

/// Moves `texture` by `dx` columns and `dy` rows over a copy of `fill`: the
/// part of the texture that stays inside the texture's own bounds lands on the
/// fill, and every other cell keeps the fill's colour.
pub fn shift_texture(texture: &Frame, dx: i32, dy: i32, fill_texture: &Frame) -> (out: Frame)
    requires
        texture.wf(),
        fill_texture.wf(),
        texture.width <= i32::MAX,
        texture.height <= i32::MAX,
        shift_copies(texture, dx as int, dy as int) ==> {
            &&& shift_target_start(dx as int) + shift_span(texture.width as int, dx as int)
                <= fill_texture.width
            &&& shift_target_start(dy as int) + shift_span(texture.height as int, dy as int)
                <= fill_texture.height
        },
    ensures
        out.wf(),
        out.width == fill_texture.width,
        out.height == fill_texture.height,
        forall|x: int, y: int|
            0 <= x < out.width && 0 <= y < out.height ==> #[trigger] out.at(x, y) == shifted_at(
                texture,
                fill_texture,
                dx as int,
                dy as int,
                x,
                y,
            ),
        forall|x: int, y: int|
            0 <= x < out.width && 0 <= y < out.height ==> #[trigger] out.at(x, y) == if {
                &&& 0 <= x < texture.width
                &&& 0 <= y < texture.height
                &&& 0 <= x - dx < texture.width
                &&& 0 <= y - dy < texture.height
            } {
                texture.at(x - dx, y - dy)
            } else {
                fill_texture.at(x, y)
            },
{
    let tw = texture.width as i64;
    let th = texture.height as i64;
    let ddx = dx as i64;
    let ddy = dy as i64;
    let ax: i64 = if ddx >= 0 { ddx } else { -ddx };
    let ay: i64 = if ddy >= 0 { ddy } else { -ddy };
    let span_x: i64 = if tw - ax > 0 { tw - ax } else { 0 };
    let span_y: i64 = if th - ay > 0 { th - ay } else { 0 };
    let copies = span_x > 0 && span_y > 0;
    let src_x: usize = if ddx < 0 { (-ddx) as usize } else { 0 };
    let src_y: usize = if ddy < 0 { (-ddy) as usize } else { 0 };
    let dst_x: usize = if ddx >= 0 { ddx as usize } else { 0 };
    let dst_y: usize = if ddy >= 0 { ddy as usize } else { 0 };
    let span_xu = span_x as usize;
    let span_yu = span_y as usize;
    assert(copies == shift_copies(texture, dx as int, dy as int));
    let w = fill_texture.width;
    let h = fill_texture.height;
    let mut pixels: Vec<Bgr> = Vec::new();
    let mut k: usize = 0;
    let mut row: usize = 0;
    while row < h
        invariant
            texture.wf(),
            fill_texture.wf(),
            w == fill_texture.width,
            h == fill_texture.height,
            copies == shift_copies(texture, dx as int, dy as int),
            copies ==> dst_x + span_xu <= w && dst_y + span_yu <= h,
            copies ==> src_x + span_xu <= texture.width && src_y + span_yu <= texture.height,
            src_x == shift_source_start(dx as int),
            src_y == shift_source_start(dy as int),
            dst_x == shift_target_start(dx as int),
            dst_y == shift_target_start(dy as int),
            span_xu == shift_span(texture.width as int, dx as int),
            span_yu == shift_span(texture.height as int, dy as int),
            0 <= row <= h,
            k == row * w,
            pixels.len() == k,
            forall|j: int|
                0 <= j < k ==> #[trigger] pixels@[j] == shifted_at(texture, fill_texture, dx as int, dy as int, j % (w as int), j / (w as int)),
        decreases h - row,
    {
        let mut col: usize = 0;
        while col < w
            invariant
                texture.wf(),
                fill_texture.wf(),
                w == fill_texture.width,
                h == fill_texture.height,
                copies == shift_copies(texture, dx as int, dy as int),
                copies ==> dst_x + span_xu <= w && dst_y + span_yu <= h,
                copies ==> src_x + span_xu <= texture.width && src_y + span_yu <= texture.height,
                src_x == shift_source_start(dx as int),
                src_y == shift_source_start(dy as int),
                dst_x == shift_target_start(dx as int),
                dst_y == shift_target_start(dy as int),
                span_xu == shift_span(texture.width as int, dx as int),
                span_yu == shift_span(texture.height as int, dy as int),
                0 <= row < h,
                0 <= col <= w,
                k == row * w + col,
                pixels.len() == k,
                forall|j: int|
                    0 <= j < k ==> #[trigger] pixels@[j] == shifted_at(texture, fill_texture, dx as int, dy as int, j % (w as int), j / (w as int)),
            decreases w - col,
        {
            proof {
                lemma_cell_coords(col as int, row as int, w as int);
                lemma_cell_in_grid(col as int, row as int, w as int, h as int);
            }
            let inside = copies && dst_x <= col && col - dst_x < span_xu && dst_y <= row && row
                - dst_y < span_yu;
            if inside {
                let tx = col - dst_x + src_x;
                let ty = row - dst_y + src_y;
                proof {
                    lemma_cell_in_grid(tx as int, ty as int, texture.width as int, texture.height as int);
                }
                let src = ty * texture.width + tx;
                assert(shift_covers(texture, dx as int, dy as int, col as int, row as int));
                assert(tx == col - dx && ty == row - dy);
                pixels.push(texture.pixels[src]);
                assert(pixels@[k as int] == texture.at(col - dx, row - dy));
                assert(pixels@[k as int] == shifted_at(texture, fill_texture, dx as int, dy as int, col as int, row as int));
            } else {
                assert(!shift_covers(texture, dx as int, dy as int, col as int, row as int));
                pixels.push(fill_texture.pixels[k]);
                assert(pixels@[k as int] == fill_texture.at(col as int, row as int));
                assert(pixels@[k as int] == shifted_at(texture, fill_texture, dx as int, dy as int, col as int, row as int));
            }
            k = k + 1;
            col = col + 1;
        }
        assert(k == (row + 1) * w) by (nonlinear_arith)
            requires
                k == row * w + w,
        ;
        row = row + 1;
    }
    assert(k == w * h) by (nonlinear_arith)
        requires
            k == row * w,
            row == h,
    ;
    let out = Frame { width: w, height: h, pixels };
    assert forall|x: int, y: int| 0 <= x < out.width && 0 <= y < out.height implies #[trigger] out.at(
        x,
        y,
    ) == shifted_at(texture, fill_texture, dx as int, dy as int, x, y) by {
        lemma_cell_in_grid(x, y, w as int, h as int);
        lemma_cell_coords(x, y, w as int);
    }
    assert forall|x: int, y: int| 0 <= x < out.width && 0 <= y < out.height implies #[trigger] out.at(
        x,
        y,
    ) == if {
        &&& 0 <= x < texture.width
        &&& 0 <= y < texture.height
        &&& 0 <= x - dx < texture.width
        &&& 0 <= y - dy < texture.height
    } {
        texture.at(x - dx, y - dy)
    } else {
        fill_texture.at(x, y)
    } by {
        lemma_shift_moves_texture(texture, fill_texture, dx as int, dy as int, x, y);
    }
    out
}

/// Moving a texture by nothing over a fill of its own size gives the texture back.
pub proof fn lemma_shift_by_zero(texture: &Frame, fill_texture: &Frame, x: int, y: int)
    requires
        texture.wf(),
        fill_texture.wf(),
        fill_texture.width == texture.width,
        fill_texture.height == texture.height,
        0 <= x < texture.width,
        0 <= y < texture.height,
    ensures
        shifted_at(texture, fill_texture, 0, 0, x, y) == texture.at(x, y),
{
}

/// The texture moves by exactly `(dx, dy)`: a cell inside the texture's own
/// bounds shows the texture pixel `dx` columns to its left and `dy` rows above
/// it whenever that pixel exists, and every other cell shows the fill.
pub proof fn lemma_shift_moves_texture(texture: &Frame, fill_texture: &Frame, dx: int, dy: int, x: int, y: int)
    ensures
        shifted_at(texture, fill_texture, dx, dy, x, y) == if {
            &&& 0 <= x < texture.width
            &&& 0 <= y < texture.height
            &&& 0 <= x - dx < texture.width
            &&& 0 <= y - dy < texture.height
        } {
            texture.at(x - dx, y - dy)
        } else {
            fill_texture.at(x, y)
        },
{
}

} // verus!
