//! Relief of a noise frame in motion: where a pixel repeats, in a colour other
//! than white, its right or its lower neighbour, it may be recoloured, with a
//! chance that grows with the motion at that pixel.
use vstd::prelude::*;
use rand::rngs::ThreadRng;
use crate::palette::{Bgr, palette, white, in_palette, noise_palette, white_color, lemma_palette_shape,
    lemma_palette_distinct};
use crate::frame::Frame;
use crate::grid::{lemma_cell_in_grid, lemma_next_cell};
use crate::noise::{color_conflict, frame_settled};
use crate::random::{thread_rng, draw_below, draw_u32};

verus! {

/// How many times the whole frame is swept.
pub const RELIEF_PASSES: usize = 3;

/// The colour right of pixel `k`, or white past the last column.
pub open spec fn right_of(pixels: Seq<Bgr>, width: int, k: int) -> Bgr {
    if k % width + 1 < width {
        pixels[k + 1]
    } else {
        white()
    }
}

/// The colour below pixel `k`, or white past the last row.
pub open spec fn below_of(pixels: Seq<Bgr>, width: int, height: int, k: int) -> Bgr {
    if k / width + 1 < height {
        pixels[k + width]
    } else {
        white()
    }
}

/// Pixel `k` is not white and repeats its right or its lower neighbour.
pub open spec fn needs_relief(pixels: Seq<Bgr>, width: int, height: int, k: int) -> bool {
    let c = pixels[k];
    &&& c != white()
    &&& ((right_of(pixels, width, k) != white() && right_of(pixels, width, k) == c) || (below_of(
        pixels,
        width,
        height,
        k,
    ) != white() && below_of(pixels, width, height, k) == c))
}

/// `c` may replace a pixel whose right and lower neighbours are `right` and
/// `below`: it repeats neither of them, unless that neighbour is white.
pub open spec fn replacement_allowed(right: Bgr, below: Bgr, c: Bgr) -> bool {
    &&& (right == white() || c != right)
    &&& (below == white() || c != below)
}

/// The palette colours allowed next to `right` and `below`, in palette order.
pub open spec fn allowed_colors(right: Bgr, below: Bgr) -> Seq<Bgr> {
    palette().filter(|c: Bgr| replacement_allowed(right, below, c))
}

/// A draw of 32 random bits lets a pixel change when its top 24 bits fall
/// below the pixel's motion threshold. A threshold of `t` thus gives a chance
/// of `t / 2^24`, and `2^24` or more makes the change certain.
pub open spec fn motion_allows(draw: u32, threshold: u32) -> bool {
    draw / 256 < threshold
}

/// Whether a draw lets a pixel with this motion threshold change.
pub fn motion_accepts(draw: u32, threshold: u32) -> (accepted: bool)
    ensures
        accepted == motion_allows(draw, threshold),
        accepted == ((draw as int) < 256 * (threshold as int)),
{
    assert(draw >> 8u32 == draw / 256) by (bit_vector);
    (draw >> 8u32) < threshold
}

/// The palette colours that may replace a pixel next to `right` and `below`,
/// in palette order. There is always at least one.
pub fn allowed_replacements(right: Bgr, below: Bgr) -> (colors: Vec<Bgr>)
    ensures
        colors@ == allowed_colors(right, below),
        colors.len() > 0,
        forall|c: Bgr| #[trigger] colors@.contains(c) <==> in_palette(c) && replacement_allowed(right, below, c),
{
    let table = noise_palette();
    let white_c = white_color();
    let ghost pred = |c: Bgr| replacement_allowed(right, below, c);
    let mut colors: Vec<Bgr> = Vec::new();
    let mut i: usize = 0;
    while i < table.len()
        invariant
            table@ == palette(),
            white_c == white(),
            pred == (|c: Bgr| replacement_allowed(right, below, c)),
            0 <= i <= table.len(),
            colors@ == palette().take(i as int).filter(pred),
        decreases table.len() - i,
    {
        let c = table[i];
        assert(palette().take(i + 1) =~= palette().take(i as int).push(c));
        proof {
            palette().take(i as int).lemma_filter_push(c, pred);
        }
        let ok = (right == white_c || c != right) && (below == white_c || c != below);
        assert(ok == pred(c));
        if ok {
            colors.push(c);
        }
        assert(colors@ == palette().take(i + 1).filter(pred));
        i = i + 1;
    }
    assert(palette().take(table.len() as int) =~= palette());
    proof {
        lemma_palette_shape();
        lemma_palette_distinct();
        broadcast use vstd::seq_lib::group_filter_ensures;
        let p = palette();
        let k: int = if replacement_allowed(right, below, p[0]) {
            0
        } else if replacement_allowed(right, below, p[2]) {
            2
        } else {
            3
        };
        assert(pred(p[k]));
        p.lemma_filter_contains(pred, k);
        assert forall|c: Bgr| #[trigger] colors@.contains(c) <==> in_palette(c) && replacement_allowed(right, below, c) by {
            if colors@.contains(c) {
                p.lemma_filter_contains_rev(pred, c);
                let j = choose|j: int| 0 <= j < colors.len() && colors@[j] == c;
                p.lemma_filter_pred(pred, j);
            }
            if in_palette(c) && replacement_allowed(right, below, c) {
                let j = choose|j: int| 0 <= j < p.len() && p[j] == c;
                p.lemma_filter_contains(pred, j);
            }
        }
    }
    colors
}

/// A motion threshold from which every draw passes, so that a pixel needing
/// relief is always recoloured: `2^24`, one more than the largest value of the
/// top 24 bits of a draw.
pub const CERTAIN_THRESHOLD: u32 = 0x100_0000;

/// What one look at pixel `k` may make of the pixels `before`: no other pixel
/// changes; pixel `k` keeps its colour unless it needs relief and has motion;
/// when it changes it takes a palette colour allowed next to its right and
/// lower neighbours; and with a certain threshold it does change.
pub open spec fn relief_step(
    before: Seq<Bgr>,
    after: Seq<Bgr>,
    width: int,
    height: int,
    k: int,
    threshold: u32,
) -> bool {
    let conflict = needs_relief(before, width, height, k);
    let recoloured = in_palette(after[k]) && replacement_allowed(
        right_of(before, width, k),
        below_of(before, width, height, k),
        after[k],
    );
    &&& after.len() == before.len()
    &&& forall|j: int| 0 <= j < before.len() && j != k ==> #[trigger] after[j] == before[j]
    &&& (!conflict || threshold == 0) ==> after[k] == before[k]
    &&& conflict && threshold > 0 ==> (after[k] == before[k] || recoloured)
    &&& conflict && threshold >= CERTAIN_THRESHOLD ==> recoloured && after[k] != before[k]
}

/// The pixels after one look at pixel `k` with the 32 random bits `draw`
/// and the colour choice `pick`: when the pixel needs relief and the draw
/// passes its threshold, it takes colour `pick` of the colours allowed next
/// to its right and lower neighbours; otherwise nothing changes.
pub open spec fn relief_outcome(
    before: Seq<Bgr>,
    width: int,
    height: int,
    k: int,
    threshold: u32,
    draw: u32,
    pick: int,
) -> Seq<Bgr> {
    if needs_relief(before, width, height, k) && motion_allows(draw, threshold) {
        before.update(
            k,
            allowed_colors(right_of(before, width, k), below_of(before, width, height, k))[pick],
        )
    } else {
        before
    }
}

/// `pick` names one of the allowed colours whenever a colour is taken.
pub open spec fn pick_fits(
    before: Seq<Bgr>,
    width: int,
    height: int,
    k: int,
    threshold: u32,
    draw: u32,
    pick: int,
) -> bool {
    needs_relief(before, width, height, k) && motion_allows(draw, threshold) ==> 0 <= pick
        < allowed_colors(right_of(before, width, k), below_of(before, width, height, k)).len()
}

/// Every outcome of a look with a fitting pick is a `relief_step`.
pub proof fn lemma_outcome_is_step(
    before: Seq<Bgr>,
    width: int,
    height: int,
    k: int,
    threshold: u32,
    draw: u32,
    pick: int,
)
    requires
        0 <= k < before.len(),
        pick_fits(before, width, height, k, threshold, draw, pick),
    ensures
        relief_step(
            before,
            relief_outcome(before, width, height, k, threshold, draw, pick),
            width,
            height,
            k,
            threshold,
        ),
{
    let right = right_of(before, width, k);
    let below = below_of(before, width, height, k);
    let pred = |c: Bgr| replacement_allowed(right, below, c);
    assert(threshold >= CERTAIN_THRESHOLD ==> motion_allows(draw, threshold));
    if needs_relief(before, width, height, k) && motion_allows(draw, threshold) {
        broadcast use vstd::seq_lib::group_filter_ensures;
        let colors = allowed_colors(right, below);
        let c = colors[pick];
        assert(colors == palette().filter(pred));
        palette().lemma_filter_pred(pred, pick);
        assert(colors.contains(c));
        palette().lemma_filter_contains_rev(pred, c);
    }
}

/// `trace` runs from `start` to `end` through `RELIEF_PASSES` row-major
/// sweeps of the pixels: look `i` is at pixel `i % n`, with that pixel's
/// threshold, the draw `draws[i]` and the colour choice `picks[i]`; its
/// outcome is a `relief_outcome`, and so a `relief_step`.
pub open spec fn relief_sweep(
    trace: Seq<Seq<Bgr>>,
    draws: Seq<u32>,
    picks: Seq<int>,
    start: Seq<Bgr>,
    end: Seq<Bgr>,
    width: int,
    height: int,
    thresholds: Seq<u32>,
) -> bool {
    let n = start.len() as int;
    &&& trace.len() == RELIEF_PASSES * n + 1
    &&& draws.len() == RELIEF_PASSES * n
    &&& picks.len() == RELIEF_PASSES * n
    &&& trace[0] == start
    &&& trace[RELIEF_PASSES * n] == end
    &&& forall|i: int|
        #![trigger trace[i]]
        0 <= i < RELIEF_PASSES * n ==> {
            &&& pick_fits(trace[i], width, height, i % n, thresholds[i % n], draws[i], picks[i])
            &&& trace[i + 1] == relief_outcome(
                trace[i],
                width,
                height,
                i % n,
                thresholds[i % n],
                draws[i],
                picks[i],
            )
            &&& relief_step(trace[i], trace[i + 1], width, height, i % n, thresholds[i % n])
        }
}

/// The right and lower neighbours of pixel `k`, white past the frame's edge.
pub fn relief_neighbours(frame: &Frame, k: usize) -> (nb: (Bgr, Bgr))
    requires
        frame.wf(),
        k < frame.pixels.len(),
    ensures
        nb.0 == right_of(frame.pixels@, frame.width as int, k as int),
        nb.1 == below_of(frame.pixels@, frame.width as int, frame.height as int, k as int),
{
    let w = frame.width;
    let h = frame.height;
    assert(w > 0) by (nonlinear_arith)
        requires
            k < w * h,
    ;
    let col = k % w;
    let row = k / w;
    proof {
        vstd::arithmetic::div_mod::lemma_fundamental_div_mod(k as int, w as int);
        assert(k == row * w + col) by (nonlinear_arith)
            requires
                k == w * row + col,
        ;
        assert(row < h) by (nonlinear_arith)
            requires
                k == row * w + col,
                k < w * h,
                0 <= col,
                w > 0,
        ;
    }
    let white_c = white_color();
    let right = if col + 1 < w {
        proof {
            lemma_cell_in_grid((col + 1) as int, row as int, w as int, h as int);
        }
        frame.pixels[k + 1]
    } else {
        white_c
    };
    let below = if row + 1 < h {
        proof {
            lemma_cell_in_grid(col as int, (row + 1) as int, w as int, h as int);
            assert((row + 1) * w + col == k + w) by (nonlinear_arith)
                requires
                    k == row * w + col,
            ;
        }
        frame.pixels[k + w]
    } else {
        white_c
    };
    (right, below)
}

/// Looks at pixel `k` once, with the random bits `draw` and the colour
/// choice `pick` given: the pixels become exactly the `relief_outcome`.
pub fn relieve_pixel_with(frame: &mut Frame, k: usize, threshold: u32, draw: u32, pick: usize)
    requires
        old(frame).wf(),
        k < old(frame).pixels.len(),
        pick_fits(
            old(frame).pixels@,
            old(frame).width as int,
            old(frame).height as int,
            k as int,
            threshold,
            draw,
            pick as int,
        ),
    ensures
        final(frame).wf(),
        final(frame).width == old(frame).width,
        final(frame).height == old(frame).height,
        final(frame).pixels@ == relief_outcome(
            old(frame).pixels@,
            old(frame).width as int,
            old(frame).height as int,
            k as int,
            threshold,
            draw,
            pick as int,
        ),
{
    let (right, below) = relief_neighbours(frame, k);
    let white_c = white_color();
    let c = frame.pixels[k];
    let conflict = c != white_c && ((right != white_c && right == c) || (below != white_c && below
        == c));
    if conflict && motion_accepts(draw, threshold) {
        let choices = allowed_replacements(right, below);
        frame.pixels.set(k, choices[pick]);
    }
}

/// Looks at pixel `k` once. When it needs relief, 32 random bits are drawn;
/// when they pass `threshold` (see `motion_allows`), a colour is drawn at
/// random among `allowed_replacements` of its right and lower neighbours and
/// the pixel takes it (see `relieve_pixel_with`). No other pixel changes.
pub fn relieve_pixel(frame: &mut Frame, k: usize, threshold: u32, rng: &mut ThreadRng)
    requires
        old(frame).wf(),
        k < old(frame).pixels.len(),
    ensures
        final(frame).wf(),
        final(frame).width == old(frame).width,
        final(frame).height == old(frame).height,
        relief_step(
            old(frame).pixels@,
            final(frame).pixels@,
            old(frame).width as int,
            old(frame).height as int,
            k as int,
            threshold,
        ),
        exists|draw: u32, pick: int|
            {
                &&& pick_fits(
                    old(frame).pixels@,
                    old(frame).width as int,
                    old(frame).height as int,
                    k as int,
                    threshold,
                    draw,
                    pick,
                )
                &&& final(frame).pixels@ == relief_outcome(
                    old(frame).pixels@,
                    old(frame).width as int,
                    old(frame).height as int,
                    k as int,
                    threshold,
                    draw,
                    pick,
                )
            },
{
    let ghost before = frame.pixels@;
    let ghost w = frame.width as int;
    let ghost h = frame.height as int;
    let (right, below) = relief_neighbours(frame, k);
    let white_c = white_color();
    let c = frame.pixels[k];
    let conflict = c != white_c && ((right != white_c && right == c) || (below != white_c && below
        == c));
    if !conflict {
        proof {
            lemma_outcome_is_step(before, w, h, k as int, threshold, 0, 0);
            assert(relief_outcome(before, w, h, k as int, threshold, 0, 0) == before);
        }
        return;
    }
    let draw = draw_u32(rng);
    if !motion_accepts(draw, threshold) {
        proof {
            lemma_outcome_is_step(before, w, h, k as int, threshold, draw, 0);
            assert(relief_outcome(before, w, h, k as int, threshold, draw, 0) == before);
        }
        return;
    }
    let choices = allowed_replacements(right, below);
    let pick = draw_below(rng, choices.len());
    relieve_pixel_with(frame, k, threshold, draw, pick);
    proof {
        lemma_outcome_is_step(before, w, h, k as int, threshold, draw, pick as int);
    }
}

/// Sweeps the frame `RELIEF_PASSES` times in row-major order, relieving each
/// pixel in turn (see `relieve_pixel`). `motion_thresholds` holds, for each
/// pixel, its chance of change in units of `2^-24`: the motion magnitude over
/// the full-motion magnitude, clipped to `[0, 1]`, times `2^24` and rounded up.
/// The result is what such a sweep makes with the draws that came back (see
/// `relief_sweep`): white pixels stay white, pixels without motion keep their
/// colour, and every colour that changes becomes a palette colour.
pub fn enforce_noise_rule(frame: &mut Frame, motion_thresholds: &Vec<u32>)
    requires
        old(frame).wf(),
        motion_thresholds.len() == old(frame).pixels.len(),
    ensures
        final(frame).wf(),
        final(frame).width == old(frame).width,
        final(frame).height == old(frame).height,
        forall|k: int|
            0 <= k < old(frame).pixels.len() && old(frame).pixels@[k] == white() ==> #[trigger] final(frame).pixels@[k] == white(),
        forall|k: int|
            0 <= k < old(frame).pixels.len() && motion_thresholds@[k] == 0 ==> #[trigger] final(frame).pixels@[k] == old(frame).pixels@[k],
        forall|k: int|
            0 <= k < old(frame).pixels.len() ==> #[trigger] final(frame).pixels@[k] == old(frame).pixels@[k] || in_palette(final(frame).pixels@[k]),
        exists|trace: Seq<Seq<Bgr>>, draws: Seq<u32>, picks: Seq<int>|
            relief_sweep(
                trace,
                draws,
                picks,
                old(frame).pixels@,
                final(frame).pixels@,
                old(frame).width as int,
                old(frame).height as int,
                motion_thresholds@,
            ),
{
    let mut rng = thread_rng();
    let n = frame.pixels.len();
    let ghost w = frame.width as int;
    let ghost h = frame.height as int;
    let ghost mut trace: Seq<Seq<Bgr>> = seq![frame.pixels@];
    let ghost mut draws: Seq<u32> = Seq::empty();
    let ghost mut picks: Seq<int> = Seq::empty();
    let mut pass: usize = 0;
    while pass < RELIEF_PASSES
        invariant
            0 <= pass <= RELIEF_PASSES,
            trace.len() == pass * n + 1,
            trace[0] == old(frame).pixels@,
            trace[pass * n as int] == frame.pixels@,
            w == old(frame).width,
            h == old(frame).height,
            forall|i: int|
                #![trigger trace[i]]
                0 <= i < pass * n ==> {
                    &&& pick_fits(
                        trace[i],
                        w,
                        h,
                        i % (n as int),
                        motion_thresholds@[i % (n as int)],
                        draws[i],
                        picks[i],
                    )
                    &&& trace[i + 1] == relief_outcome(
                        trace[i],
                        w,
                        h,
                        i % (n as int),
                        motion_thresholds@[i % (n as int)],
                        draws[i],
                        picks[i],
                    )
                    &&& relief_step(
                        trace[i],
                        trace[i + 1],
                        w,
                        h,
                        i % (n as int),
                        motion_thresholds@[i % (n as int)],
                    )
                },
            draws.len() == pass * n,
            picks.len() == pass * n,
            frame.wf(),
            frame.width == old(frame).width,
            frame.height == old(frame).height,
            n == frame.pixels.len(),
            n == motion_thresholds.len(),
            forall|j: int|
                0 <= j < n && old(frame).pixels@[j] == white() ==> #[trigger] frame.pixels@[j]
                    == white(),
            forall|j: int|
                0 <= j < n && motion_thresholds@[j] == 0 ==> #[trigger] frame.pixels@[j] == old(frame).pixels@[j],
            forall|j: int|
                0 <= j < n ==> #[trigger] frame.pixels@[j] == old(frame).pixels@[j] || in_palette(
                    frame.pixels@[j],
                ),
        decreases RELIEF_PASSES - pass,
    {
        let mut k: usize = 0;
        while k < n
            invariant
                0 <= pass < RELIEF_PASSES,
                trace.len() == pass * n + k + 1,
                trace[0] == old(frame).pixels@,
                trace[pass * n + k] == frame.pixels@,
                w == old(frame).width,
                h == old(frame).height,
                forall|i: int|
                    #![trigger trace[i]]
                    0 <= i < pass * n + k ==> {
                        &&& pick_fits(
                            trace[i],
                            w,
                            h,
                            i % (n as int),
                            motion_thresholds@[i % (n as int)],
                            draws[i],
                            picks[i],
                        )
                        &&& trace[i + 1] == relief_outcome(
                            trace[i],
                            w,
                            h,
                            i % (n as int),
                            motion_thresholds@[i % (n as int)],
                            draws[i],
                            picks[i],
                        )
                        &&& relief_step(
                            trace[i],
                            trace[i + 1],
                            w,
                            h,
                            i % (n as int),
                            motion_thresholds@[i % (n as int)],
                        )
                    },
                draws.len() == pass * n + k,
                picks.len() == pass * n + k,
                frame.wf(),
                frame.width == old(frame).width,
                frame.height == old(frame).height,
                n == frame.pixels.len(),
                n == motion_thresholds.len(),
                0 <= k <= n,
                forall|j: int|
                    0 <= j < n && old(frame).pixels@[j] == white() ==> #[trigger] frame.pixels@[j]
                        == white(),
                forall|j: int|
                    0 <= j < n && motion_thresholds@[j] == 0 ==> #[trigger] frame.pixels@[j] == old(frame).pixels@[j],
                forall|j: int|
                    0 <= j < n ==> #[trigger] frame.pixels@[j] == old(frame).pixels@[j] || in_palette(
                        frame.pixels@[j],
                    ),
            decreases n - k,
        {
            let ghost before = frame.pixels@;
            relieve_pixel(frame, k, motion_thresholds[k], &mut rng);
            proof {
                crate::grid::lemma_cell_coords(k as int, pass as int, n as int);
                assert((pass * n + k) % (n as int) == k);
                let (d, pk) = choose|d: u32, pk: int|
                    {
                        &&& pick_fits(before, w, h, k as int, motion_thresholds@[k as int], d, pk)
                        &&& frame.pixels@ == relief_outcome(
                            before,
                            w,
                            h,
                            k as int,
                            motion_thresholds@[k as int],
                            d,
                            pk,
                        )
                    };
                draws = draws.push(d);
                picks = picks.push(pk);
                trace = trace.push(frame.pixels@);
                assert(trace[pass * n + k] == before);
            }
            k = k + 1;
        }
        assert(pass * n + n == (pass + 1) * n) by (nonlinear_arith);
        pass = pass + 1;
    }
    assert(trace[RELIEF_PASSES * n as int] == frame.pixels@);
    assert(relief_sweep(
        trace,
        draws,
        picks,
        old(frame).pixels@,
        frame.pixels@,
        old(frame).width as int,
        old(frame).height as int,
        motion_thresholds@,
    ));
}

/// The relief rule and the texture rule see the same conflicts: a frame has
/// no pixel repeating, in a non-white colour, its left or upper neighbour
/// exactly when it has no pixel repeating, in a non-white colour, its right or
/// lower neighbour.
pub proof fn lemma_relief_sees_every_conflict(frame: &Frame)
    requires
        frame.wf(),
    ensures
        frame_settled(frame) <==> forall|k: int|
            0 <= k < frame.pixels.len() ==> !#[trigger] needs_relief(
                frame.pixels@,
                frame.width as int,
                frame.height as int,
                k,
            ),
{
    let p = frame.pixels@;
    let w = frame.width as int;
    let h = frame.height as int;
    let n = p.len() as int;
    if n == 0 {
        return;
    }
    assert(w > 0) by (nonlinear_arith)
        requires
            n == w * h,
            n > 0,
            w >= 0,
            h >= 0,
    ;
    // A pixel needing relief makes its right or lower neighbour conflict.
    assert forall|k: int| 0 <= k < n && #[trigger] needs_relief(p, w, h, k) implies exists|j: int|
        0 <= j < n && #[trigger] color_conflict(p, w, j) by {
        vstd::arithmetic::div_mod::lemma_fundamental_div_mod(k, w);
        let row = k / w;
        let col = k % w;
        lemma_next_cell(k, w);
        assert(k == row * w + col) by (nonlinear_arith)
            requires
                k == w * row + col,
        ;
        assert(row < h) by (nonlinear_arith)
            requires
                k == row * w + col,
                k < n,
                n == w * h,
                0 <= col,
                w > 0,
        ;
        if right_of(p, w, k) != white() && right_of(p, w, k) == p[k] {
            lemma_cell_in_grid(col + 1, row, w, h);
            assert(color_conflict(p, w, k + 1));
        } else {
            assert(row + 1 < h);
            lemma_cell_in_grid(col, row + 1, w, h);
            assert((row + 1) * w + col == k + w) by (nonlinear_arith)
                requires
                    k == row * w + col,
            ;
            assert(color_conflict(p, w, k + w));
        }
    }
    // A conflicting pixel makes its left or upper neighbour need relief.
    assert forall|k: int| 0 <= k < n && #[trigger] color_conflict(p, w, k) implies exists|j: int|
        0 <= j < n && #[trigger] needs_relief(p, w, h, j) by {
        vstd::arithmetic::div_mod::lemma_small_mod(0, w as nat);
        if k % w != 0 && p[k] == p[k - 1] {
            lemma_next_cell(k - 1, w);
            assert(right_of(p, w, k - 1) == p[k]);
            assert(needs_relief(p, w, h, k - 1));
        } else {
            let j = k - w;
            vstd::arithmetic::div_mod::lemma_fundamental_div_mod(j, w);
            vstd::arithmetic::div_mod::lemma_mod_bound(j, w);
            let row = j / w;
            let col = j % w;
            assert(k == (row + 1) * w + col) by (nonlinear_arith)
                requires
                    j == w * row + col,
                    k == j + w,
            ;
            crate::grid::lemma_cell_coords(col, row + 1, w);
            assert(k / w == row + 1);
            assert(row + 1 < h) by (nonlinear_arith)
                requires
                    k == (row + 1) * w + col,
                    k < n,
                    n == w * h,
                    0 <= col,
                    w > 0,
            ;
            assert(below_of(p, w, h, j) == p[k]);
            assert(needs_relief(p, w, h, j));
        }
    }
}

/// A look passes its motion test exactly for the draws below `256 * threshold`:
/// out of the `2^32` equally likely draws, `256 * threshold` pass, so the
/// chance of a change is `threshold / 2^24`, and every draw passes once the
/// threshold reaches `CERTAIN_THRESHOLD`.
pub proof fn lemma_motion_test_is_fair(draw: u32, threshold: u32)
    ensures
        motion_allows(draw, threshold) <==> (draw as int) < 256 * (threshold as int),
        threshold >= CERTAIN_THRESHOLD ==> motion_allows(draw, threshold),
        0 < threshold ==> motion_allows(0, threshold),
        threshold < CERTAIN_THRESHOLD ==> !motion_allows(u32::MAX, threshold),
{
}

/// A filter keeps a sequence free of repeats.
pub proof fn lemma_filter_no_duplicates<A>(s: Seq<A>, pred: spec_fn(A) -> bool)
    requires
        s.no_duplicates(),
    ensures
        s.filter(pred).no_duplicates(),
    decreases s.len(),
{
    if s.len() > 0 {
        let rest = s.drop_last();
        let last = s.last();
        assert(rest.no_duplicates());
        lemma_filter_no_duplicates(rest, pred);
        assert(s =~= rest.push(last));
        rest.lemma_filter_push(last, pred);
        let f = rest.filter(pred);
        if pred(last) {
            assert forall|i: int, j: int|
                0 <= i < f.push(last).len() && 0 <= j < f.push(last).len() && i != j implies f.push(
                last,
            )[i] != f.push(last)[j] by {
                if i == f.len() || j == f.len() {
                    let o = if i == f.len() {
                        j
                    } else {
                        i
                    };
                    if f[o] == last {
                        assert(f.contains(last));
                        rest.lemma_filter_contains_rev(pred, last);
                        let m = choose|m: int| 0 <= m < rest.len() && rest[m] == last;
                        assert(s[m] == s[s.len() - 1]);
                    }
                }
            }
        }
    }
}

/// The colours allowed next to two neighbours are all different, and every
/// palette colour that repeats neither neighbour is among them.
pub proof fn lemma_allowed_colors_are_the_allowed_palette(right: Bgr, below: Bgr)
    ensures
        allowed_colors(right, below).no_duplicates(),
        forall|c: Bgr|
            in_palette(c) && replacement_allowed(right, below, c) ==> exists|pick: int|
                0 <= pick < allowed_colors(right, below).len() && #[trigger] allowed_colors(
                    right,
                    below,
                )[pick] == c,
        forall|pick: int|
            0 <= pick < allowed_colors(right, below).len() ==> in_palette(
                #[trigger] allowed_colors(right, below)[pick],
            ) && replacement_allowed(right, below, allowed_colors(right, below)[pick]),
{
    broadcast use vstd::seq_lib::group_filter_ensures;
    lemma_palette_distinct();
    lemma_palette_shape();
    let pred = |c: Bgr| replacement_allowed(right, below, c);
    let p = palette();
    assert(p.no_duplicates());
    lemma_filter_no_duplicates(p, pred);
    assert forall|c: Bgr| in_palette(c) && replacement_allowed(right, below, c) implies exists|pick: int|
        0 <= pick < allowed_colors(right, below).len() && #[trigger] allowed_colors(right, below)[pick]
            == c by {
        let j = choose|j: int| 0 <= j < p.len() && p[j] == c;
        p.lemma_filter_contains(pred, j);
        let a = allowed_colors(right, below);
        assert(a == p.filter(pred));
        assert(a.contains(c));
        let q = choose|q: int| 0 <= q < a.len() && a[q] == c;
        assert(a[q] == c);
    }
    assert forall|pick: int| 0 <= pick < allowed_colors(right, below).len() implies in_palette(
        #[trigger] allowed_colors(right, below)[pick],
    ) && replacement_allowed(right, below, allowed_colors(right, below)[pick]) by {
        p.lemma_filter_pred(pred, pick);
        assert(allowed_colors(right, below).contains(allowed_colors(right, below)[pick]));
        p.lemma_filter_contains_rev(pred, allowed_colors(right, below)[pick]);
    }
}

/// A look at a pixel that needs relief, under motion short of certain, can go
/// either way: a draw of zero recolours it and the largest draw leaves the
/// frame as it was. Different colour choices give different colours, and
/// every colour that repeats neither neighbour can be chosen.
pub proof fn lemma_relief_outcome_depends_on_draws(
    before: Seq<Bgr>,
    width: int,
    height: int,
    k: int,
    threshold: u32,
    pick: int,
    other: int,
)
    requires
        0 <= k < before.len(),
        needs_relief(before, width, height, k),
        0 < threshold,
        0 <= pick < allowed_colors(right_of(before, width, k), below_of(before, width, height, k)).len(),
        0 <= other < allowed_colors(right_of(before, width, k), below_of(before, width, height, k)).len(),
    ensures
        relief_outcome(before, width, height, k, threshold, 0, pick)[k] != before[k],
        threshold < CERTAIN_THRESHOLD ==> relief_outcome(
            before,
            width,
            height,
            k,
            threshold,
            u32::MAX,
            pick,
        ) == before,
        pick != other ==> relief_outcome(before, width, height, k, threshold, 0, pick)[k]
            != relief_outcome(before, width, height, k, threshold, 0, other)[k],
        forall|c: Bgr|
            in_palette(c) && replacement_allowed(
                right_of(before, width, k),
                below_of(before, width, height, k),
                c,
            ) ==> exists|p: int|
                #[trigger] relief_outcome(before, width, height, k, threshold, 0, p)[k] == c,
{
    lemma_motion_test_is_fair(0, threshold);
    lemma_motion_test_is_fair(u32::MAX, threshold);
    let right = right_of(before, width, k);
    let below = below_of(before, width, height, k);
    lemma_allowed_colors_are_the_allowed_palette(right, below);
    lemma_outcome_is_step(before, width, height, k, threshold, 0, pick);
    assert forall|c: Bgr| in_palette(c) && replacement_allowed(right, below, c) implies exists|p: int|
        #[trigger] relief_outcome(before, width, height, k, threshold, 0, p)[k] == c by {
        let p = choose|p: int| 0 <= p < allowed_colors(right, below).len() && #[trigger] allowed_colors(right, below)[p] == c;
        assert(relief_outcome(before, width, height, k, threshold, 0, p)[k] == c);
    }
}

} // verus!
