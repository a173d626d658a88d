//! The noise texture: random palette indices on a grid, relaxed round after
//! round toward a grid in which no two neighbours share a colour other than
//! white, for a bounded number of rounds.
use vstd::prelude::*;
use rand::rngs::ThreadRng;
use crate::palette::{Bgr, PALETTE_LEN, WHITE_INDEX, palette, white, in_palette, noise_palette,
    lemma_palette_distinct, lemma_palette_shape};
use crate::frame::Frame;
use crate::random::{thread_rng, draw_below};

verus! {

/// How many times the texture is relaxed at most.
pub const NOISE_ROUNDS: usize = 20;

/// Every cell names a colour of the palette.
pub open spec fn indices_valid(cells: Seq<usize>) -> bool {
    forall|k: int| 0 <= k < cells.len() ==> #[trigger] cells[k] < PALETTE_LEN
}

/// Cell `k` of a grid `width` cells wide repeats, in a colour other than
/// white, the cell on its left or the cell above it.
pub open spec fn index_conflict(cells: Seq<usize>, width: int, k: int) -> bool {
    &&& cells[k] != WHITE_INDEX
    &&& ((k % width != 0 && cells[k] == cells[k - 1]) || (k >= width && cells[k] == cells[k
        - width]))
}

/// No cell of the grid is in conflict.
pub open spec fn indices_settled(cells: Seq<usize>, width: int) -> bool {
    forall|k: int| 0 <= k < cells.len() ==> !#[trigger] index_conflict(cells, width, k)
}

/// The same notion on colours: pixel `k` repeats, in a colour other than
/// white, the pixel on its left or the pixel above it.
pub open spec fn color_conflict(pixels: Seq<Bgr>, width: int, k: int) -> bool {
    &&& pixels[k] != white()
    &&& ((k % width != 0 && pixels[k] == pixels[k - 1]) || (k >= width && pixels[k] == pixels[k
        - width]))
}

/// No two neighbouring pixels of the frame share a colour other than white.
pub open spec fn frame_settled(frame: &Frame) -> bool {
    forall|k: int|
        0 <= k < frame.pixels.len() ==> !#[trigger] color_conflict(
            frame.pixels@,
            frame.width as int,
            k,
        )
}

/// How many marks are set.
pub open spec fn count_true(marks: Seq<bool>) -> nat
    decreases marks.len(),
{
    if marks.len() == 0 {
        0
    } else {
        count_true(marks.drop_last()) + if marks.last() {
            1nat
        } else {
            0nat
        }
    }
}

/// A sequence of marks counts nothing exactly when no mark is set.
pub proof fn lemma_count_true_zero(marks: Seq<bool>)
    ensures
        count_true(marks) == 0 <==> forall|k: int| 0 <= k < marks.len() ==> !#[trigger] marks[k],
    decreases marks.len(),
{
    if marks.len() > 0 {
        lemma_count_true_zero(marks.drop_last());
        assert(forall|k: int| 0 <= k < marks.len() - 1 ==> marks.drop_last()[k] == marks[k]);
        if count_true(marks) == 0 {
            assert forall|k: int| 0 <= k < marks.len() implies !#[trigger] marks[k] by {
                if k < marks.len() - 1 {
                    assert(marks.drop_last()[k] == marks[k]);
                }
            }
        }
    }
}

/// The conflict marks of a grid, cell by cell.
pub open spec fn conflict_marks(cells: Seq<usize>, width: int) -> Seq<bool> {
    Seq::new(cells.len(), |k: int| index_conflict(cells, width, k))
}

/// How many cells of the grid are in conflict.
pub open spec fn conflict_count(cells: Seq<usize>, width: int) -> nat {
    count_true(conflict_marks(cells, width))
}

/// The grid after one relaxation with the fresh indices `fresh`: the
/// conflicting cells, in row-major order, take the fresh indices one after
/// the other; every other cell keeps its index.
pub open spec fn relaxed_cells(cells: Seq<usize>, width: int, fresh: Seq<usize>) -> Seq<usize> {
    Seq::new(
        cells.len(),
        |k: int|
            if index_conflict(cells, width, k) {
                fresh[count_true(conflict_marks(cells, width).take(k)) as int]
            } else {
                cells[k]
            },
    )
}

/// One round of relaxation from `before` to `after` that found a conflict
/// and drew the fresh indices `fresh` for the conflicting cells.
pub open spec fn relax_step(before: Seq<usize>, after: Seq<usize>, width: int, fresh: Seq<usize>) -> bool {
    &&& !indices_settled(before, width)
    &&& fresh.len() == conflict_count(before, width)
    &&& indices_valid(fresh)
    &&& after == relaxed_cells(before, width, fresh)
}

/// A run of at most `rounds` relaxation rounds from `start` to `end`:
/// `trace` holds the grid before each round that found a conflict and after
/// the last one, `fresh` the indices drawn in each of those rounds. A run
/// that settled stopped at a round that found no conflict; a run that did not
/// settle used every round, each of which found a conflict.
pub open spec fn settle_run(
    start: Seq<usize>,
    end: Seq<usize>,
    width: int,
    rounds: int,
    settled: bool,
    trace: Seq<Seq<usize>>,
    fresh: Seq<Seq<usize>>,
) -> bool {
    &&& trace.len() == fresh.len() + 1
    &&& trace[0] == start
    &&& trace[fresh.len() as int] == end
    &&& forall|i: int|
        #![trigger fresh[i]]
        0 <= i < fresh.len() ==> relax_step(trace[i], trace[i + 1], width, fresh[i])
    &&& settled ==> fresh.len() < rounds && indices_settled(end, width)
    &&& !settled ==> fresh.len() == rounds
}

/// Counting the marks of a prefix one mark longer adds that mark, and a
/// prefix never counts more than the whole.
pub proof fn lemma_count_true_take(marks: Seq<bool>, a: int)
    requires
        0 <= a < marks.len(),
    ensures
        count_true(marks.take(a + 1)) == count_true(marks.take(a)) + if marks[a] {
            1nat
        } else {
            0nat
        },
        count_true(marks.take(a + 1)) <= count_true(marks),
    decreases marks.len() - a,
{
    assert(marks.take(a + 1).drop_last() =~= marks.take(a));
    if a + 1 == marks.len() {
        assert(marks.take(a + 1) =~= marks);
    } else {
        lemma_count_true_take(marks, a + 1);
    }
}

/// Relaxing with fresh indices of the palette leaves every index in the palette.
pub proof fn lemma_relaxed_cells_valid(cells: Seq<usize>, width: int, fresh: Seq<usize>)
    requires
        indices_valid(cells),
        indices_valid(fresh),
        fresh.len() == conflict_count(cells, width),
    ensures
        relaxed_cells(cells, width, fresh).len() == cells.len(),
        indices_valid(relaxed_cells(cells, width, fresh)),
{
    let marks = conflict_marks(cells, width);
    assert forall|k: int| 0 <= k < cells.len() implies #[trigger] relaxed_cells(cells, width, fresh)[k]
        < PALETTE_LEN by {
        if index_conflict(cells, width, k) {
            lemma_count_true_take(marks, k);
        }
    }
}

/// The run of relaxation rounds that a stream of fresh indices drives: at
/// most `rounds` rounds, each stopping the run when it finds no conflict and
/// otherwise taking as many indices from the front of the stream as it has
/// conflicting cells. Gives the final grid and whether the run settled, or
/// nothing when the stream runs out.
pub open spec fn settle_spec(cells: Seq<usize>, width: int, stream: Seq<usize>, rounds: nat) -> Option<
    (Seq<usize>, bool),
>
    decreases rounds,
{
    if rounds == 0 {
        Some((cells, false))
    } else if indices_settled(cells, width) {
        Some((cells, true))
    } else {
        let c = conflict_count(cells, width) as int;
        if stream.len() < c {
            None
        } else {
            settle_spec(
                relaxed_cells(cells, width, stream.take(c)),
                width,
                stream.skip(c),
                (rounds - 1) as nat,
            )
        }
    }
}

/// The palette colour of each index.
pub open spec fn painted(cells: Seq<usize>) -> Seq<Bgr> {
    cells.map_values(|c: usize| palette()[c as int])
}

/// The noise texture that a stream of drawn indices makes: the first
/// `width * height` indices fill the grid in row-major order, the rest feed
/// up to `NOISE_ROUNDS` relaxation rounds (see `settle_spec`). Nothing when
/// the stream runs out.
pub open spec fn noise_spec(height: int, width: int, draws: Seq<usize>) -> Option<Seq<Bgr>> {
    let n = width * height;
    if draws.len() < n {
        None
    } else {
        match settle_spec(draws.take(n), width, draws.skip(n), NOISE_ROUNDS as nat) {
            Some((cells, _)) => Some(painted(cells)),
            None => None,
        }
    }
}

/// The indices drawn in successive rounds, one after the other.
pub open spec fn flattened(fresh: Seq<Seq<usize>>) -> Seq<usize>
    decreases fresh.len(),
{
    if fresh.len() == 0 {
        Seq::empty()
    } else {
        fresh[0] + flattened(fresh.drop_first())
    }
}

/// Indices drawn from the palette, flattened, are still palette indices.
pub proof fn lemma_flattened_valid(fresh: Seq<Seq<usize>>)
    requires
        forall|i: int| 0 <= i < fresh.len() ==> indices_valid(#[trigger] fresh[i]),
    ensures
        indices_valid(flattened(fresh)),
    decreases fresh.len(),
{
    if fresh.len() > 0 {
        let rest = fresh.drop_first();
        assert forall|i: int| 0 <= i < rest.len() implies indices_valid(#[trigger] rest[i]) by {
            assert(rest[i] == fresh[i + 1]);
        }
        lemma_flattened_valid(rest);
        assert(indices_valid(fresh[0]));
        let f = flattened(fresh);
        assert forall|k: int| 0 <= k < f.len() implies #[trigger] f[k] < PALETTE_LEN by {
            if k < fresh[0].len() {
                assert(f[k] == fresh[0][k]);
            } else {
                assert(f[k] == flattened(rest)[k - fresh[0].len()]);
            }
        }
    }
}

/// A run of relaxation rounds is the run that its drawn indices drive.
pub proof fn lemma_settle_run_is_spec(
    start: Seq<usize>,
    end: Seq<usize>,
    width: int,
    rounds: int,
    settled: bool,
    trace: Seq<Seq<usize>>,
    fresh: Seq<Seq<usize>>,
)
    requires
        0 <= rounds,
        settle_run(start, end, width, rounds, settled, trace, fresh),
    ensures
        settle_spec(start, width, flattened(fresh), rounds as nat) == Some((end, settled)),
    decreases fresh.len(),
{
    if fresh.len() == 0 {
        if !settled {
            assert(rounds == 0);
        }
    } else {
        assert(relax_step(trace[0], trace[1], width, fresh[0]));
        let c = conflict_count(start, width) as int;
        let flat = flattened(fresh);
        let rest = fresh.drop_first();
        assert(flat == fresh[0] + flattened(rest));
        assert(flat.take(c) =~= fresh[0]);
        assert(flat.skip(c) =~= flattened(rest));
        let t2 = trace.drop_first();
        assert forall|i: int|
            #![trigger rest[i]]
            0 <= i < rest.len() implies relax_step(t2[i], t2[i + 1], width, rest[i]) by {
            assert(relax_step(trace[i + 1], trace[i + 2], width, fresh[i + 1]));
        }
        assert(settle_run(trace[1], end, width, rounds - 1, settled, t2, rest));
        lemma_settle_run_is_spec(trace[1], end, width, rounds - 1, settled, t2, rest);
    }
}

/// Marks, cell by cell, the conflicts of a grid of `height` rows of `width` cells.
pub fn mark_conflicts(cells: &Vec<usize>, height: usize, width: usize) -> (marks: Vec<bool>)
    requires
        cells.len() == width * height,
    ensures
        marks.len() == cells.len(),
        forall|k: int|
            0 <= k < cells.len() ==> #[trigger] marks@[k] == index_conflict(cells@, width as int, k),
        marks@ == conflict_marks(cells@, width as int),
{
    let n = cells.len();
    let mut marks: Vec<bool> = Vec::new();
    let mut k: usize = 0;
    while k < n
        invariant
            n == cells.len(),
            n == width * height,
            0 <= k <= n,
            marks.len() == k,
            forall|j: int|
                0 <= j < k ==> #[trigger] marks@[j] == index_conflict(cells@, width as int, j),
        decreases n - k,
    {
        assert(width > 0) by (nonlinear_arith)
            requires
                k < n,
                n == width * height,
        ;
        let c = cells[k];
        proof {
            vstd::arithmetic::div_mod::lemma_small_mod(0, width as nat);
        }
        let left = k > 0 && k % width != 0 && c == cells[k - 1];
        let above = k >= width && c == cells[k - width];
        marks.push(c != WHITE_INDEX && (left || above));
        k = k + 1;
    }
    assert(marks@ =~= conflict_marks(cells@, width as int));
    marks
}

/// Counts the marks that are set.
pub fn count_marked(marks: &Vec<bool>) -> (count: usize)
    ensures
        count == count_true(marks@),
{
    let mut count: usize = 0;
    let mut k: usize = 0;
    while k < marks.len()
        invariant
            0 <= k <= marks.len(),
            count == count_true(marks@.take(k as int)),
            count <= k,
        decreases marks.len() - k,
    {
        assert(marks@.take(k + 1).drop_last() =~= marks@.take(k as int));
        if marks[k] {
            count = count + 1;
        }
        k = k + 1;
    }
    assert(marks@.take(marks.len() as int) =~= marks@);
    count
}

/// Relaxes the grid with the fresh indices `fresh`: the conflicting cells,
/// in row-major order, take them one after the other (see `relaxed_cells`).
pub fn relax_round_with(cells: &mut Vec<usize>, height: usize, width: usize, fresh: &Vec<usize>)
    requires
        old(cells).len() == width * height,
        fresh.len() == conflict_count(old(cells)@, width as int),
    ensures
        final(cells)@ == relaxed_cells(old(cells)@, width as int, fresh@),
{
    let marks = mark_conflicts(cells, height, width);
    let n = cells.len();
    let mut k: usize = 0;
    let mut used: usize = 0;
    while k < n
        invariant
            n == cells.len(),
            n == old(cells).len(),
            marks@ == conflict_marks(old(cells)@, width as int),
            fresh.len() == count_true(marks@),
            0 <= k <= n,
            used == count_true(marks@.take(k as int)),
            forall|j: int|
                0 <= j < k ==> #[trigger] cells@[j] == relaxed_cells(old(cells)@, width as int, fresh@)[j],
            forall|j: int| k <= j < n ==> #[trigger] cells@[j] == old(cells)@[j],
        decreases n - k,
    {
        proof {
            lemma_count_true_take(marks@, k as int);
        }
        if marks[k] {
            cells.set(k, fresh[used]);
            used = used + 1;
        }
        k = k + 1;
    }
    assert(cells@ =~= relaxed_cells(old(cells)@, width as int, fresh@));
}

/// One round of relaxation. When no cell is in conflict the grid is left as
/// it is and `true` comes back. Otherwise one random palette index is drawn
/// for each conflicting cell, in row-major order, the grid is relaxed with
/// them (see `relax_round_with`), and `false` comes back.
pub fn relax_round(cells: &mut Vec<usize>, height: usize, width: usize, rng: &mut ThreadRng) -> (settled: bool)
    requires
        old(cells).len() == width * height,
        indices_valid(old(cells)@),
    ensures
        final(cells).len() == old(cells).len(),
        indices_valid(final(cells)@),
        settled == indices_settled(old(cells)@, width as int),
        settled ==> final(cells)@ == old(cells)@,
        !settled ==> exists|fresh: Seq<usize>| relax_step(old(cells)@, final(cells)@, width as int, fresh),
        forall|k: int|
            0 <= k < old(cells).len() && !index_conflict(old(cells)@, width as int, k)
                ==> #[trigger] final(cells)@[k] == old(cells)@[k],
{
    let marks = mark_conflicts(cells, height, width);
    let count = count_marked(&marks);
    proof {
        lemma_count_true_zero(marks@);
    }
    if count == 0 {
        assert forall|k: int| 0 <= k < cells.len() implies !#[trigger] index_conflict(
            cells@,
            width as int,
            k,
        ) by {
            assert(!marks@[k]);
        }
        return true;
    }
    let ghost witness = choose|k: int| 0 <= k < marks.len() && #[trigger] marks@[k];
    assert(index_conflict(cells@, width as int, witness));
    let mut fresh: Vec<usize> = Vec::new();
    let mut i: usize = 0;
    while i < count
        invariant
            0 <= i <= count,
            fresh.len() == i,
            indices_valid(fresh@),
        decreases count - i,
    {
        let c = draw_below(rng, PALETTE_LEN);
        fresh.push(c);
        i = i + 1;
    }
    let ghost before = cells@;
    relax_round_with(cells, height, width, &fresh);
    proof {
        lemma_relaxed_cells_valid(before, width as int, fresh@);
        assert(relax_step(before, cells@, width as int, fresh@));
    }
    false
}

/// Paints each cell with the palette colour that it names.
pub fn colorize(cells: &Vec<usize>, height: usize, width: usize) -> (out: Frame)
    requires
        cells.len() == width * height,
        indices_valid(cells@),
    ensures
        out.wf(),
        out.width == width,
        out.height == height,
        forall|k: int|
            0 <= k < cells.len() ==> #[trigger] out.pixels@[k] == palette()[cells@[k] as int],
{
    let table = noise_palette();
    proof {
        lemma_palette_shape();
    }
    let mut pixels: Vec<Bgr> = Vec::new();
    let mut k: usize = 0;
    while k < cells.len()
        invariant
            table@ == palette(),
            palette().len() == PALETTE_LEN,
            indices_valid(cells@),
            0 <= k <= cells.len(),
            pixels.len() == k,
            forall|j: int| 0 <= j < k ==> #[trigger] pixels@[j] == palette()[cells@[j] as int],
        decreases cells.len() - k,
    {
        let c = table[cells[k]];
        pixels.push(c);
        k = k + 1;
    }
    Frame { width, height, pixels }
}

/// Relaxes the grid for at most `rounds` rounds, stopping at the first round
/// that finds no conflict; `true` comes back when that happened. The run is a
/// `settle_run`: each round that found a conflict relaxed the grid with the
/// indices it drew. Cells that hold white, and the top-left cell, which has
/// no left or upper neighbour, are never in conflict and keep their index.
pub fn settle_indices(
    cells: &mut Vec<usize>,
    height: usize,
    width: usize,
    rounds: usize,
    rng: &mut ThreadRng,
) -> (settled: bool)
    requires
        old(cells).len() == width * height,
        indices_valid(old(cells)@),
    ensures
        final(cells).len() == old(cells).len(),
        indices_valid(final(cells)@),
        exists|trace: Seq<Seq<usize>>, fresh: Seq<Seq<usize>>|
            settle_run(old(cells)@, final(cells)@, width as int, rounds as int, settled, trace, fresh),
        settled ==> indices_settled(final(cells)@, width as int),
        !settled ==> !indices_settled(old(cells)@, width as int) || rounds == 0,
        indices_settled(old(cells)@, width as int) && rounds > 0 ==> settled && final(cells)@
            == old(cells)@,
        forall|k: int|
            0 <= k < old(cells).len() && old(cells)@[k] == WHITE_INDEX ==> #[trigger] final(cells)@[k]
                == WHITE_INDEX,
        old(cells).len() > 0 ==> final(cells)@[0] == old(cells)@[0],
{
    let ghost mut trace: Seq<Seq<usize>> = seq![cells@];
    let ghost mut fresh: Seq<Seq<usize>> = Seq::empty();
    let mut round: usize = 0;
    while round < rounds
        invariant
            cells.len() == old(cells).len(),
            cells.len() == width * height,
            indices_valid(cells@),
            round > 0 ==> !indices_settled(old(cells)@, width as int),
            round == 0 ==> cells@ == old(cells)@,
            0 <= round <= rounds,
            fresh.len() == round,
            trace.len() == fresh.len() + 1,
            trace[0] == old(cells)@,
            trace[fresh.len() as int] == cells@,
            forall|i: int|
                #![trigger fresh[i]]
                0 <= i < fresh.len() ==> relax_step(trace[i], trace[i + 1], width as int, fresh[i]),
            forall|k: int|
                0 <= k < old(cells).len() && old(cells)@[k] == WHITE_INDEX ==> #[trigger] cells@[k]
                    == WHITE_INDEX,
            old(cells).len() > 0 ==> cells@[0] == old(cells)@[0],
        decreases rounds - round,
    {
        let ghost before = cells@;
        if relax_round(cells, height, width, rng) {
            assert(settle_run(old(cells)@, cells@, width as int, rounds as int, true, trace, fresh));
            return true;
        }
        proof {
            let f = choose|f: Seq<usize>| relax_step(before, cells@, width as int, f);
            fresh = fresh.push(f);
            trace = trace.push(cells@);
            assert forall|i: int|
                #![trigger fresh[i]]
                0 <= i < fresh.len() implies relax_step(trace[i], trace[i + 1], width as int, fresh[i]) by {
                if i + 1 < fresh.len() {
                    assert(trace[i] == trace.drop_last()[i]);
                }
            }
            if before.len() > 0 {
                assert(width > 0) by (nonlinear_arith)
                    requires
                        before.len() == width * height,
                        before.len() > 0,
                ;
                vstd::arithmetic::div_mod::lemma_small_mod(0, width as nat);
                assert(!index_conflict(before, width as int, 0));
            }
        }
        round = round + 1;
    }
    assert(settle_run(old(cells)@, cells@, width as int, rounds as int, false, trace, fresh));
    false
}

/// The noise texture that the drawn indices `draws` make, taken in the order
/// in which `generate_noise` draws them (see `noise_spec`); nothing when they
/// run out before the texture is done.
pub fn noise_from_draws(height: i32, width: i32, draws: &Vec<usize>) -> (out: Option<Frame>)
    requires
        0 <= height,
        0 <= width,
        width as int * height as int <= usize::MAX,
        indices_valid(draws@),
    ensures
        out is None <==> noise_spec(height as int, width as int, draws@) is None,
        out matches Some(f) ==> {
            &&& f.wf()
            &&& f.width == width
            &&& f.height == height
            &&& noise_spec(height as int, width as int, draws@) == Some(f.pixels@)
        },
{
    let h = height as usize;
    let w = width as usize;
    let n = w * h;
    if draws.len() < n {
        return None;
    }
    let mut cells: Vec<usize> = Vec::new();
    let mut k: usize = 0;
    while k < n
        invariant
            0 <= k <= n,
            n <= draws.len(),
            indices_valid(draws@),
            cells@ == draws@.take(k as int),
        decreases n - k,
    {
        cells.push(draws[k]);
        assert(cells@ =~= draws@.take(k + 1));
        k = k + 1;
    }
    assert(n as int == width as int * height as int);
    assert(noise_spec(height as int, width as int, draws@) == match settle_spec(
        draws@.take(n as int),
        w as int,
        draws@.skip(n as int),
        NOISE_ROUNDS as nat,
    ) {
        Some((c, _)) => Some(painted(c)),
        None => None,
    });
    let ghost start = settle_spec(draws@.take(n as int), w as int, draws@.skip(n as int), NOISE_ROUNDS as nat);
    let mut pos: usize = n;
    let mut round: usize = 0;
    while round < NOISE_ROUNDS
        invariant
            w == width,
            h == height,
            n == w * h,
            cells.len() == n,
            indices_valid(cells@),
            indices_valid(draws@),
            n <= pos <= draws.len(),
            0 <= round <= NOISE_ROUNDS,
            start == settle_spec(draws@.take(n as int), w as int, draws@.skip(n as int), NOISE_ROUNDS as nat),
            noise_spec(height as int, width as int, draws@) == match start {
                Some((c, _)) => Some(painted(c)),
                None => None::<Seq<Bgr>>,
            },
            start == settle_spec(cells@, w as int, draws@.skip(pos as int), (NOISE_ROUNDS - round) as nat),
        decreases NOISE_ROUNDS - round,
    {
        let marks = mark_conflicts(&cells, h, w);
        let count = count_marked(&marks);
        proof {
            lemma_count_true_zero(marks@);
        }
        if count == 0 {
            assert(indices_settled(cells@, w as int)) by {
                assert forall|j: int| 0 <= j < cells.len() implies !#[trigger] index_conflict(
                    cells@,
                    w as int,
                    j,
                ) by {
                    assert(!marks@[j]);
                }
            }
            assert(start == Some((cells@, true)));
            let out = colorize(&cells, h, w);
            assert(painted(cells@) =~= out.pixels@);
            assert(noise_spec(height as int, width as int, draws@) == Some(painted(cells@)));
            return Some(out);
        }
        proof {
            let j = choose|j: int| 0 <= j < marks.len() && #[trigger] marks@[j];
            assert(index_conflict(cells@, w as int, j));
        }
        assert(count == conflict_count(cells@, w as int));
        if draws.len() - pos < count {
            assert(start is None);
            return None;
        }
        let mut fresh: Vec<usize> = Vec::new();
        let mut i: usize = 0;
        while i < count
            invariant
                0 <= i <= count,
                pos + count <= draws.len(),
                fresh@ == draws@.skip(pos as int).take(i as int),
            decreases count - i,
        {
            fresh.push(draws[pos + i]);
            assert(fresh@ =~= draws@.skip(pos as int).take(i + 1));
            i = i + 1;
        }
        let ghost before = cells@;
        proof {
            assert(indices_valid(fresh@));
        }
        relax_round_with(&mut cells, h, w, &fresh);
        proof {
            lemma_relaxed_cells_valid(before, w as int, fresh@);
            assert(draws@.skip(pos as int).skip(count as int) =~= draws@.skip(pos + count));
            assert(fresh@ == draws@.skip(pos as int).take(count as int));
            assert(start == settle_spec(cells@, w as int, draws@.skip(pos + count), (NOISE_ROUNDS - round - 1) as nat));
        }
        pos = pos + count;
        round = round + 1;
    }
    assert(start == Some((cells@, false)));
    let out = colorize(&cells, h, w);
    assert(painted(cells@) =~= out.pixels@);
    assert(noise_spec(height as int, width as int, draws@) == Some(painted(cells@)));
    Some(out)
}

/// A fresh noise texture of `height` rows and `width` columns: one random
/// palette index per cell, in row-major order, relaxed for at most
/// `NOISE_ROUNDS` rounds (see `settle_indices`), then painted. The texture is
/// settled, or every round found a conflict.
pub fn generate_noise(height: i32, width: i32) -> (out: Frame)
    requires
        0 <= height,
        0 <= width,
        width as int * height as int <= usize::MAX,
    ensures
        out.wf(),
        out.width == width,
        out.height == height,
        forall|k: int| 0 <= k < out.pixels.len() ==> in_palette(#[trigger] out.pixels@[k]),
        exists|draws: Seq<usize>|
            indices_valid(draws) && noise_spec(height as int, width as int, draws) == Some(out.pixels@),
        exists|
            initial: Seq<usize>,
            cells: Seq<usize>,
            settled: bool,
            trace: Seq<Seq<usize>>,
            fresh: Seq<Seq<usize>>,
        |
            {
                &&& initial.len() == out.pixels.len()
                &&& indices_valid(initial)
                &&& settle_run(initial, cells, width as int, NOISE_ROUNDS as int, settled, trace, fresh)
                &&& cells.len() == initial.len()
                &&& forall|k: int|
                    0 <= k < cells.len() ==> #[trigger] out.pixels@[k] == palette()[cells[k] as int]
                &&& frame_settled(&out) || fresh.len() == NOISE_ROUNDS
                &&& initial.len() > 0 ==> out.pixels@[0] == palette()[initial[0] as int]
                &&& forall|k: int|
                    0 <= k < initial.len() && initial[k] == WHITE_INDEX ==> #[trigger] out.pixels@[k]
                        == white()
            },
{
    let h = height as usize;
    let w = width as usize;
    let n = w * h;
    let mut rng = thread_rng();
    let mut cells: Vec<usize> = Vec::new();
    let mut k: usize = 0;
    while k < n
        invariant
            0 <= k <= n,
            cells.len() == k,
            indices_valid(cells@),
        decreases n - k,
    {
        let c = draw_below(&mut rng, PALETTE_LEN);
        cells.push(c);
        k = k + 1;
    }
    let ghost initial = cells@;
    let settled = settle_indices(&mut cells, h, w, NOISE_ROUNDS, &mut rng);
    let out = colorize(&cells, h, w);
    proof {
        lemma_palette_shape();
        let (trace, fresh) = choose|trace: Seq<Seq<usize>>, fresh: Seq<Seq<usize>>|
            settle_run(initial, cells@, w as int, NOISE_ROUNDS as int, settled, trace, fresh);
        if settled {
            lemma_settled_grid_paints_settled_frame(cells@, &out);
        }
        lemma_settle_run_is_spec(initial, cells@, w as int, NOISE_ROUNDS as int, settled, trace, fresh);
        assert forall|i: int| 0 <= i < fresh.len() implies indices_valid(#[trigger] fresh[i]) by {
            assert(relax_step(trace[i], trace[i + 1], w as int, fresh[i]));
        }
        lemma_flattened_valid(fresh);
        let draws = initial + flattened(fresh);
        assert(draws.take(n as int) =~= initial);
        assert(draws.skip(n as int) =~= flattened(fresh));
        assert(painted(cells@) =~= out.pixels@);
        assert(indices_valid(draws));
        assert(noise_spec(height as int, width as int, draws) == Some(out.pixels@));
        assert forall|k: int|
            0 <= k < initial.len() && initial[k] == WHITE_INDEX implies #[trigger] out.pixels@[k]
                == white() by {
            assert(cells@[k] == WHITE_INDEX);
        }
        assert({
            &&& initial.len() == out.pixels.len()
            &&& indices_valid(initial)
            &&& settle_run(initial, cells@, width as int, NOISE_ROUNDS as int, settled, trace, fresh)
            &&& cells@.len() == initial.len()
            &&& forall|k: int|
                0 <= k < cells@.len() ==> #[trigger] out.pixels@[k] == palette()[cells@[k] as int]
            &&& frame_settled(&out) || fresh.len() == NOISE_ROUNDS
            &&& initial.len() > 0 ==> out.pixels@[0] == palette()[initial[0] as int]
            &&& forall|k: int|
                0 <= k < initial.len() && initial[k] == WHITE_INDEX ==> #[trigger] out.pixels@[k]
                    == white()
        });
        assert forall|k: int| 0 <= k < out.pixels.len() implies in_palette(#[trigger] out.pixels@[k]) by {
            assert(palette()[cells@[k] as int] == out.pixels@[k]);
        }
    }
    out
}

/// Painting a grid with the palette keeps its conflicts exactly: a pixel
/// repeats a neighbour in a non-white colour just when its index repeats that
/// neighbour's index in a non-white index, since no colour stands twice in the
/// palette and white stands at `WHITE_INDEX`.
pub proof fn lemma_colorize_keeps_conflicts(cells: Seq<usize>, pixels: Seq<Bgr>, width: int)
    requires
        0 < width,
        indices_valid(cells),
        pixels.len() == cells.len(),
        forall|k: int| 0 <= k < cells.len() ==> #[trigger] pixels[k] == palette()[cells[k] as int],
    ensures
        forall|k: int|
            0 <= k < cells.len() ==> (#[trigger] color_conflict(pixels, width, k) <==> index_conflict(
                cells,
                width,
                k,
            )),
{
    lemma_palette_shape();
    lemma_palette_distinct();
    assert forall|k: int| 0 <= k < cells.len() implies (#[trigger] color_conflict(pixels, width, k)
        <==> index_conflict(cells, width, k)) by {
        assert(pixels[k] == palette()[cells[k] as int]);
        vstd::arithmetic::div_mod::lemma_small_mod(0, width as nat);
        if k % width != 0 {
            assert(pixels[k - 1] == palette()[cells[k - 1] as int]);
        }
        if k >= width {
            assert(pixels[k - width] == palette()[cells[k - width] as int]);
        }
    }
}

/// A settled grid paints a settled frame.
pub proof fn lemma_settled_grid_paints_settled_frame(cells: Seq<usize>, frame: &Frame)
    requires
        frame.wf(),
        indices_valid(cells),
        frame.pixels.len() == cells.len(),
        forall|k: int| 0 <= k < cells.len() ==> #[trigger] frame.pixels@[k] == palette()[cells[k] as int],
        indices_settled(cells, frame.width as int),
    ensures
        frame_settled(frame),
{
    if frame.width == 0 {
        assert(frame.pixels.len() == 0);
        return;
    }
    lemma_colorize_keeps_conflicts(cells, frame.pixels@, frame.width as int);
    assert forall|k: int| 0 <= k < frame.pixels.len() implies !#[trigger] color_conflict(
        frame.pixels@,
        frame.width as int,
        k,
    ) by {
        assert(!index_conflict(cells, frame.width as int, k));
    }
}

/// Every rank below the number of set marks belongs to a set mark: the
/// `i`-th set mark stands at some position `k` with `i` set marks before it.
pub proof fn lemma_rank_has_mark(marks: Seq<bool>, m: int, i: int)
    requires
        0 <= m <= marks.len(),
        0 <= i < count_true(marks.take(m)),
    ensures
        exists|k: int| 0 <= k < m && marks[k] && #[trigger] count_true(marks.take(k)) == i,
    decreases m,
{
    if m > 0 {
        lemma_count_true_take(marks, m - 1);
        if i < count_true(marks.take(m - 1)) {
            lemma_rank_has_mark(marks, m - 1, i);
            let k = choose|k: int| 0 <= k < m - 1 && marks[k] && #[trigger] count_true(marks.take(k)) == i;
            assert(0 <= k < m && marks[k] && count_true(marks.take(k)) == i);
        } else {
            assert(marks[m - 1] && count_true(marks.take(m - 1)) == i);
        }
    } else {
        assert(marks.take(0) =~= Seq::<bool>::empty());
    }
}

/// A relaxation round uses every index it is given: two different lists of
/// fresh indices for the conflicting cells give two different grids, and the
/// `i`-th fresh index lands on the `i`-th conflicting cell in row-major order.
pub proof fn lemma_relaxation_uses_every_fresh_index(
    cells: Seq<usize>,
    width: int,
    fresh: Seq<usize>,
    other: Seq<usize>,
)
    requires
        fresh.len() == conflict_count(cells, width),
        other.len() == conflict_count(cells, width),
        fresh != other,
    ensures
        relaxed_cells(cells, width, fresh) != relaxed_cells(cells, width, other),
        forall|i: int|
            #![trigger fresh[i]]
            0 <= i < fresh.len() ==> exists|k: int|
                0 <= k < cells.len() && index_conflict(cells, width, k) && #[trigger] relaxed_cells(
                    cells,
                    width,
                    fresh,
                )[k] == fresh[i],
{
    let marks = conflict_marks(cells, width);
    assert(marks.take(marks.len() as int) =~= marks);
    assert forall|i: int|
        #![trigger fresh[i]]
        0 <= i < fresh.len() implies exists|k: int|
        0 <= k < cells.len() && index_conflict(cells, width, k) && #[trigger] relaxed_cells(
            cells,
            width,
            fresh,
        )[k] == fresh[i] by {
        lemma_rank_has_mark(marks, marks.len() as int, i);
        let k = choose|k: int| 0 <= k < marks.len() && marks[k] && #[trigger] count_true(marks.take(k)) == i;
        assert(relaxed_cells(cells, width, fresh)[k] == fresh[i]);
    }
    if forall|i: int| 0 <= i < fresh.len() ==> fresh[i] == other[i] {
        assert(fresh =~= other);
    }
    let i = choose|i: int| 0 <= i < fresh.len() && fresh[i] != other[i];
    lemma_rank_has_mark(marks, marks.len() as int, i);
    let k = choose|k: int| 0 <= k < marks.len() && marks[k] && #[trigger] count_true(marks.take(k)) == i;
    assert(relaxed_cells(cells, width, fresh)[k] != relaxed_cells(cells, width, other)[k]);
}

/// Relaxation never touches a white cell, nor the top-left cell, which has no
/// left or upper neighbour; and it keeps the grid's size.
pub proof fn lemma_settle_keeps_unconflicted_cells(
    cells: Seq<usize>,
    width: int,
    stream: Seq<usize>,
    rounds: nat,
    end: Seq<usize>,
    settled: bool,
)
    requires
        settle_spec(cells, width, stream, rounds) == Some((end, settled)),
    ensures
        end.len() == cells.len(),
        forall|k: int| 0 <= k < cells.len() && cells[k] == WHITE_INDEX ==> #[trigger] end[k] == WHITE_INDEX,
        cells.len() > 0 && width > 0 ==> end[0] == cells[0],
    decreases rounds,
{
    if rounds > 0 && !indices_settled(cells, width) {
        let c = conflict_count(cells, width) as int;
        let next = relaxed_cells(cells, width, stream.take(c));
        lemma_settle_keeps_unconflicted_cells(next, width, stream.skip(c), (rounds - 1) as nat, end, settled);
        if cells.len() > 0 && width > 0 {
            vstd::arithmetic::div_mod::lemma_small_mod(0, width as nat);
            assert(!index_conflict(cells, width, 0));
            assert(next[0] == cells[0]);
        }
        assert forall|k: int| 0 <= k < cells.len() && cells[k] == WHITE_INDEX implies #[trigger] end[k]
            == WHITE_INDEX by {
            assert(next[k] == cells[k]);
        }
    }
}

/// The texture comes from its draws: the first `width * height` draws fill the
/// grid cell by cell, so the top-left pixel is the colour of the first draw,
/// every cell first drawn white stays white, and when those first draws
/// already leave no conflict the texture is exactly their colours, so two such
/// different draws give two different textures.
pub proof fn lemma_noise_comes_from_its_draws(
    height: int,
    width: int,
    draws: Seq<usize>,
    other: Seq<usize>,
    pixels: Seq<Bgr>,
)
    requires
        0 <= height,
        0 <= width,
        indices_valid(draws),
        noise_spec(height, width, draws) == Some(pixels),
    ensures
        pixels.len() == width * height,
        width * height > 0 ==> pixels[0] == palette()[draws[0] as int],
        forall|k: int|
            0 <= k < width * height && draws[k] == WHITE_INDEX ==> #[trigger] pixels[k] == white(),
        indices_settled(draws.take(width * height), width) ==> pixels == painted(
            draws.take(width * height),
        ),
        indices_settled(draws.take(width * height), width) && indices_valid(other)
            && indices_settled(other.take(width * height), width) && other.len() >= width * height
            && draws.take(width * height) != other.take(width * height) ==> noise_spec(
            height,
            width,
            other,
        ) != Some(pixels),
{
    let n = width * height;
    lemma_palette_shape();
    lemma_palette_distinct();
    assert(0 <= n) by (nonlinear_arith)
        requires
            n == width * height,
            0 <= height,
            0 <= width,
    ;
    let start = draws.take(n);
    let (end, st) = settle_spec(start, width, draws.skip(n), NOISE_ROUNDS as nat)->0;
    lemma_settle_keeps_unconflicted_cells(start, width, draws.skip(n), NOISE_ROUNDS as nat, end, st);
    assert(pixels == painted(end));
    if n > 0 {
        assert(width > 0) by (nonlinear_arith)
            requires
                n == width * height,
                n > 0,
                0 <= height,
                0 <= width,
        ;
    }
    assert forall|k: int| 0 <= k < n && draws[k] == WHITE_INDEX implies #[trigger] pixels[k] == white() by {
        assert(start[k] == WHITE_INDEX);
    }
    if indices_settled(start, width) && indices_valid(other) && indices_settled(other.take(n), width)
        && other.len() >= n && start != other.take(n) {
        let o = other.take(n);
        assert(noise_spec(height, width, other) == Some(painted(o)));
        if forall|j: int| 0 <= j < n ==> start[j] == o[j] {
            assert(start =~= o);
        }
        let j = choose|j: int| 0 <= j < n && start[j] != o[j];
        assert(start[j] < PALETTE_LEN && o[j] < PALETTE_LEN);
        assert(painted(start)[j] != painted(o)[j]);
    }
}

} // verus!
