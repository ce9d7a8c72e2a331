//! Cellular-automaton cave generation: random noise, five smoothing passes,
//! then a flood-fill repair that keeps exactly one floor component, retried
//! until the kept component covers at least half of the grid.

use crate::grid::{
    count_eq, lemma_cell_index_bounds, lemma_connected_extend, lemma_connected_monotone,
    lemma_connected_refl, lemma_connected_sym, lemma_connected_trans, lemma_count_eq_le_len,
    lemma_count_eq_update, lemma_count_eq_zero, lemma_grid_cells_uniform,
    lemma_rect_connected, spec_cell_step, spec_connected, Grid,
};
use crate::prng::{RandRangeInclusive32, PCG32};
use vstd::prelude::*;

verus! {

/// A cell that blocks: out of bounds, or an in-bounds wall.
pub open spec fn spec_cell_blocked(g: Grid, x: int, y: int) -> bool {
    !g.spec_in_bounds(x, y) || g.spec_is_wall(x, y)
}

/// How many of the `n` cells `(x0, y) .. (x0 + n - 1, y)` block.
pub open spec fn spec_row_blocked_count(g: Grid, y: int, x0: int, n: nat) -> int
    decreases n,
{
    if n == 0 {
        0
    } else {
        spec_row_blocked_count(g, y, x0, (n - 1) as nat) + if spec_cell_blocked(
            g,
            x0 + n - 1,
            y,
        ) {
            1int
        } else {
            0int
        }
    }
}

/// How many cells block within the first `rows` rows of the square window
/// of radius `range` centred on `(x, y)`.
pub open spec fn spec_window_blocked_count(g: Grid, x: int, y: int, range: int, rows: nat) -> int
    decreases rows,
{
    if rows == 0 {
        0
    } else {
        spec_window_blocked_count(g, x, y, range, (rows - 1) as nat) + spec_row_blocked_count(
            g,
            y - range + rows - 1,
            x - range,
            (2 * range + 1) as nat,
        )
    }
}

/// How many cells block within the whole square window of radius `range`
/// centred on `(x, y)`, the centre cell included.
pub open spec fn spec_neighborhood_count(g: Grid, x: int, y: int, range: int) -> int {
    spec_window_blocked_count(g, x, y, range, (2 * range + 1) as nat)
}

/// The smoothing rule: a cell becomes wall when its radius-1 window holds
/// at least five blocking cells, or its radius-2 window holds at most one
/// (the latter erodes isolated spikes into open caverns).
pub open spec fn spec_smooth_rule(g: Grid, x: int, y: int) -> bool {
    spec_neighborhood_count(g, x, y, 1) >= 5 || spec_neighborhood_count(g, x, y, 2) <= 1
}

proof fn lemma_row_blocked_count_bounds(g: Grid, y: int, x0: int, n: nat)
    ensures
        0 <= spec_row_blocked_count(g, y, x0, n) <= n,
    decreases n,
{
    if n > 0 {
        lemma_row_blocked_count_bounds(g, y, x0, (n - 1) as nat);
    }
}

/// Whether the cell at window coordinates `(x, y)` blocks.
fn cell_blocked(g: &Grid, x: isize, y: isize) -> (r: bool)
    requires
        g.wf(),
    ensures
        r == spec_cell_blocked(*g, x as int, y as int),
{
    if x < 0 || y < 0 {
        true
    } else {
        let xu = x as usize;
        let yu = y as usize;
        if xu >= g.get_width() || yu >= g.get_height() {
            true
        } else {
            g.get(xu, yu)
        }
    }
}

/// Counts the blocking cells in the square window of radius `range` around
/// `(x, y)`, counting cells outside the grid as walls.
fn count_neighborhood(src: &Grid, x: usize, y: usize, range: usize) -> (r: u32)
    requires
        src.wf(),
        src.spec_in_bounds(x as int, y as int),
        1 <= range <= 2,
        src.spec_width() + 2 <= isize::MAX,
        src.spec_height() + 2 <= isize::MAX,
    ensures
        r == spec_neighborhood_count(*src, x as int, y as int, range as int),
{
    let side: usize = 2 * range + 1;
    let mut total: u32 = 0;
    let mut row: usize = 0;
    while row < side
        invariant
            src.wf(),
            src.spec_in_bounds(x as int, y as int),
            1 <= range <= 2,
            src.spec_width() + 2 <= isize::MAX,
            src.spec_height() + 2 <= isize::MAX,
            side == 2 * range + 1,
            row <= side,
            total == spec_window_blocked_count(*src, x as int, y as int, range as int, row as nat),
            total <= row * side,
        decreases side - row,
    {
        let wy: isize = y as isize - range as isize + row as isize;
        let mut col: usize = 0;
        let row_start = total;
        while col < side
            invariant
                src.wf(),
                1 <= range <= 2,
                src.spec_width() + 2 <= isize::MAX,
                src.spec_height() + 2 <= isize::MAX,
                side == 2 * range + 1,
                row < side,
                col <= side,
                wy == y as int - range as int + row as int,
                x as int <= isize::MAX - 2,
                row_start <= row * side,
                total == row_start + spec_row_blocked_count(
                    *src,
                    wy as int,
                    x as int - range as int,
                    col as nat,
                ),
            decreases side - col,
        {
            let wx: isize = x as isize - range as isize + col as isize;
            proof {
                lemma_row_blocked_count_bounds(
                    *src,
                    wy as int,
                    x as int - range as int,
                    col as nat,
                );
                assert(row * side <= 4 * 5) by (nonlinear_arith)
                    requires
                        0 <= row < side <= 5,
                ;
            }
            if cell_blocked(src, wx, wy) {
                total = total + 1;
            }
            col = col + 1;
        }
        proof {
            lemma_row_blocked_count_bounds(*src, wy as int, x as int - range as int, side as nat);
            assert(row * side <= 4 * 5) by (nonlinear_arith)
                requires
                    0 <= row < side <= 5,
            ;
            assert((row + 1) * side == row * side + side) by (nonlinear_arith);
        }
        row = row + 1;
    }
    total
}

/// One smoothing pass: every cell of the result is the smoothing rule
/// applied to the source.
fn smooth_pass(src: &Grid) -> (r: Grid)
    requires
        src.wf(),
        src.spec_width() + 2 <= isize::MAX,
        src.spec_height() + 2 <= isize::MAX,
        src.spec_width() * src.spec_height() <= usize::MAX,
    ensures
        r.wf(),
        r.spec_width() == src.spec_width(),
        r.spec_height() == src.spec_height(),
        forall|i: int, j: int|
            r.spec_in_bounds(i, j) ==> #[trigger] r.spec_is_wall(i, j) == spec_smooth_rule(
                *src,
                i,
                j,
            ),
{
    let width = src.get_width();
    let height = src.get_height();
    let mut dest = Grid::new_filled(width, height, true);
    let mut y: usize = 0;
    while y < height
        invariant
            src.wf(),
            src.spec_width() == width,
            src.spec_height() == height,
            src.spec_width() + 2 <= isize::MAX,
            src.spec_height() + 2 <= isize::MAX,
            dest.wf(),
            dest.spec_width() == width,
            dest.spec_height() == height,
            y <= height,
            forall|i: int, j: int|
                dest.spec_in_bounds(i, j) && j < y ==> #[trigger] dest.spec_is_wall(i, j)
                    == spec_smooth_rule(*src, i, j),
        decreases height - y,
    {
        let mut x: usize = 0;
        while x < width
            invariant
                src.wf(),
                src.spec_width() == width,
                src.spec_height() == height,
                src.spec_width() + 2 <= isize::MAX,
                src.spec_height() + 2 <= isize::MAX,
                dest.wf(),
                dest.spec_width() == width,
                dest.spec_height() == height,
                y < height,
                x <= width,
                forall|i: int, j: int|
                    dest.spec_in_bounds(i, j) && (j < y || (j == y && i < x))
                        ==> #[trigger] dest.spec_is_wall(i, j) == spec_smooth_rule(*src, i, j),
            decreases width - x,
        {
            let near = count_neighborhood(src, x, y, 1);
            let far = count_neighborhood(src, x, y, 2);
            dest.set(x, y, near >= 5 || far <= 1);
            x = x + 1;
        }
        y = y + 1;
    }
    dest
}

/// A grid of fresh noise: each cell independently becomes wall when a
/// 1..=100 roll lands at or below 45.
fn noise_fill(width: usize, height: usize, gen: &mut PCG32) -> (r: Grid)
    requires
        width * height <= usize::MAX,
    ensures
        r.wf(),
        r.spec_width() == width,
        r.spec_height() == height,
{
    let d100 = RandRangeInclusive32::new(1, 100);
    let mut dest = Grid::new_filled(width, height, true);
    let mut y: usize = 0;
    while y < height
        invariant
            d100.wf(),
            dest.wf(),
            dest.spec_width() == width,
            dest.spec_height() == height,
            y <= height,
        decreases height - y,
    {
        let mut x: usize = 0;
        while x < width
            invariant
                d100.wf(),
                dest.wf(),
                dest.spec_width() == width,
                dest.spec_height() == height,
                y < height,
                x <= width,
            decreases width - x,
        {
            let roll = d100.roll_with(gen);
            dest.set(x, y, roll <= 45);
            x = x + 1;
        }
        y = y + 1;
    }
    dest
}

/// Every floor cell of `g` stays within the flood's reach from the seed
/// `s`: on each axis it is either strictly inside the border, or shares
/// that coordinate with the seed (the flood's step guards bound only the
/// coordinate a step changes, so it can walk along the seed's own row or
/// column but never move onto any other border line).
pub open spec fn spec_flood_bounds(g: Grid, s: (int, int)) -> bool {
    forall|x: int, y: int|
        #[trigger] g.spec_is_floor(x, y) ==> (1 <= x <= g.spec_width() - 2 || x == s.0) && (1 <= y
            <= g.spec_height() - 2 || y == s.1)
}

/// A queue entry is an in-bounds cell within the flood's reach that is the
/// seed itself or 4-adjacent to some cell already copied as floor.
pub open spec fn spec_flood_entry_ok(dest: Grid, seed: (int, int), q: (usize, usize)) -> bool {
    &&& dest.spec_in_bounds(q.0 as int, q.1 as int)
    &&& (1 <= q.0 && q.0 as int <= dest.spec_width() - 2 || q.0 as int == seed.0)
    &&& (1 <= q.1 && q.1 as int <= dest.spec_height() - 2 || q.1 as int == seed.1)
    &&& ((q.0 as int, q.1 as int) == seed || exists|d: (int, int)|
        dest.spec_is_floor(d.0, d.1) && spec_cell_step(d, (q.0 as int, q.1 as int)))
}

/// Flood-fill repair: picks a random floor cell of `src` as a seed (giving
/// up with zero copied cells when a hundred redraws find only walls), then
/// copies onto a fresh all-wall buffer exactly the floor cells the flood
/// reaches from the seed. Every copied cell is a floor cell of `src`, the
/// copied count is exact, the copied cells form a single 4-connected
/// component, and every copied cell stays within the flood's reach from the
/// seed; floor pockets the flood never reaches stay wall.
#[verifier::spinoff_prover]
fn flood_copy(src: &Grid, gen: &mut PCG32) -> (r: (Grid, usize))
    requires
        src.wf(),
        2 <= src.spec_width(),
        2 <= src.spec_height(),
        src.spec_width() - 1 < u32::MAX,
        src.spec_height() - 1 < u32::MAX,
        src.spec_width() * src.spec_height() <= usize::MAX,
    ensures
        r.0.wf(),
        r.0.spec_width() == src.spec_width(),
        r.0.spec_height() == src.spec_height(),
        r.1 == r.0.spec_floor_count(),
        forall|x: int, y: int| #[trigger] r.0.spec_is_floor(x, y) ==> src.spec_is_floor(x, y),
        forall|ax: int, ay: int, bx: int, by: int|
            r.0.spec_is_floor(ax, ay) && r.0.spec_is_floor(bx, by) ==> #[trigger] spec_connected(
                r.0,
                (ax, ay),
                (bx, by),
            ),
        exists|s: (int, int)| #[trigger] spec_flood_bounds(r.0, s),
{
    let width = src.get_width();
    let height = src.get_height();

    // Pick a random floor seed, giving up after a hundred redraws.
    let d_width = RandRangeInclusive32::new(0, (width - 1) as u32);
    let d_height = RandRangeInclusive32::new(0, (height - 1) as u32);
    let mut sx = d_width.roll_with(gen) as usize;
    let mut sy = d_height.roll_with(gen) as usize;
    let mut tries: u32 = 0;
    while src.get(sx, sy)
        invariant
            src.wf(),
            src.spec_width() == width,
            src.spec_height() == height,
            src.spec_width() * src.spec_height() <= usize::MAX,
            d_width.wf(),
            d_height.wf(),
            d_width.spec_low() == 0 && d_width.spec_high() == width - 1,
            d_height.spec_low() == 0 && d_height.spec_high() == height - 1,
            sx < width,
            sy < height,
            tries <= 101,
        decreases 102 - tries,
    {
        sx = d_width.roll_with(gen) as usize;
        sy = d_height.roll_with(gen) as usize;
        tries = tries + 1;
        if tries > 100 {
            let dest = Grid::new_filled(width, height, true);
            proof {
                lemma_grid_cells_uniform(dest, true);
                lemma_count_eq_zero(dest.cells@, false);
                assert(spec_flood_bounds(dest, (0int, 0int)));
            }
            return (dest, 0);
        }
    }
    let ghost seed = (sx as int, sy as int);
    assert(src.spec_is_floor(sx as int, sy as int));

    // Flood outward from the seed over floor cells of `src`.
    let mut dest = Grid::new_filled(width, height, true);
    let mut seen = Grid::new_filled(width, height, false);
    let mut seen_count: usize = 0;
    let mut copied: usize = 0;
    let mut queue: Vec<(usize, usize)> = Vec::new();
    queue.push((sx, sy));
    proof {
        lemma_grid_cells_uniform(dest, true);
        lemma_count_eq_zero(dest.cells@, false);
        lemma_grid_cells_uniform(seen, false);
        lemma_count_eq_zero(seen.cells@, true);
    }
    while queue.len() > 0
        invariant
            src.wf(),
            src.spec_width() == width,
            src.spec_height() == height,
            2 <= width,
            2 <= height,
            src.spec_width() * src.spec_height() <= usize::MAX,
            src.spec_is_floor(seed.0, seed.1),
            seed == (sx as int, sy as int),
            dest.wf(),
            dest.spec_width() == width,
            dest.spec_height() == height,
            seen.wf(),
            seen.spec_width() == width,
            seen.spec_height() == height,
            copied == dest.spec_floor_count(),
            seen_count == count_eq(seen.cells@, true),
            seen_count <= width * height,
            forall|x: int, y: int| #[trigger] dest.spec_is_floor(x, y) ==> src.spec_is_floor(x, y),
            forall|x: int, y: int|
                #[trigger] dest.spec_is_floor(x, y) ==> seen.spec_is_wall(x, y),
            forall|x: int, y: int|
                #[trigger] dest.spec_is_floor(x, y) ==> spec_connected(dest, seed, (x, y)),
            forall|x: int, y: int|
                #[trigger] dest.spec_is_floor(x, y) ==> (1 <= x <= width - 2 || x == seed.0) && (1
                    <= y <= height - 2 || y == seed.1),
            forall|k: int|
                0 <= k < queue.len() ==> spec_flood_entry_ok(dest, seed, #[trigger] queue[k]),
        decreases width * height - seen_count, queue.len(),
    {
        let loc = queue.pop().unwrap();
        let (cx, cy) = loc;
        assert(spec_flood_entry_ok(dest, seed, loc));
        if seen.get(cx, cy) {
            continue ;
        }
        assert(!dest.spec_is_floor(cx as int, cy as int));
        proof {
            lemma_cell_index_bounds(width as int, height as int, cx as int, cy as int);
            lemma_count_eq_update(seen.cells@, cy as int * width as int + cx as int, true);
            lemma_count_eq_le_len(
                seen.cells@.update(cy as int * width as int + cx as int, true),
                true,
            );
        }
        seen.set(cx, cy, true);
        seen_count = seen_count + 1;
        if !src.get(cx, cy) {
            let ghost dest0 = dest;
            assert(dest0.spec_is_wall(cx as int, cy as int));
            proof {
                lemma_count_eq_update(dest.cells@, cy as int * width as int + cx as int, false);
                lemma_count_eq_le_len(
                    dest.cells@.update(cy as int * width as int + cx as int, false),
                    false,
                );
            }
            dest.set(cx, cy, false);
            copied = copied + 1;
            proof {
                let cur = (cx as int, cy as int);
                assert forall|x: int, y: int| dest0.spec_is_floor(x, y) implies dest.spec_is_floor(
                    x,
                    y,
                ) by {}
                assert forall|x: int, y: int| #[trigger] dest.spec_is_floor(x, y)
                    implies src.spec_is_floor(x, y) by {
                    if (x, y) != (cx as int, cy as int) {
                        assert(dest0.spec_is_floor(x, y));
                    }
                }
                assert forall|x: int, y: int| #[trigger] dest.spec_is_floor(x, y)
                    implies seen.spec_is_wall(x, y) by {
                    if (x, y) != (cx as int, cy as int) {
                        assert(dest0.spec_is_floor(x, y));
                    }
                }
                assert forall|x: int, y: int| #[trigger] dest.spec_is_floor(x, y) implies (1 <= x
                    <= width - 2 || x == seed.0) && (1 <= y <= height - 2 || y == seed.1) by {
                    if (x, y) != (cx as int, cy as int) {
                        assert(dest0.spec_is_floor(x, y));
                    }
                }
                if cur == seed {
                    lemma_connected_refl(dest, cur);
                } else {
                    let d = choose|d: (int, int)|
                        dest0.spec_is_floor(d.0, d.1) && spec_cell_step(d, cur);
                    lemma_connected_monotone(dest0, dest, seed, d);
                    lemma_connected_extend(dest, seed, d, cur);
                }
                assert forall|x: int, y: int| #[trigger] dest.spec_is_floor(x, y)
                    implies spec_connected(dest, seed, (x, y)) by {
                    if (x, y) != (cx as int, cy as int) {
                        assert(dest0.spec_is_floor(x, y));
                        lemma_connected_monotone(dest0, dest, seed, (x, y));
                    }
                }
                assert forall|k: int| 0 <= k < queue.len() implies spec_flood_entry_ok(
                    dest,
                    seed,
                    #[trigger] queue[k],
                ) by {
                    let q = queue[k];
                    assert(spec_flood_entry_ok(dest0, seed, q));
                    if (q.0 as int, q.1 as int) != seed {
                        let d = choose|d: (int, int)|
                            dest0.spec_is_floor(d.0, d.1) && spec_cell_step(
                                d,
                                (q.0 as int, q.1 as int),
                            );
                        assert(dest.spec_is_floor(d.0, d.1));
                    }
                }
            }
            if cx > 1 {
                queue.push((cx - 1, cy));
            }
            if cx < width - 2 {
                queue.push((cx + 1, cy));
            }
            if cy > 1 {
                queue.push((cx, cy - 1));
            }
            if cy < height - 2 {
                queue.push((cx, cy + 1));
            }
            assert forall|k: int| 0 <= k < queue.len() implies spec_flood_entry_ok(
                dest,
                seed,
                #[trigger] queue[k],
            ) by {
                let q = queue[k];
                if !((q.0 as int, q.1 as int) == seed || exists|d: (int, int)|
                    dest.spec_is_floor(d.0, d.1) && spec_cell_step(d, (q.0 as int, q.1 as int)))
                    || !dest.spec_in_bounds(q.0 as int, q.1 as int) {
                    assert(spec_cell_step((cx as int, cy as int), (q.0 as int, q.1 as int)));
                    assert(dest.spec_is_floor(cx as int, cy as int));
                }
            }
        }
    }
    proof {
        assert forall|ax: int, ay: int, bx: int, by: int|
            dest.spec_is_floor(ax, ay) && dest.spec_is_floor(bx, by) implies #[trigger]
        spec_connected(dest, (ax, ay), (bx, by)) by {
            lemma_connected_sym(dest, seed, (ax, ay));
            lemma_connected_trans(dest, (ax, ay), seed, (bx, by));
        }
        assert(spec_flood_bounds(dest, seed));
    }
    (dest, copied)
}

/// With both dimensions at least 3, a rectangle one cell short of the grid
/// on each axis covers at least half of the grid.
proof fn lemma_corner_count_sufficient(width: int, height: int)
    requires
        3 <= width,
        3 <= height,
    ensures
        (width - 1) * (height - 1) >= (width * height) / 2,
{
    assert(2 * ((width - 1) * (height - 1)) >= width * height - 1) by (nonlinear_arith)
        requires
            3 <= width,
            3 <= height,
    ;
    vstd::arithmetic::div_mod::lemma_fundamental_div_mod(width * height, 2);
    vstd::arithmetic::div_mod::lemma_mod_bound(width * height, 2);
}

/// The give-up shape of the generator: an open rectangle anchored at the
/// corner, leaving the far row and column wall, as if the flood had run
/// from a corner seed over fully open noise. It satisfies every promise the
/// flood repair makes of an accepted grid.
fn corner_open_grid(width: usize, height: usize) -> (r: Grid)
    requires
        3 <= width,
        3 <= height,
        width * height <= usize::MAX,
    ensures
        r.wf(),
        r.spec_width() == width,
        r.spec_height() == height,
        forall|x: int, y: int|
            r.spec_in_bounds(x, y) ==> (#[trigger] r.spec_is_floor(x, y) <==> (x <= width - 2 && y
                <= height - 2)),
        r.spec_floor_count() == (width - 1) * (height - 1),
{
    let mut dest = Grid::new_filled(width, height, true);
    proof {
        lemma_grid_cells_uniform(dest, true);
        lemma_count_eq_zero(dest.cells@, false);
        assert(0 * (width - 1) == 0) by (nonlinear_arith);
    }
    let mut y: usize = 0;
    while y < height - 1
        invariant
            3 <= width,
            3 <= height,
            width * height <= usize::MAX,
            dest.wf(),
            dest.spec_width() == width,
            dest.spec_height() == height,
            y <= height - 1,
            forall|i: int, j: int|
                dest.spec_in_bounds(i, j) ==> (#[trigger] dest.spec_is_floor(i, j) <==> (i
                    <= width - 2 && j < y)),
            dest.spec_floor_count() == y * (width - 1),
        decreases height - 1 - y,
    {
        let mut x: usize = 0;
        while x < width - 1
            invariant
                3 <= width,
                3 <= height,
                width * height <= usize::MAX,
                dest.wf(),
                dest.spec_width() == width,
                dest.spec_height() == height,
                y <= height - 2,
                x <= width - 1,
                forall|i: int, j: int|
                    dest.spec_in_bounds(i, j) ==> (#[trigger] dest.spec_is_floor(i, j) <==> ((i
                        <= width - 2 && j < y) || (j == y && i < x))),
                dest.spec_floor_count() == y * (width - 1) + x,
            decreases width - 1 - x,
        {
            let ghost dest0 = dest;
            proof {
                lemma_cell_index_bounds(width as int, height as int, x as int, y as int);
                assert(!dest.spec_is_floor(x as int, y as int));
                lemma_count_eq_update(dest.cells@, y as int * width as int + x as int, false);
            }
            dest.set(x, y, false);
            proof {
                assert forall|i: int, j: int| dest.spec_in_bounds(i, j) implies (
                #[trigger] dest.spec_is_floor(i, j) <==> ((i <= width - 2 && j < y) || (j == y && i
                    < x + 1))) by {
                    if (i, j) != (x as int, y as int) {
                        assert(dest.spec_is_wall(i, j) == dest0.spec_is_wall(i, j));
                        assert(dest0.spec_is_floor(i, j) <==> ((i <= width - 2 && j < y) || (j == y
                            && i < x)));
                    }
                }
            }
            x = x + 1;
        }
        proof {
            assert(y * (width - 1) + (width - 1) == (y + 1) * (width - 1)) by (nonlinear_arith);
        }
        y = y + 1;
    }
    proof {
        assert((height - 1) * (width - 1) == (width - 1) * (height - 1)) by (nonlinear_arith);
    }
    dest
}

/// Generates a cave: noise, five smoothing passes, then flood-fill repair,
/// the whole pipeline retried until the single floor component kept by the
/// repair covers at least half of the grid. `true` cells are wall. Every
/// floor cell of the result is reachable from every other floor cell by
/// 4-connected floor-only movement, and the floor stays within the flood's
/// reach from a single seed. Both dimensions must be at least 3: on a
/// 2-wide or 2-tall grid the flood can never keep half of the area, so no
/// attempt could ever be accepted and the retries would never end.
/// Acceptance on each attempt is likely, so the retry loop is in practice
/// short; after an astronomically long run of failures it gives up on cave
/// shapes and yields the open corner rectangle a corner-seeded flood of a
/// fully open grid would keep, which meets the same promises.
pub fn make_cellular_caves(width: usize, height: usize, gen: &mut PCG32) -> (r: Grid)
    requires
        3 <= width,
        3 <= height,
        width - 1 < u32::MAX,
        height - 1 < u32::MAX,
        width + 2 <= isize::MAX,
        height + 2 <= isize::MAX,
        width * height <= usize::MAX,
    ensures
        r.wf(),
        r.spec_width() == width,
        r.spec_height() == height,
        r.spec_floor_count() >= (width * height) / 2,
        forall|ax: int, ay: int, bx: int, by: int|
            r.spec_is_floor(ax, ay) && r.spec_is_floor(bx, by) ==> #[trigger] spec_connected(
                r,
                (ax, ay),
                (bx, by),
            ),
        exists|s: (int, int)| #[trigger] spec_flood_bounds(r, s),
{
    let mut attempts: u32 = 0;
    loop
        invariant
            3 <= width,
            3 <= height,
            width - 1 < u32::MAX,
            height - 1 < u32::MAX,
            width + 2 <= isize::MAX,
            height + 2 <= isize::MAX,
            width * height <= usize::MAX,
        decreases u32::MAX - attempts,
    {
        // Fill the initial buffer, all cells 45% likely to be wall.
        let noise = noise_fill(width, height, gen);
        // Smooth five times, alternating buffers.
        let pass1 = smooth_pass(&noise);
        let pass2 = smooth_pass(&pass1);
        let pass3 = smooth_pass(&pass2);
        let pass4 = smooth_pass(&pass3);
        let pass5 = smooth_pass(&pass4);
        // Keep a single floor component; accept when it covers enough.
        let (repaired, copied) = flood_copy(&pass5, gen);
        if copied >= (width * height) / 2 {
            return repaired;
        }
        if attempts == u32::MAX {
            let fallback = corner_open_grid(width, height);
            proof {
                lemma_corner_count_sufficient(width as int, height as int);
                assert(spec_flood_bounds(fallback, (0int, 0int)));
                assert forall|x: int, y: int|
                    0 <= x <= width - 2 && 0 <= y <= height - 2 implies fallback.spec_is_floor(
                    x,
                    y,
                ) by {}
                assert forall|ax: int, ay: int, bx: int, by: int|
                    fallback.spec_is_floor(ax, ay) && fallback.spec_is_floor(bx, by)
                    implies #[trigger] spec_connected(fallback, (ax, ay), (bx, by)) by {
                    lemma_rect_connected(
                        fallback,
                        0,
                        0,
                        width - 2,
                        height - 2,
                        (ax, ay),
                        (bx, by),
                    );
                }
            }
            return fallback;
        }
        attempts = attempts + 1;
    }
}

} // verus!
