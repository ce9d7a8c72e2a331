//! A dense two-dimensional boolean grid (`true` = wall, `false` = floor),
//! with the notions of floor connectivity that the cave generator promises.

use vstd::prelude::*;

verus! {

/// A dense cave buffer. Cells are stored row-major; the cell at `(x, y)`
/// sits at index `y * width + x`.
pub struct Grid {
    pub width: usize,
    pub height: usize,
    pub cells: Vec<bool>,
}

impl Grid {
    /// The backing vector holds exactly one cell per coordinate.
    pub open spec fn wf(self) -> bool {
        self.cells.len() == self.width * self.height
    }

    pub open spec fn spec_width(self) -> int {
        self.width as int
    }

    pub open spec fn spec_height(self) -> int {
        self.height as int
    }

    pub open spec fn spec_in_bounds(self, x: int, y: int) -> bool {
        0 <= x < self.width && 0 <= y < self.height
    }

    /// Whether the in-bounds cell `(x, y)` is a wall.
    pub open spec fn spec_is_wall(self, x: int, y: int) -> bool {
        self.cells[y * self.width + x]
    }

    /// An in-bounds cell that is not a wall.
    pub open spec fn spec_is_floor(self, x: int, y: int) -> bool {
        self.spec_in_bounds(x, y) && !self.spec_is_wall(x, y)
    }

    /// The number of floor cells.
    pub open spec fn spec_floor_count(self) -> nat {
        count_eq(self.cells@, false)
    }

    /// A grid of the given dimensions with every cell set to `value`.
    pub fn new_filled(width: usize, height: usize, value: bool) -> (r: Grid)
        requires
            width * height <= usize::MAX,
        ensures
            r.wf(),
            r.spec_width() == width,
            r.spec_height() == height,
            forall|x: int, y: int|
                r.spec_in_bounds(x, y) ==> #[trigger] r.spec_is_wall(x, y) == value,
    {
        proof {
            vstd::arithmetic::mul::lemma_mul_nonnegative(width as int, height as int);
        }
        let n = width * height;
        let mut cells: Vec<bool> = Vec::new();
        let mut i: usize = 0;
        while i < n
            invariant
                i <= n,
                cells.len() == i,
                forall|j: int| 0 <= j < i ==> cells[j] == value,
            decreases n - i,
        {
            cells.push(value);
            i = i + 1;
        }
        let r = Grid { width, height, cells };
        proof {
            assert forall|x: int, y: int| r.spec_in_bounds(x, y) implies #[trigger] r.spec_is_wall(
                x,
                y,
            ) == value by {
                lemma_cell_index_bounds(r.width as int, r.height as int, x, y);
            }
        }
        r
    }

    /// Grid width as a plain value.
    pub fn get_width(&self) -> (r: usize)
        ensures
            r == self.spec_width(),
    {
        self.width
    }

    /// Grid height as a plain value.
    pub fn get_height(&self) -> (r: usize)
        ensures
            r == self.spec_height(),
    {
        self.height
    }

    /// Reads the cell at `(x, y)`.
    pub fn get(&self, x: usize, y: usize) -> (r: bool)
        requires
            self.wf(),
            self.spec_in_bounds(x as int, y as int),
        ensures
            r == self.spec_is_wall(x as int, y as int),
    {
        proof {
            lemma_cell_index_bounds(self.width as int, self.height as int, x as int, y as int);
        }
        self.cells[y * self.width + x]
    }

    /// Writes the cell at `(x, y)`, leaving every other cell unchanged.
    pub fn set(&mut self, x: usize, y: usize, value: bool)
        requires
            old(self).wf(),
            old(self).spec_in_bounds(x as int, y as int),
        ensures
            final(self).wf(),
            final(self).spec_width() == old(self).spec_width(),
            final(self).spec_height() == old(self).spec_height(),
            final(self).spec_is_wall(x as int, y as int) == value,
            forall|i: int, j: int|
                old(self).spec_in_bounds(i, j) && (i != x || j != y)
                    ==> #[trigger] final(self).spec_is_wall(i, j) == old(self).spec_is_wall(i, j),
            final(self).cells@ == old(self).cells@.update(y * old(self).spec_width() + x, value),
    {
        proof {
            lemma_cell_index_bounds(self.width as int, self.height as int, x as int, y as int);
        }
        let idx = y * self.width + x;
        self.cells.set(idx, value);
        proof {
            assert forall|i: int, j: int|
                old(self).spec_in_bounds(i, j) && (i != x || j != y) implies #[trigger] self
                .spec_is_wall(i, j) == old(self).spec_is_wall(i, j) by {
                lemma_cell_index_bounds(self.width as int, self.height as int, i, j);
                lemma_cell_index_injective(
                    self.width as int,
                    self.height as int,
                    i,
                    j,
                    x as int,
                    y as int,
                );
            }
        }
    }
}

/// Row-major indices of in-bounds cells stay within the backing vector.
pub proof fn lemma_cell_index_bounds(width: int, height: int, x: int, y: int)
    requires
        0 <= x < width,
        0 <= y < height,
    ensures
        0 <= y * width + x < width * height,
{
    vstd::arithmetic::mul::lemma_mul_nonnegative(y, width);
    assert((y + 1) * width == y * width + width) by (nonlinear_arith);
    vstd::arithmetic::mul::lemma_mul_inequality(y + 1, height, width);
    assert(height * width == width * height) by (nonlinear_arith);
}

/// Distinct in-bounds cells have distinct row-major indices.
pub proof fn lemma_cell_index_injective(width: int, height: int, x1: int, y1: int, x2: int, y2: int)
    requires
        0 <= x1 < width,
        0 <= y1 < height,
        0 <= x2 < width,
        0 <= y2 < height,
        x1 != x2 || y1 != y2,
    ensures
        y1 * width + x1 != y2 * width + x2,
{
    if y1 != y2 {
        assert(y1 * width + x1 != y2 * width + x2) by (nonlinear_arith)
            requires
                0 <= x1 < width,
                0 <= x2 < width,
                y1 != y2,
        ;
    }
}

/// Two cells that differ by exactly one step along exactly one axis.
pub open spec fn spec_cell_step(a: (int, int), b: (int, int)) -> bool {
    (a.0 == b.0 && (a.1 - b.1 == 1 || b.1 - a.1 == 1)) || (a.1 == b.1 && (a.0 - b.0 == 1 || b.0
        - a.0 == 1))
}

/// A walk through floor cells of `g`, each consecutive pair 4-adjacent.
pub open spec fn spec_floor_path(g: Grid, p: Seq<(int, int)>) -> bool {
    &&& p.len() >= 1
    &&& forall|i: int| 0 <= i < p.len() ==> g.spec_is_floor(#[trigger] p[i].0, p[i].1)
    &&& forall|i: int| 0 <= i < p.len() - 1 ==> spec_cell_step(#[trigger] p[i], p[i + 1])
}

/// Cell `b` can be reached from cell `a` by 4-connected floor-only movement.
pub open spec fn spec_connected(g: Grid, a: (int, int), b: (int, int)) -> bool {
    exists|p: Seq<(int, int)>| spec_floor_path(g, p) && p[0] == a && p.last() == b
}

/// Every floor cell is connected to itself.
pub proof fn lemma_connected_refl(g: Grid, a: (int, int))
    requires
        g.spec_is_floor(a.0, a.1),
    ensures
        spec_connected(g, a, a),
{
    let p = seq![a];
    assert(spec_floor_path(g, p) && p[0] == a && p.last() == a);
}

/// A connection extends by one step onto an adjacent floor cell.
pub proof fn lemma_connected_extend(g: Grid, a: (int, int), b: (int, int), c: (int, int))
    requires
        spec_connected(g, a, b),
        g.spec_is_floor(c.0, c.1),
        spec_cell_step(b, c),
    ensures
        spec_connected(g, a, c),
{
    let p = choose|p: Seq<(int, int)>| spec_floor_path(g, p) && p[0] == a && p.last() == b;
    let q = p.push(c);
    assert forall|i: int| 0 <= i < q.len() - 1 implies spec_cell_step(#[trigger] q[i], q[i + 1]) by {
        if i < p.len() - 1 {
            assert(spec_cell_step(p[i], p[i + 1]));
        }
    }
    assert(spec_floor_path(g, q) && q[0] == a && q.last() == c);
}

/// Connectivity is symmetric: the reverse of a floor walk is a floor walk.
pub proof fn lemma_connected_sym(g: Grid, a: (int, int), b: (int, int))
    requires
        spec_connected(g, a, b),
    ensures
        spec_connected(g, b, a),
{
    let p = choose|p: Seq<(int, int)>| spec_floor_path(g, p) && p[0] == a && p.last() == b;
    let n = p.len() as int;
    let q = Seq::new(p.len(), |i: int| p[n - 1 - i]);
    assert forall|i: int| 0 <= i < q.len() - 1 implies spec_cell_step(#[trigger] q[i], q[i + 1]) by {
        assert(spec_cell_step(p[n - 2 - i], p[n - 2 - i + 1]));
    }
    assert(spec_floor_path(g, q) && q[0] == b && q.last() == a);
}

/// Connectivity is transitive: two floor walks join end to end.
pub proof fn lemma_connected_trans(g: Grid, a: (int, int), b: (int, int), c: (int, int))
    requires
        spec_connected(g, a, b),
        spec_connected(g, b, c),
    ensures
        spec_connected(g, a, c),
{
    let p = choose|p: Seq<(int, int)>| spec_floor_path(g, p) && p[0] == a && p.last() == b;
    let q = choose|q: Seq<(int, int)>| spec_floor_path(g, q) && q[0] == b && q.last() == c;
    let r = p + q.subrange(1, q.len() as int);
    assert(r.len() == p.len() + q.len() - 1);
    assert forall|i: int| 0 <= i < r.len() - 1 implies spec_cell_step(#[trigger] r[i], r[i + 1]) by {
        if i < p.len() - 1 {
            assert(r[i] == p[i] && r[i + 1] == p[i + 1]);
            assert(spec_cell_step(p[i], p[i + 1]));
        } else if i == p.len() - 1 {
            assert(r[i] == p.last() && r[i + 1] == q[1]);
            assert(spec_cell_step(q[0], q[1]));
        } else {
            let j = i - p.len() + 1;
            assert(r[i] == q[j] && r[i + 1] == q[j + 1]);
            assert(spec_cell_step(q[j], q[j + 1]));
        }
    }
    assert(r.last() == q.last());
    assert(spec_floor_path(g, r) && r[0] == a && r.last() == c);
}

/// Turning wall cells into floor cells never severs a connection.
pub proof fn lemma_connected_monotone(g1: Grid, g2: Grid, a: (int, int), b: (int, int))
    requires
        spec_connected(g1, a, b),
        forall|x: int, y: int| g1.spec_is_floor(x, y) ==> g2.spec_is_floor(x, y),
    ensures
        spec_connected(g2, a, b),
{
    let p = choose|p: Seq<(int, int)>| spec_floor_path(g1, p) && p[0] == a && p.last() == b;
    assert forall|i: int| 0 <= i < p.len() implies g2.spec_is_floor(#[trigger] p[i].0, p[i].1) by {
        assert(g1.spec_is_floor(p[i].0, p[i].1));
    }
    assert(spec_floor_path(g2, p) && p[0] == a && p.last() == b);
}

/// In a grid whose cells within a rectangle are all floor, any two cells of
/// the rectangle with equal `y` are connected: walk straight along the row.
proof fn lemma_rect_row_connected(
    g: Grid,
    lo_x: int,
    lo_y: int,
    hi_x: int,
    hi_y: int,
    x1: int,
    x2: int,
    y: int,
)
    requires
        forall|x: int, y: int| lo_x <= x <= hi_x && lo_y <= y <= hi_y ==> g.spec_is_floor(x, y),
        lo_x <= x1 <= hi_x,
        lo_x <= x2 <= hi_x,
        lo_y <= y <= hi_y,
    ensures
        spec_connected(g, (x1, y), (x2, y)),
    decreases
            if x2 >= x1 {
                x2 - x1
            } else {
                x1 - x2
            },
{
    if x1 == x2 {
        lemma_connected_refl(g, (x1, y));
    } else if x2 > x1 {
        lemma_rect_row_connected(g, lo_x, lo_y, hi_x, hi_y, x1, x2 - 1, y);
        lemma_connected_extend(g, (x1, y), (x2 - 1, y), (x2, y));
    } else {
        lemma_rect_row_connected(g, lo_x, lo_y, hi_x, hi_y, x1, x2 + 1, y);
        lemma_connected_extend(g, (x1, y), (x2 + 1, y), (x2, y));
    }
}

/// In a grid whose cells within a rectangle are all floor, any two cells of
/// the rectangle are connected: walk along the row, then along the column.
pub proof fn lemma_rect_connected(
    g: Grid,
    lo_x: int,
    lo_y: int,
    hi_x: int,
    hi_y: int,
    a: (int, int),
    b: (int, int),
)
    requires
        forall|x: int, y: int| lo_x <= x <= hi_x && lo_y <= y <= hi_y ==> g.spec_is_floor(x, y),
        lo_x <= a.0 <= hi_x,
        lo_y <= a.1 <= hi_y,
        lo_x <= b.0 <= hi_x,
        lo_y <= b.1 <= hi_y,
    ensures
        spec_connected(g, a, b),
    decreases
            if b.1 >= a.1 {
                b.1 - a.1
            } else {
                a.1 - b.1
            },
{
    if a.1 == b.1 {
        lemma_rect_row_connected(g, lo_x, lo_y, hi_x, hi_y, a.0, b.0, a.1);
    } else if b.1 > a.1 {
        lemma_rect_connected(g, lo_x, lo_y, hi_x, hi_y, a, (b.0, b.1 - 1));
        lemma_connected_extend(g, a, (b.0, b.1 - 1), b);
    } else {
        lemma_rect_connected(g, lo_x, lo_y, hi_x, hi_y, a, (b.0, b.1 + 1));
        lemma_connected_extend(g, a, (b.0, b.1 + 1), b);
    }
}

/// The number of entries of `s` equal to `b`.
pub open spec fn count_eq(s: Seq<bool>, b: bool) -> nat
    decreases s.len(),
{
    if s.len() == 0 {
        0
    } else {
        (if s.last() == b {
            1nat
        } else {
            0nat
        }) + count_eq(s.drop_last(), b)
    }
}

/// A count never exceeds the length counted over.
pub proof fn lemma_count_eq_le_len(s: Seq<bool>, b: bool)
    ensures
        count_eq(s, b) <= s.len(),
    decreases s.len(),
{
    if s.len() > 0 {
        lemma_count_eq_le_len(s.drop_last(), b);
    }
}

/// A sequence with no entry equal to `b` counts zero.
pub proof fn lemma_count_eq_zero(s: Seq<bool>, b: bool)
    requires
        forall|i: int| 0 <= i < s.len() ==> s[i] != b,
    ensures
        count_eq(s, b) == 0,
    decreases s.len(),
{
    if s.len() > 0 {
        lemma_count_eq_zero(s.drop_last(), b);
    }
}

/// In a well-formed grid whose in-bounds cells all hold `value`, every entry
/// of the backing vector holds `value`.
pub proof fn lemma_grid_cells_uniform(g: Grid, value: bool)
    requires
        g.wf(),
        forall|x: int, y: int| g.spec_in_bounds(x, y) ==> #[trigger] g.spec_is_wall(x, y) == value,
    ensures
        forall|i: int| 0 <= i < g.cells@.len() ==> g.cells@[i] == value,
{
    let w = g.spec_width();
    let h = g.spec_height();
    assert forall|i: int| 0 <= i < g.cells@.len() implies g.cells@[i] == value by {
        assert(w > 0) by (nonlinear_arith)
            requires
                w * h > 0,
                w >= 0,
                h >= 0,
        ;
        vstd::arithmetic::div_mod::lemma_fundamental_div_mod(i, w);
        vstd::arithmetic::div_mod::lemma_mod_bound(i, w);
        vstd::arithmetic::div_mod::lemma_div_pos_is_pos(i, w);
        let x = i % w;
        let y = i / w;
        assert(y < h) by (nonlinear_arith)
            requires
                w * y + x == i,
                0 <= x < w,
                0 < w,
                0 <= y,
                i < w * h,
        ;
        assert(g.spec_is_wall(x, y) == value);
    }
}

/// Updating one entry away from `b` to `b` raises the count by one.
pub proof fn lemma_count_eq_update(s: Seq<bool>, i: int, b: bool)
    requires
        0 <= i < s.len(),
        s[i] != b,
    ensures
        count_eq(s.update(i, b), b) == count_eq(s, b) + 1,
    decreases s.len(),
{
    let t = s.update(i, b);
    if i == s.len() - 1 {
        assert(t.drop_last() =~= s.drop_last());
    } else {
        assert(t.drop_last() =~= s.drop_last().update(i, b));
        lemma_count_eq_update(s.drop_last(), i, b);
    }
}

} // verus!
