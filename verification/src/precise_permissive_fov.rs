//! Precise permissive field-of-view computation.
//!
//! Visibility is resolved per quadrant by a worklist of *views*, each
//! bounded by a shallow and a steep line; opaque cells clip, split or kill
//! views at exact cell corners instead of approximating with cast rays.

use vstd::prelude::*;

verus! {

/// A boundary ray through the two lattice points `(xi, yi)` and `(xf, yf)`,
/// in quadrant-local coordinates.
#[derive(Debug, Clone, Copy)]
pub struct Line {
    pub xi: i32,
    pub yi: i32,
    pub xf: i32,
    pub yf: i32,
}

/// The classic slope comparison: positive when `(x, y)` lies below the
/// line, negative when above, zero when collinear.
pub open spec fn spec_relative_slope(l: Line, x: int, y: int) -> int {
    (l.yf - l.yi) * (l.xf - x) - (l.xf - l.xi) * (l.yf - y)
}

/// Every intermediate of the slope formula fits in `i32`.
pub open spec fn spec_slope_args_ok(l: Line, x: int, y: int) -> bool {
    &&& i32::MIN <= l.yf - l.yi <= i32::MAX
    &&& i32::MIN <= l.xf - l.xi <= i32::MAX
    &&& i32::MIN <= l.xf - x <= i32::MAX
    &&& i32::MIN <= l.yf - y <= i32::MAX
    &&& i32::MIN <= (l.yf - l.yi) * (l.xf - x) <= i32::MAX
    &&& i32::MIN <= (l.xf - l.xi) * (l.yf - y) <= i32::MAX
    &&& i32::MIN <= spec_relative_slope(l, x, y) <= i32::MAX
}

/// Both points of the line sit in the square `[0, b]` by `[0, b]`.
pub open spec fn spec_line_bounded(l: Line, b: int) -> bool {
    &&& 0 <= l.xi <= b
    &&& 0 <= l.yi <= b
    &&& 0 <= l.xf <= b
    &&& 0 <= l.yf <= b
}

/// For lines and query points inside a small square, the slope formula
/// cannot overflow.
pub proof fn lemma_bounded_slope_ok(l: Line, b: int, x: int, y: int)
    requires
        spec_line_bounded(l, b),
        0 <= x <= b,
        0 <= y <= b,
        0 <= b <= 32767,
    ensures
        spec_slope_args_ok(l, x, y),
{
    assert((l.yf - l.yi) * (l.xf - x) <= b * b && (l.yf - l.yi) * (l.xf - x) >= -(b * b))
        by (nonlinear_arith)
        requires
            -b <= l.yf - l.yi <= b,
            -b <= l.xf - x <= b,
            0 <= b,
    ;
    assert((l.xf - l.xi) * (l.yf - y) <= b * b && (l.xf - l.xi) * (l.yf - y) >= -(b * b))
        by (nonlinear_arith)
        requires
            -b <= l.xf - l.xi <= b,
            -b <= l.yf - y <= b,
            0 <= b,
    ;
    assert(b * b <= 32767 * 32767) by (nonlinear_arith)
        requires
            0 <= b <= 32767,
    ;
}

impl Line {
    pub fn new(xi: i32, yi: i32, xf: i32, yf: i32) -> (r: Self)
        ensures
            r == (Line { xi, yi, xf, yf }),
    {
        Self { xi, yi, xf, yf }
    }

    /// Horizontal span of the line.
    pub fn dx(&self) -> (r: i32)
        requires
            i32::MIN <= self.xf - self.xi <= i32::MAX,
        ensures
            r == self.xf - self.xi,
    {
        self.xf - self.xi
    }

    /// Vertical span of the line.
    pub fn dy(&self) -> (r: i32)
        requires
            i32::MIN <= self.yf - self.yi <= i32::MAX,
        ensures
            r == self.yf - self.yi,
    {
        self.yf - self.yi
    }

    /// The slope comparison value for `(x, y)`.
    pub fn relative_slope(&self, x: i32, y: i32) -> (r: i32)
        requires
            spec_slope_args_ok(*self, x as int, y as int),
        ensures
            r == spec_relative_slope(*self, x as int, y as int),
    {
        (self.dy() * (self.xf - x)) - (self.dx() * (self.yf - y))
    }

    pub fn below_p(&self, x: i32, y: i32) -> (r: bool)
        requires
            spec_slope_args_ok(*self, x as int, y as int),
        ensures
            r == (spec_relative_slope(*self, x as int, y as int) > 0),
    {
        self.relative_slope(x, y) > 0
    }

    pub fn below_or_collinear_p(&self, x: i32, y: i32) -> (r: bool)
        requires
            spec_slope_args_ok(*self, x as int, y as int),
        ensures
            r == (spec_relative_slope(*self, x as int, y as int) >= 0),
    {
        self.relative_slope(x, y) >= 0
    }

    pub fn above_p(&self, x: i32, y: i32) -> (r: bool)
        requires
            spec_slope_args_ok(*self, x as int, y as int),
        ensures
            r == (spec_relative_slope(*self, x as int, y as int) < 0),
    {
        self.relative_slope(x, y) < 0
    }

    pub fn above_or_collinear_p(&self, x: i32, y: i32) -> (r: bool)
        requires
            spec_slope_args_ok(*self, x as int, y as int),
        ensures
            r == (spec_relative_slope(*self, x as int, y as int) <= 0),
    {
        self.relative_slope(x, y) <= 0
    }

    pub fn collinear_p(&self, x: i32, y: i32) -> (r: bool)
        requires
            spec_slope_args_ok(*self, x as int, y as int),
        ensures
            r == (spec_relative_slope(*self, x as int, y as int) == 0),
    {
        self.relative_slope(x, y) == 0
    }

    /// Whether both points of `line` are collinear with this line.
    pub fn collinear_line(&self, line: Line) -> (r: bool)
        requires
            spec_slope_args_ok(*self, line.xi as int, line.yi as int),
            spec_slope_args_ok(*self, line.xf as int, line.yf as int),
        ensures
            r == (spec_relative_slope(*self, line.xi as int, line.yi as int) == 0
                && spec_relative_slope(*self, line.xf as int, line.yf as int) == 0),
    {
        self.collinear_p(line.xi, line.yi) && self.collinear_p(line.xf, line.yf)
    }
}

/// The shallow line after its re-anchoring scan has run over the first `n`
/// recorded steep bumps in list order: each bump lying strictly above the
/// line so far re-anchors the line's origin onto itself.
pub open spec fn spec_shallow_reanchor(line: Line, bumps: Seq<(i32, i32)>, n: nat) -> Line
    decreases n,
{
    if n == 0 {
        line
    } else {
        let prev = spec_shallow_reanchor(line, bumps, (n - 1) as nat);
        let b = bumps[n - 1];
        if spec_relative_slope(prev, b.0 as int, b.1 as int) < 0 {
            Line { xi: b.0, yi: b.1, xf: prev.xf, yf: prev.yf }
        } else {
            prev
        }
    }
}

/// The steep line after its re-anchoring scan has run over the first `n`
/// recorded shallow bumps in list order: each bump lying strictly below the
/// line so far re-anchors the line's origin onto itself.
pub open spec fn spec_steep_reanchor(line: Line, bumps: Seq<(i32, i32)>, n: nat) -> Line
    decreases n,
{
    if n == 0 {
        line
    } else {
        let prev = spec_steep_reanchor(line, bumps, (n - 1) as nat);
        let b = bumps[n - 1];
        if spec_relative_slope(prev, b.0 as int, b.1 as int) > 0 {
            Line { xi: b.0, yi: b.1, xf: prev.xf, yf: prev.yf }
        } else {
            prev
        }
    }
}

/// An active view: the angular range between a shallow and a steep boundary
/// line, together with the corner bumps that produced each line.
#[derive(Debug, Clone)]
pub struct FovView {
    pub shallow_line: Line,
    pub steep_line: Line,
    pub shallow_bumps: Vec<(i32, i32)>,
    pub steep_bumps: Vec<(i32, i32)>,
}

impl FovView {
    /// Both boundary lines and every recorded bump sit inside `[0, b]`.
    pub open spec fn bounded(self, b: int) -> bool {
        &&& spec_line_bounded(self.shallow_line, b)
        &&& spec_line_bounded(self.steep_line, b)
        &&& forall|i: int|
            0 <= i < self.shallow_bumps@.len() ==> {
                let p = #[trigger] self.shallow_bumps@[i];
                0 <= p.0 <= b && 0 <= p.1 <= b
            }
        &&& forall|i: int|
            0 <= i < self.steep_bumps@.len() ==> {
                let p = #[trigger] self.steep_bumps@[i];
                0 <= p.0 <= b && 0 <= p.1 <= b
            }
    }

    pub fn new(shallow_line: Line, steep_line: Line) -> (r: Self)
        ensures
            r.shallow_line == shallow_line,
            r.steep_line == steep_line,
            r.shallow_bumps@.len() == 0,
            r.steep_bumps@.len() == 0,
    {
        Self { shallow_line, steep_line, shallow_bumps: Vec::new(), steep_bumps: Vec::new() }
    }

    /// A field-for-field copy of this view.
    fn duplicate(&self) -> (r: Self)
        requires
            self.bounded(32767),
        ensures
            r.bounded(32767),
            r.shallow_line == self.shallow_line,
            r.steep_line == self.steep_line,
            r.shallow_bumps@ == self.shallow_bumps@,
            r.steep_bumps@ == self.steep_bumps@,
    {
        let mut shallow_bumps: Vec<(i32, i32)> = Vec::new();
        let mut i: usize = 0;
        while i < self.shallow_bumps.len()
            invariant
                i <= self.shallow_bumps@.len(),
                shallow_bumps@ == self.shallow_bumps@.subrange(0, i as int),
            decreases self.shallow_bumps@.len() - i,
        {
            shallow_bumps.push(self.shallow_bumps[i]);
            proof {
                assert(shallow_bumps@ =~= self.shallow_bumps@.subrange(0, i + 1));
            }
            i = i + 1;
        }
        proof {
            assert(shallow_bumps@ =~= self.shallow_bumps@);
        }
        let mut steep_bumps: Vec<(i32, i32)> = Vec::new();
        let mut j: usize = 0;
        while j < self.steep_bumps.len()
            invariant
                j <= self.steep_bumps@.len(),
                steep_bumps@ == self.steep_bumps@.subrange(0, j as int),
            decreases self.steep_bumps@.len() - j,
        {
            steep_bumps.push(self.steep_bumps[j]);
            proof {
                assert(steep_bumps@ =~= self.steep_bumps@.subrange(0, j + 1));
            }
            j = j + 1;
        }
        proof {
            assert(steep_bumps@ =~= self.steep_bumps@);
        }
        FovView {
            shallow_line: self.shallow_line,
            steep_line: self.steep_line,
            shallow_bumps,
            steep_bumps,
        }
    }

    /// Clips the shallow boundary at a newly hit corner: re-aims the
    /// shallow line's far point at the bump, records the bump, and
    /// re-anchors the line's origin onto any earlier steep bump that now
    /// lies above it.
    pub fn add_shallow_bump(&mut self, x: i32, y: i32)
        requires
            old(self).bounded(32767),
            0 <= x <= 32767,
            0 <= y <= 32767,
        ensures
            final(self).bounded(32767),
            final(self).steep_line == old(self).steep_line,
            final(self).steep_bumps@ == old(self).steep_bumps@,
            final(self).shallow_bumps@ == old(self).shallow_bumps@.insert(0, (x, y)),
            final(self).shallow_line == spec_shallow_reanchor(
                (Line { xi: old(self).shallow_line.xi, yi: old(self).shallow_line.yi, xf: x, yf: y }),
                old(self).steep_bumps@,
                old(self).steep_bumps@.len(),
            ),
            final(self).shallow_line.xf == x,
            final(self).shallow_line.yf == y,
    {
        self.shallow_line.xf = x;
        self.shallow_line.yf = y;
        self.shallow_bumps.insert(0, (x, y));
        let ghost aimed = self.shallow_line;
        let mut i: usize = 0;
        while i < self.steep_bumps.len()
            invariant
                self.bounded(32767),
                i <= self.steep_bumps@.len(),
                self.steep_line == old(self).steep_line,
                self.steep_bumps@ == old(self).steep_bumps@,
                self.shallow_bumps@ == old(self).shallow_bumps@.insert(0, (x, y)),
                self.shallow_line == spec_shallow_reanchor(aimed, self.steep_bumps@, i as nat),
                aimed == (Line {
                    xi: old(self).shallow_line.xi,
                    yi: old(self).shallow_line.yi,
                    xf: x,
                    yf: y,
                }),
                self.shallow_line.xf == x,
                self.shallow_line.yf == y,
            decreases self.steep_bumps@.len() - i,
        {
            let bump = self.steep_bumps[i];
            proof {
                lemma_bounded_slope_ok(self.shallow_line, 32767, bump.0 as int, bump.1 as int);
            }
            if self.shallow_line.above_p(bump.0, bump.1) {
                self.shallow_line.xi = bump.0;
                self.shallow_line.yi = bump.1;
            }
            i = i + 1;
        }
    }

    /// Clips the steep boundary at a newly hit corner, symmetrically to
    /// `add_shallow_bump`.
    pub fn add_steep_bump(&mut self, x: i32, y: i32)
        requires
            old(self).bounded(32767),
            0 <= x <= 32767,
            0 <= y <= 32767,
        ensures
            final(self).bounded(32767),
            final(self).shallow_line == old(self).shallow_line,
            final(self).shallow_bumps@ == old(self).shallow_bumps@,
            final(self).steep_bumps@ == old(self).steep_bumps@.insert(0, (x, y)),
            final(self).steep_line == spec_steep_reanchor(
                (Line { xi: old(self).steep_line.xi, yi: old(self).steep_line.yi, xf: x, yf: y }),
                old(self).shallow_bumps@,
                old(self).shallow_bumps@.len(),
            ),
            final(self).steep_line.xf == x,
            final(self).steep_line.yf == y,
    {
        self.steep_line.xf = x;
        self.steep_line.yf = y;
        self.steep_bumps.insert(0, (x, y));
        let ghost aimed = self.steep_line;
        let mut i: usize = 0;
        while i < self.shallow_bumps.len()
            invariant
                self.bounded(32767),
                i <= self.shallow_bumps@.len(),
                self.shallow_line == old(self).shallow_line,
                self.shallow_bumps@ == old(self).shallow_bumps@,
                self.steep_bumps@ == old(self).steep_bumps@.insert(0, (x, y)),
                self.steep_line == spec_steep_reanchor(aimed, self.shallow_bumps@, i as nat),
                aimed == (Line {
                    xi: old(self).steep_line.xi,
                    yi: old(self).steep_line.yi,
                    xf: x,
                    yf: y,
                }),
                self.steep_line.xf == x,
                self.steep_line.yf == y,
            decreases self.shallow_bumps@.len() - i,
        {
            let bump = self.shallow_bumps[i];
            proof {
                lemma_bounded_slope_ok(self.steep_line, 32767, bump.0 as int, bump.1 as int);
            }
            if self.steep_line.below_p(bump.0, bump.1) {
                self.steep_line.xi = bump.0;
                self.steep_line.yi = bump.1;
            }
            i = i + 1;
        }
    }
}

/// A view has pinched shut: its two boundary lines are collinear with each
/// other, and their common line passes through one of the two corner unit
/// points.
pub open spec fn spec_view_dead(v: FovView) -> bool {
    &&& spec_relative_slope(v.shallow_line, v.steep_line.xi as int, v.steep_line.yi as int) == 0
    &&& spec_relative_slope(v.shallow_line, v.steep_line.xf as int, v.steep_line.yf as int) == 0
    &&& (spec_relative_slope(v.shallow_line, 0, 1) == 0 || spec_relative_slope(
        v.shallow_line,
        1,
        0,
    ) == 0)
}

/// Drops the view at `view_index` exactly when it has pinched shut, leaving
/// the worklist untouched otherwise.
fn check_view(active_views: &mut Vec<FovView>, view_index: usize)
    requires
        view_index < old(active_views)@.len(),
        forall|i: int|
            0 <= i < old(active_views)@.len() ==> (#[trigger] old(active_views)@[i]).bounded(32767),
    ensures
        forall|i: int|
            0 <= i < final(active_views)@.len() ==> (#[trigger] final(active_views)@[i]).bounded(
                32767,
            ),
        final(active_views)@ == (if spec_view_dead(old(active_views)@[view_index as int]) {
            old(active_views)@.remove(view_index as int)
        } else {
            old(active_views)@
        }),
{
    let shallow_line = active_views[view_index].shallow_line;
    let steep_line = active_views[view_index].steep_line;
    proof {
        lemma_bounded_slope_ok(shallow_line, 32767, steep_line.xi as int, steep_line.yi as int);
        lemma_bounded_slope_ok(shallow_line, 32767, steep_line.xf as int, steep_line.yf as int);
        lemma_bounded_slope_ok(shallow_line, 32767, 0, 1);
        lemma_bounded_slope_ok(shallow_line, 32767, 1, 0);
    }
    let view_is_dead = shallow_line.collinear_line(steep_line) && (shallow_line.collinear_p(0, 1)
        || shallow_line.collinear_p(1, 0));
    if view_is_dead {
        active_views.remove(view_index);
        proof {
            old(active_views)@.remove_ensures(view_index as int);
            assert forall|i: int|
                0 <= i < active_views@.len() implies (#[trigger] active_views@[i]).bounded(32767) by {
                if i < view_index {
                    assert(active_views@[i] == old(active_views)@[i]);
                } else {
                    assert(active_views@[i] == old(active_views)@[i + 1]);
                }
            }
        }
    }
}

/// No coordinate pair occurs twice.
pub open spec fn spec_distinct_pts(s: Seq<(i32, i32)>) -> bool {
    forall|i: int, j: int| 0 <= i < j < s.len() ==> s[i] != s[j]
}

/// `post` keeps `pre` as a prefix and appends only cells within the box of
/// half-widths `ex`, `ey` around `(sx, sy)`.
pub open spec fn spec_extends(
    pre: Seq<(i32, i32)>,
    post: Seq<(i32, i32)>,
    sx: int,
    sy: int,
    ex: int,
    ey: int,
) -> bool {
    &&& pre.len() <= post.len()
    &&& forall|i: int| 0 <= i < pre.len() ==> post[i] == pre[i]
    &&& forall|i: int|
        pre.len() <= i < post.len() ==> sx - ex <= (#[trigger] post[i]).0 <= sx + ex && sy - ey
            <= post[i].1 <= sy + ey
}

proof fn lemma_extends_trans(
    a: Seq<(i32, i32)>,
    b: Seq<(i32, i32)>,
    c: Seq<(i32, i32)>,
    sx: int,
    sy: int,
    ex: int,
    ey: int,
)
    requires
        spec_extends(a, b, sx, sy, ex, ey),
        spec_extends(b, c, sx, sy, ex, ey),
    ensures
        spec_extends(a, c, sx, sy, ex, ey),
{
}

/// A cell already reported stays reported in any later extension.
proof fn lemma_extends_contains(
    pre: Seq<(i32, i32)>,
    post: Seq<(i32, i32)>,
    sx: int,
    sy: int,
    ex: int,
    ey: int,
    p: (i32, i32),
)
    requires
        spec_extends(pre, post, sx, sy, ex, ey),
        pre.contains(p),
    ensures
        post.contains(p),
{
    let i = choose|i: int| 0 <= i < pre.len() && pre[i] == p;
    assert(post[i] == p);
}

/// The first view of the worklist admits the cell at the given offsets: the
/// cell's lower-right corner is strictly above the view's steep line and
/// its upper-left corner is strictly below the view's shallow line.
pub open spec fn spec_first_view_admits(views: Seq<FovView>, ox: int, oy: int) -> bool {
    &&& views.len() > 0
    &&& spec_relative_slope(views[0].steep_line, ox + 1, oy) < 0
    &&& spec_relative_slope(views[0].shallow_line, ox, oy + 1) > 0
}

/// A vision predicate that can never answer "blocked".
pub open spec fn spec_never_blocks<VB: Fn(i32, i32) -> bool>(vb: VB) -> bool {
    forall|x: i32, y: i32, blocked: bool| #[trigger] call_ensures(vb, (x, y), blocked) ==> !blocked
}

/// The quadrant-local offsets a sweep of extents `ex`, `ey` passes over.
pub open spec fn spec_swept(ex: int, ey: int, ox: int, oy: int) -> bool {
    0 <= ox <= ex && 0 <= oy <= ey && 1 <= ox + oy
}

/// The freshly opened view of a quadrant admits every offset the sweep
/// passes over.
proof fn lemma_initial_view_admits(init: FovView, extent_x: i32, extent_y: i32, ox: int, oy: int)
    requires
        1 <= extent_x,
        1 <= extent_y,
        init.shallow_line == (Line { xi: 0, yi: 1, xf: extent_x, yf: 0 }),
        init.steep_line == (Line { xi: 1, yi: 0, xf: 0, yf: extent_y }),
        spec_swept(extent_x as int, extent_y as int, ox, oy),
    ensures
        spec_first_view_admits(seq![init], ox, oy),
{
    let ex = extent_x as int;
    let ey = extent_y as int;
    assert(spec_relative_slope(init.steep_line, ox + 1, oy) == ey * (0 - (ox + 1)) - (0 - 1) * (ey
        - oy));
    assert(ey * (0 - (ox + 1)) - (0 - 1) * (ey - oy) == -(ey * ox) - oy) by (nonlinear_arith);
    assert(-(ey * ox) - oy < 0) by (nonlinear_arith)
        requires
            0 <= ox,
            0 <= oy,
            1 <= ox + oy,
            1 <= ey,
    ;
    assert(spec_relative_slope(init.shallow_line, ox, oy + 1) == (0 - 1) * (ex - ox) - ex * (0 - (
    oy + 1)));
    assert((0 - 1) * (ex - ox) - ex * (0 - (oy + 1)) == ox + ex * oy) by (nonlinear_arith);
    assert(ox + ex * oy > 0) by (nonlinear_arith)
        requires
            0 <= ox,
            0 <= oy,
            1 <= ox + oy,
            1 <= ex,
    ;
    assert(seq![init][0] == init);
}

/// The worklist scan finds a view admitting the cell at the given offsets:
/// views whose steep line is at or below the cell's lower-right corner are
/// skipped; the first remaining view admits the cell unless its shallow
/// line is at or above the cell's upper-left corner.
pub open spec fn spec_scan_admits(views: Seq<FovView>, ox: int, oy: int) -> bool
    decreases views.len(),
{
    if views.len() == 0 {
        false
    } else if spec_relative_slope(views[0].steep_line, ox + 1, oy) >= 0 {
        spec_scan_admits(views.drop_first(), ox, oy)
    } else if spec_relative_slope(views[0].shallow_line, ox, oy + 1) <= 0 {
        false
    } else {
        true
    }
}

/// A quadrant's freshly opened view, not yet clipped by any bump: the
/// shallow line runs from (0,1) down to the x-extent, the steep line from
/// (1,0) up to the y-extent, and no bump is recorded yet.
pub open spec fn spec_unclipped_start_view(v: FovView) -> bool {
    &&& v.shallow_line.xi == 0 && v.shallow_line.yi == 1 && v.shallow_line.yf == 0
        && v.shallow_line.xf >= 1
    &&& v.steep_line.xi == 1 && v.steep_line.yi == 0 && v.steep_line.xf == 0 && v.steep_line.yf
        >= 1
    &&& v.shallow_bumps@.len() == 0
    &&& v.steep_bumps@.len() == 0
}

/// The slope values a freshly opened view takes at the corners of the
/// first two swept cells.
proof fn lemma_fresh_view_slopes(v: FovView)
    requires
        spec_unclipped_start_view(v),
    ensures
        spec_relative_slope(v.steep_line, 2, 0) == -(v.steep_line.yf as int),
        spec_relative_slope(v.steep_line, 1, 1) == -1,
        spec_relative_slope(v.steep_line, 3, 1) == -2 * (v.steep_line.yf as int) - 1,
        spec_relative_slope(v.shallow_line, 1, 1) == 1,
        spec_relative_slope(v.shallow_line, 0, 2) == v.shallow_line.xf as int,
        spec_relative_slope(v.shallow_line, 1, 0) == 1 - v.shallow_line.xf,
        spec_relative_slope(v.shallow_line, 2, 0) == 2 - v.shallow_line.xf,
{
    assert(spec_relative_slope(v.steep_line, 3, 1) == -2 * (v.steep_line.yf as int) - 1)
        by (nonlinear_arith)
        requires
            v.steep_line.xi == 1 && v.steep_line.yi == 0 && v.steep_line.xf == 0,
    ;
}

/// The slope values of a shallow line clipped to the first swept cell's
/// upper-left corner.
proof fn lemma_bumped_shallow_slopes(l: Line)
    requires
        l == (Line { xi: 0, yi: 1, xf: 1, yf: 1 }),
    ensures
        spec_relative_slope(l, 1, 0) == -1,
        spec_relative_slope(l, 0, 2) == 1,
        spec_relative_slope(l, 2, 2) == 1,
{
    assert(spec_relative_slope(l, 1, 0) == -1 && spec_relative_slope(l, 0, 2) == 1
        && spec_relative_slope(l, 2, 2) == 1) by (nonlinear_arith)
        requires
            l == (Line { xi: 0, yi: 1, xf: 1, yf: 1 }),
    ;
}

/// The slope value of a steep line clipped to the first swept cell's
/// lower-right corner.
proof fn lemma_bumped_steep_slopes(l: Line)
    requires
        l == (Line { xi: 1, yi: 0, xf: 2, yf: 0 }),
    ensures
        spec_relative_slope(l, 1, 1) == 1,
{
    assert(spec_relative_slope(l, 1, 1) == 1) by (nonlinear_arith)
        requires
            l == (Line { xi: 1, yi: 0, xf: 2, yf: 0 }),
    ;
}

/// After the first swept cell clips a view's shallow line to its upper-left
/// corner, every farther cell of the bottom row fails the shallow test
/// while still passing the steep test of the unclipped steep line.
proof fn lemma_east_clip_blocks_row(clipped: Line, steep0: Line, k: int)
    requires
        clipped == (Line { xi: 0, yi: 1, xf: 1, yf: 1 }),
        steep0.xi == 1 && steep0.yi == 0 && steep0.xf == 0 && steep0.yf >= 1,
        k >= 2,
    ensures
        spec_relative_slope(steep0, k + 1, 0) < 0,
        spec_relative_slope(clipped, k, 1) == 0,
{
    assert(spec_relative_slope(steep0, k + 1, 0) == -(steep0.yf as int) * k) by (nonlinear_arith)
        requires
            steep0.xi == 1 && steep0.yi == 0 && steep0.xf == 0,
    ;
    assert(-(steep0.yf as int) * k < 0) by (nonlinear_arith)
        requires
            steep0.yf >= 1,
            k >= 2,
    ;
    assert(spec_relative_slope(clipped, k, 1) == 0) by (nonlinear_arith)
        requires
            clipped == (Line { xi: 0, yi: 1, xf: 1, yf: 1 }),
    ;
}

/// A steep line clipped to the first swept cell's lower-right corner lies
/// at or below the lower-right corner of every farther bottom-row cell.
proof fn lemma_near_clip_skips_row(clipped: Line, k: int)
    requires
        clipped == (Line { xi: 1, yi: 0, xf: 2, yf: 0 }),
        k >= 2,
    ensures
        spec_relative_slope(clipped, k + 1, 0) == 0,
{
    assert(spec_relative_slope(clipped, k + 1, 0) == 0) by (nonlinear_arith)
        requires
            clipped == (Line { xi: 1, yi: 0, xf: 2, yf: 0 }),
            k >= 2,
    ;
}

/// The absolute cell a quadrant-local offset lands on.
pub open spec fn spec_target(sx: i32, sy: i32, dx: i32, dy: i32, ox: i32, oy: i32) -> (i32, i32) {
    (
        if dx == 1 {
            (sx + ox) as i32
        } else {
            (sx - ox) as i32
        },
        if dy == 1 {
            (sy + oy) as i32
        } else {
            (sy - oy) as i32
        },
    )
}

/// All views of a worklist stay bounded when one is inserted.
proof fn lemma_views_insert(s: Seq<FovView>, i: int, v: FovView, b: int)
    requires
        0 <= i <= s.len(),
        forall|j: int| 0 <= j < s.len() ==> (#[trigger] s[j]).bounded(32767),
        v.bounded(32767),
    ensures
        forall|j: int| 0 <= j < s.insert(i, v).len() ==> (#[trigger] s.insert(i, v)[j]).bounded(32767),
{
    let t = s.insert(i, v);
    assert forall|j: int| 0 <= j < t.len() implies (#[trigger] t[j]).bounded(32767) by {
        if j < i {
            assert(t[j] == s[j]);
        } else if j == i {
            assert(t[j] == v);
        } else {
            assert(t[j] == s[j - 1]);
        }
    }
}

/// All views of a worklist stay bounded when one is removed.
proof fn lemma_views_remove(s: Seq<FovView>, i: int, b: int)
    requires
        0 <= i < s.len(),
        forall|j: int| 0 <= j < s.len() ==> (#[trigger] s[j]).bounded(32767),
    ensures
        forall|j: int| 0 <= j < s.remove(i).len() ==> (#[trigger] s.remove(i)[j]).bounded(32767),
{
    s.remove_ensures(i);
    let t = s.remove(i);
    assert forall|j: int| 0 <= j < t.len() implies (#[trigger] t[j]).bounded(32767) by {
        if j < i {
            assert(t[j] == s[j]);
        } else {
            assert(t[j] == s[j + 1]);
        }
    }
}

/// Whether the list already holds the given cell.
fn contains_pt(v: &Vec<(i32, i32)>, p: (i32, i32)) -> (r: bool)
    ensures
        r == v@.contains(p),
{
    let mut i: usize = 0;
    while i < v.len()
        invariant
            i <= v@.len(),
            forall|j: int| 0 <= j < i ==> v@[j] != p,
        decreases v@.len() - i,
    {
        if v[i].0 == p.0 && v[i].1 == p.1 {
            return true;
        }
        i = i + 1;
    }
    false
}

/// Resolves one candidate cell of a quadrant sweep against the worklist of
/// active views: finds the view the cell falls into (if any), reports the
/// cell once, and on an opaque cell clips, splits or kills that view.
#[verifier::rlimit(100)]
#[verifier::spinoff_prover]
fn visit_coord<VB: Fn(i32, i32) -> bool>(
    visited: &mut Vec<(i32, i32)>,
    start_x: i32,
    start_y: i32,
    dir_x: i32,
    dir_y: i32,
    vision_blocked: &VB,
    offset_x: i32,
    offset_y: i32,
    active_views: &mut Vec<FovView>,
    Ghost(ex): Ghost<int>,
    Ghost(ey): Ghost<int>,
)
    requires
        dir_x == -1 || dir_x == 1,
        dir_y == -1 || dir_y == 1,
        0 <= offset_x <= ex,
        0 <= offset_y <= ey,
        ex <= 32766,
        ey <= 32766,
        i32::MIN <= start_x - ex,
        start_x + ex <= i32::MAX,
        i32::MIN <= start_y - ey,
        start_y + ey <= i32::MAX,
        forall|x: i32, y: i32| #[trigger] call_requires(*vision_blocked, (x, y)),
        spec_distinct_pts(old(visited)@),
        forall|i: int|
            0 <= i < old(active_views)@.len() ==> (#[trigger] old(active_views)@[i]).bounded(32767),
    ensures
        forall|i: int|
            0 <= i < final(active_views)@.len() ==> (#[trigger] final(active_views)@[i]).bounded(
                32767,
            ),
        spec_distinct_pts(final(visited)@),
        spec_extends(old(visited)@, final(visited)@, start_x as int, start_y as int, ex, ey),
        spec_first_view_admits(old(active_views)@, offset_x as int, offset_y as int)
            ==> final(visited)@.contains(
            spec_target(start_x, start_y, dir_x, dir_y, offset_x, offset_y),
        ),
        spec_never_blocks(*vision_blocked) ==> final(active_views)@ == old(active_views)@,
        (old(active_views)@.len() == 1 && spec_unclipped_start_view(old(active_views)@[0])
            && offset_x == 1 && offset_y == 0) ==> spec_scan_admits(final(active_views)@, 0, 1),
        spec_scan_admits(old(active_views)@, offset_x as int, offset_y as int)
            ==> final(visited)@.contains(
            spec_target(start_x, start_y, dir_x, dir_y, offset_x, offset_y),
        ),
        final(visited)@ == old(visited)@ || final(visited)@ == old(visited)@.push(
            spec_target(start_x, start_y, dir_x, dir_y, offset_x, offset_y),
        ),
        !spec_scan_admits(old(active_views)@, offset_x as int, offset_y as int)
            ==> final(visited)@ == old(visited)@,
        (forall|bl: bool|
            call_ensures(
                *vision_blocked,
                spec_target(start_x, start_y, dir_x, dir_y, offset_x, offset_y),
                bl,
            ) ==> !bl) ==> final(active_views)@ == old(active_views)@,
        (old(active_views)@.len() == 1 && spec_unclipped_start_view(old(active_views)@[0])
            && offset_x == 1 && offset_y == 0 && (forall|bl: bool|
            call_ensures(
                *vision_blocked,
                spec_target(start_x, start_y, dir_x, dir_y, offset_x, offset_y),
                bl,
            ) ==> bl)) ==> ((forall|k: int|
            k >= 2 ==> !spec_scan_admits(final(active_views)@, k, 0)) && spec_scan_admits(
            final(active_views)@,
            2,
            1,
        )),
{
    let top_left = (offset_x, offset_y + 1);
    let bottom_right = (offset_x + 1, offset_y);
    let ghost fresh_start = old(active_views)@.len() == 1 && spec_unclipped_start_view(
        old(active_views)@[0],
    ) && offset_x == 1 && offset_y == 0;
    proof {
        if fresh_start {
            let v = old(active_views)@[0];
            lemma_fresh_view_slopes(v);
            assert(spec_first_view_admits(old(active_views)@, offset_x as int, offset_y as int));
        }
        assert(old(active_views)@.skip(0) =~= old(active_views)@);
    }
    let mut view_index: usize = 0;
    loop
        invariant
            view_index <= active_views@.len(),
            0 <= offset_x <= 32766,
            0 <= offset_y <= 32766,
            top_left.0 == offset_x && top_left.1 == offset_y + 1,
            bottom_right.0 == offset_x + 1 && bottom_right.1 == offset_y,
            forall|i: int|
                0 <= i < active_views@.len() ==> (#[trigger] active_views@[i]).bounded(32767),
            active_views@ == old(active_views)@,
            visited@ == old(visited)@,
            spec_distinct_pts(visited@),
            spec_first_view_admits(old(active_views)@, offset_x as int, offset_y as int)
                ==> view_index == 0,
            fresh_start == (old(active_views)@.len() == 1 && spec_unclipped_start_view(
                old(active_views)@[0],
            ) && offset_x == 1 && offset_y == 0),
            fresh_start ==> spec_first_view_admits(
                old(active_views)@,
                offset_x as int,
                offset_y as int,
            ),
            spec_scan_admits(old(active_views)@, offset_x as int, offset_y as int)
                == spec_scan_admits(
                old(active_views)@.skip(view_index as int),
                offset_x as int,
                offset_y as int,
            ),
        ensures
            view_index < active_views@.len(),
            active_views@ == old(active_views)@,
            visited@ == old(visited)@,
            spec_first_view_admits(old(active_views)@, offset_x as int, offset_y as int)
                ==> view_index == 0,
            fresh_start ==> view_index == 0,
            spec_scan_admits(old(active_views)@, offset_x as int, offset_y as int),
        decreases active_views@.len() - view_index,
    {
        if view_index == active_views.len() {
            proof {
                assert(!spec_first_view_admits(
                    old(active_views)@,
                    offset_x as int,
                    offset_y as int,
                ));
                assert(old(active_views)@.skip(view_index as int).len() == 0);
                assert(!spec_scan_admits(old(active_views)@, offset_x as int, offset_y as int));
            }
            return ;
        }
        let steep = active_views[view_index].steep_line;
        proof {
            lemma_bounded_slope_ok(steep, 32767, bottom_right.0 as int, bottom_right.1 as int);
        }
        if steep.below_or_collinear_p(bottom_right.0, bottom_right.1) {
            proof {
                let rest = old(active_views)@.skip(view_index as int);
                assert(rest[0] == old(active_views)@[view_index as int]);
                assert(rest.drop_first() =~= old(active_views)@.skip(view_index + 1));
            }
            view_index = view_index + 1;
        } else {
            let shallow = active_views[view_index].shallow_line;
            proof {
                lemma_bounded_slope_ok(shallow, 32767, top_left.0 as int, top_left.1 as int);
            }
            if shallow.above_or_collinear_p(top_left.0, top_left.1) {
                proof {
                    assert(!spec_first_view_admits(
                        old(active_views)@,
                        offset_x as int,
                        offset_y as int,
                    ));
                    let rest = old(active_views)@.skip(view_index as int);
                    assert(rest[0] == old(active_views)@[view_index as int]);
                    assert(!spec_scan_admits(rest, offset_x as int, offset_y as int));
                }
                return ;
            }
            proof {
                let rest = old(active_views)@.skip(view_index as int);
                assert(rest[0] == old(active_views)@[view_index as int]);
                assert(spec_scan_admits(rest, offset_x as int, offset_y as int));
            }
            break ;
        }
    }

    let tx = if dir_x == 1 {
        start_x + offset_x
    } else {
        start_x - offset_x
    };
    let ty = if dir_y == 1 {
        start_y + offset_y
    } else {
        start_y - offset_y
    };
    let target = (tx, ty);
    proof {
        assert(target == spec_target(start_x, start_y, dir_x, dir_y, offset_x, offset_y));
    }
    if !contains_pt(visited, target) {
        visited.push(target);
        proof {
            assert(visited@[visited@.len() - 1] == target);
            assert(visited@.contains(target));
            assert forall|i: int, j: int|
                0 <= i < j < visited@.len() implies visited@[i] != visited@[j] by {
                if j == visited@.len() - 1 {
                    assert(!old(visited)@.contains(target));
                    assert(visited@[i] == old(visited)@[i]);
                }
            }
        }
    }
    assert(visited@.contains(target));

    let blocked_here = (*vision_blocked)(target.0, target.1);
    if blocked_here {
        proof {
            assert(call_ensures(*vision_blocked, (target.0, target.1), true));
        }
        let ghost views0 = active_views@;
        let shallow = active_views[view_index].shallow_line;
        let steep = active_views[view_index].steep_line;
        proof {
            lemma_bounded_slope_ok(shallow, 32767, bottom_right.0 as int, bottom_right.1 as int);
            lemma_bounded_slope_ok(steep, 32767, top_left.0 as int, top_left.1 as int);
        }
        let shallow_hits = shallow.above_p(bottom_right.0, bottom_right.1);
        let steep_hits = steep.below_p(top_left.0, top_left.1);
        if shallow_hits && steep_hits {
            // Both boundary lines meet the opaque cell: the view is dead.
            proof {
                if fresh_start {
                    lemma_fresh_view_slopes(old(active_views)@[0]);
                    assert(false);
                }
            }
            active_views.remove(view_index);
            proof {
                lemma_views_remove(views0, view_index as int, 32767);
            }
        } else if shallow_hits {
            // Only the shallow line meets the cell: clip it upward.
            let mut v = active_views.remove(view_index);
            proof {
                lemma_views_remove(views0, view_index as int, 32767);
                views0.remove_ensures(view_index as int);
            }
            v.add_shallow_bump(top_left.0, top_left.1);
            proof {
                lemma_views_insert(active_views@, view_index as int, v, 32767);
            }
            active_views.insert(view_index, v);
            proof {
                if fresh_start {
                    assert(active_views@ =~= seq![v]);
                    assert(v.shallow_line == (Line { xi: 0, yi: 1, xf: 1, yf: 1 }));
                    lemma_bumped_shallow_slopes(v.shallow_line);
                    lemma_fresh_view_slopes(old(active_views)@[0]);
                    assert(!spec_view_dead(v));
                }
            }
            check_view(active_views, view_index);
            proof {
                if fresh_start {
                    assert(active_views@ =~= seq![v]);
                    lemma_bumped_shallow_slopes(v.shallow_line);
                    lemma_fresh_view_slopes(old(active_views)@[0]);
                    assert(spec_scan_admits(active_views@, 0, 1));
                    assert forall|k: int| k >= 2 implies !spec_scan_admits(
                        active_views@,
                        k,
                        0,
                    ) by {
                        lemma_east_clip_blocks_row(v.shallow_line, v.steep_line, k);
                    }
                    assert(spec_scan_admits(active_views@, 2, 1));
                }
            }
        } else if steep_hits {
            // Only the steep line meets the cell: clip it downward.
            proof {
                if fresh_start {
                    lemma_fresh_view_slopes(old(active_views)@[0]);
                    assert(false);
                }
            }
            let mut v = active_views.remove(view_index);
            proof {
                lemma_views_remove(views0, view_index as int, 32767);
                views0.remove_ensures(view_index as int);
            }
            v.add_steep_bump(bottom_right.0, bottom_right.1);
            proof {
                lemma_views_insert(active_views@, view_index as int, v, 32767);
            }
            active_views.insert(view_index, v);
            check_view(active_views, view_index);
        } else {
            // The cell blocks the middle of the view: split it. The farther
            // half takes the shallow bump first, so that a collapse there
            // leaves the nearer half's index unchanged.
            let near = active_views[view_index].duplicate();
            proof {
                lemma_views_insert(active_views@, view_index as int, near, 32767);
            }
            active_views.insert(view_index, near);
            let ghost views1 = active_views@;
            let n_after_insert = active_views.len();
            assert(view_index + 1 < n_after_insert);
            let mut farv = active_views.remove(view_index + 1);
            proof {
                lemma_views_remove(views1, view_index + 1, 32767);
                views1.remove_ensures(view_index + 1);
            }
            farv.add_shallow_bump(top_left.0, top_left.1);
            proof {
                lemma_views_insert(active_views@, view_index + 1, farv, 32767);
            }
            active_views.insert(view_index + 1, farv);
            check_view(active_views, view_index + 1);
            let ghost views2 = active_views@;
            let mut nearv = active_views.remove(view_index);
            proof {
                lemma_views_remove(views2, view_index as int, 32767);
                views2.remove_ensures(view_index as int);
            }
            nearv.add_steep_bump(bottom_right.0, bottom_right.1);
            proof {
                lemma_views_insert(active_views@, view_index as int, nearv, 32767);
            }
            active_views.insert(view_index, nearv);
            proof {
                if fresh_start {
                    assert(active_views@ =~= seq![nearv, farv]);
                    assert(nearv.steep_line == (Line { xi: 1, yi: 0, xf: 2, yf: 0 }));
                    lemma_fresh_view_slopes(old(active_views)@[0]);
                    assert(nearv.shallow_line == old(active_views)@[0].shallow_line);
                    assert(!spec_view_dead(nearv));
                }
            }
            check_view(active_views, view_index);
            proof {
                if fresh_start {
                    assert(active_views@ =~= seq![nearv, farv]);
                    lemma_bumped_steep_slopes(nearv.steep_line);
                    assert(farv.shallow_line == (Line { xi: 0, yi: 1, xf: 1, yf: 1 }));
                    lemma_bumped_shallow_slopes(farv.shallow_line);
                    lemma_fresh_view_slopes(old(active_views)@[0]);
                    assert(farv.steep_line == old(active_views)@[0].steep_line);
                    assert(active_views@.drop_first() =~= seq![farv]);
                    assert(spec_scan_admits(active_views@.drop_first(), 0, 1));
                    assert(spec_scan_admits(active_views@, 0, 1));
                    assert forall|k: int| k >= 2 implies !spec_scan_admits(
                        active_views@,
                        k,
                        0,
                    ) by {
                        lemma_near_clip_skips_row(nearv.steep_line, k);
                        lemma_east_clip_blocks_row(farv.shallow_line, farv.steep_line, k);
                        assert(!spec_scan_admits(active_views@.drop_first(), k, 0));
                    }
                    lemma_bumped_steep_slopes(nearv.steep_line);
                    assert(spec_scan_admits(active_views@.drop_first(), 2, 1));
                    assert(spec_scan_admits(active_views@, 2, 1));
                }
            }
        }
    } else {
        proof {
            if fresh_start {
                let v = old(active_views)@[0];
                assert(active_views@ == old(active_views)@);
                lemma_fresh_view_slopes(v);
                assert(spec_scan_admits(active_views@, 0, 1));
            }
        }
    }
}

/// Sweeps one quadrant in increasing diagonal-shell order, so that nearer
/// cells always clip the views before farther cells consult them.
#[verifier::spinoff_prover]
fn check_quadrant<VB: Fn(i32, i32) -> bool>(
    visited: &mut Vec<(i32, i32)>,
    start_x: i32,
    start_y: i32,
    dir_x: i32,
    dir_y: i32,
    extent_x: i32,
    extent_y: i32,
    vision_blocked: &VB,
)
    requires
        dir_x == -1 || dir_x == 1,
        dir_y == -1 || dir_y == 1,
        1 <= extent_x <= 32766,
        1 <= extent_y <= 32766,
        i32::MIN <= start_x - extent_x,
        start_x + extent_x <= i32::MAX,
        i32::MIN <= start_y - extent_y,
        start_y + extent_y <= i32::MAX,
        forall|x: i32, y: i32| #[trigger] call_requires(*vision_blocked, (x, y)),
        spec_distinct_pts(old(visited)@),
    ensures
        spec_distinct_pts(final(visited)@),
        spec_extends(
            old(visited)@,
            final(visited)@,
            start_x as int,
            start_y as int,
            extent_x as int,
            extent_y as int,
        ),
        final(visited)@.contains(spec_target(start_x, start_y, dir_x, dir_y, 1, 0)),
        final(visited)@.contains(spec_target(start_x, start_y, dir_x, dir_y, 0, 1)),
        forall|i: int|
            old(visited)@.len() <= i < final(visited)@.len() ==> ((dir_x == 1 ==> (
            #[trigger] final(visited)@[i]).0 >= start_x) && (dir_x == -1
                ==> final(visited)@[i].0 <= start_x)),
        ((forall|bl: bool|
            call_ensures(*vision_blocked, spec_target(start_x, start_y, dir_x, dir_y, 1, 0), bl)
                ==> bl) && (forall|c: (i32, i32), bl: bool|
            c != spec_target(start_x, start_y, dir_x, dir_y, 1, 0) && call_ensures(
                *vision_blocked,
                c,
                bl,
            ) ==> !bl)) ==> ((forall|k: int|
            2 <= k <= extent_x && !old(visited)@.contains(
                #[trigger] spec_target(start_x, start_y, dir_x, dir_y, k as i32, 0),
            ) ==> !final(visited)@.contains(
                spec_target(start_x, start_y, dir_x, dir_y, k as i32, 0),
            )) && (extent_x >= 2 ==> final(visited)@.contains(
            spec_target(start_x, start_y, dir_x, dir_y, 2, 1),
        ))),
        spec_never_blocks(*vision_blocked) ==> forall|ox: int, oy: int|
            spec_swept(extent_x as int, extent_y as int, ox, oy) ==> final(visited)@.contains(
                #[trigger] spec_target(start_x, start_y, dir_x, dir_y, ox as i32, oy as i32),
            ),
{
    let ghost v0 = visited@;
    let ghost t10 = spec_target(start_x, start_y, dir_x, dir_y, 1, 0);
    let ghost t01 = spec_target(start_x, start_y, dir_x, dir_y, 0, 1);
    let ghost t21 = spec_target(start_x, start_y, dir_x, dir_y, 2, 1);
    let ghost east_wall = (forall|bl: bool|
        call_ensures(*vision_blocked, t10, bl) ==> bl) && (forall|c: (i32, i32), bl: bool|
        c != t10 && call_ensures(*vision_blocked, c, bl) ==> !bl);
    let shallow_line = Line::new(0, 1, extent_x, 0);
    let steep_line = Line::new(1, 0, 0, extent_y);
    let the_view = FovView::new(shallow_line, steep_line);
    let ghost init_view = the_view;
    let mut active_views: Vec<FovView> = Vec::new();
    active_views.push(the_view);
    proof {
        // The very first swept cell, the one at offset (1, 0), is admitted
        // by the freshly opened view.
        let st = init_view.steep_line;
        let sh = init_view.shallow_line;
        assert(st.xi == 1 && st.yi == 0 && st.xf == 0 && st.yf == extent_y);
        assert(sh.xi == 0 && sh.yi == 1 && sh.xf == extent_x && sh.yf == 0);
        let ey = extent_y as int;
        let ex = extent_x as int;
        assert(spec_relative_slope(st, 2, 0) == ey * (0 - 2) - (0 - 1) * ey);
        assert(ey * (0 - 2) - (0 - 1) * ey == -ey) by (nonlinear_arith);
        assert(spec_relative_slope(sh, 1, 1) == (0 - 1) * (ex - 1) - ex * (0 - 1));
        assert((0 - 1) * (ex - 1) - ex * (0 - 1) == 1) by (nonlinear_arith);
        assert(spec_first_view_admits(active_views@, 1, 0));
        assert(spec_unclipped_start_view(init_view));
    }
    let mut i: i32 = 1;
    while i <= extent_x + extent_y
        invariant
            v0 == old(visited)@,
            dir_x == -1 || dir_x == 1,
            dir_y == -1 || dir_y == 1,
            1 <= extent_x <= 32766,
            1 <= extent_y <= 32766,
            i32::MIN <= start_x - extent_x,
            start_x + extent_x <= i32::MAX,
            i32::MIN <= start_y - extent_y,
            start_y + extent_y <= i32::MAX,
            forall|x: i32, y: i32| #[trigger] call_requires(*vision_blocked, (x, y)),
            1 <= i <= extent_x + extent_y + 1,
            i == 1 ==> active_views@ =~= seq![init_view],
            i > 1 ==> visited@.contains(t10),
            i > 1 ==> visited@.contains(t01),
            t10 == spec_target(start_x, start_y, dir_x, dir_y, 1, 0),
            t01 == spec_target(start_x, start_y, dir_x, dir_y, 0, 1),
            spec_first_view_admits(seq![init_view], 1, 0),
            spec_unclipped_start_view(init_view),
            init_view.shallow_line == (Line { xi: 0, yi: 1, xf: extent_x, yf: 0 }),
            init_view.steep_line == (Line { xi: 1, yi: 0, xf: 0, yf: extent_y }),
            spec_never_blocks(*vision_blocked) ==> active_views@ =~= seq![init_view],
            spec_never_blocks(*vision_blocked) ==> forall|ox: int, oy: int|
                spec_swept(extent_x as int, extent_y as int, ox, oy) && ox + oy < i
                    ==> visited@.contains(
                    #[trigger] spec_target(start_x, start_y, dir_x, dir_y, ox as i32, oy as i32),
                ),
            east_wall == ((forall|bl: bool|
                call_ensures(*vision_blocked, t10, bl) ==> bl) && (forall|
                c: (i32, i32),
                bl: bool,
            |
                c != t10 && call_ensures(*vision_blocked, c, bl) ==> !bl)),
            (east_wall && i > 1) ==> forall|k: int|
                k >= 2 ==> !spec_scan_admits(active_views@, k, 0),
            (east_wall && i > 1) ==> spec_scan_admits(active_views@, 2, 1),
            (east_wall && extent_x >= 2 && i > 3) ==> visited@.contains(t21),
            t21 == spec_target(start_x, start_y, dir_x, dir_y, 2, 1),
            east_wall ==> forall|k: int|
                2 <= k <= extent_x && !v0.contains(
                    #[trigger] spec_target(start_x, start_y, dir_x, dir_y, k as i32, 0),
                ) ==> !visited@.contains(
                    spec_target(start_x, start_y, dir_x, dir_y, k as i32, 0),
                ),
            forall|idx: int|
                v0.len() <= idx < visited@.len() ==> ((dir_x == 1 ==> (
                #[trigger] visited@[idx]).0 >= start_x) && (dir_x == -1 ==> visited@[idx].0
                    <= start_x)),
            forall|k: int|
                0 <= k < active_views@.len() ==> (#[trigger] active_views@[k]).bounded(32767),
            spec_distinct_pts(visited@),
            spec_extends(
                v0,
                visited@,
                start_x as int,
                start_y as int,
                extent_x as int,
                extent_y as int,
            ),
        decreases extent_x + extent_y + 1 - i,
    {
        let jmin: i32 = if i - extent_x > 0 {
            i - extent_x
        } else {
            0
        };
        let jmax: i32 = if i < extent_y {
            i
        } else {
            extent_y
        };
        let mut j: i32 = jmin;
        while j <= jmax
            invariant
                v0 == old(visited)@,
                dir_x == -1 || dir_x == 1,
                dir_y == -1 || dir_y == 1,
                1 <= extent_x <= 32766,
                1 <= extent_y <= 32766,
                i32::MIN <= start_x - extent_x,
                start_x + extent_x <= i32::MAX,
                i32::MIN <= start_y - extent_y,
                start_y + extent_y <= i32::MAX,
                forall|x: i32, y: i32| #[trigger] call_requires(*vision_blocked, (x, y)),
                1 <= i <= extent_x + extent_y,
                (i == 1 && j == 0) ==> active_views@ =~= seq![init_view],
                (i > 1 || j > 0) ==> visited@.contains(t10),
                (i > 1 || j > 1) ==> visited@.contains(t01),
                (i == 1 && j == 1) ==> spec_scan_admits(active_views@, 0, 1),
                i == 1 ==> jmin == 0 && jmax == 1,
                t10 == spec_target(start_x, start_y, dir_x, dir_y, 1, 0),
                t01 == spec_target(start_x, start_y, dir_x, dir_y, 0, 1),
                spec_first_view_admits(seq![init_view], 1, 0),
                spec_unclipped_start_view(init_view),
                init_view.shallow_line == (Line { xi: 0, yi: 1, xf: extent_x, yf: 0 }),
                init_view.steep_line == (Line { xi: 1, yi: 0, xf: 0, yf: extent_y }),
                spec_never_blocks(*vision_blocked) ==> active_views@ =~= seq![init_view],
                spec_never_blocks(*vision_blocked) ==> forall|ox: int, oy: int|
                    spec_swept(extent_x as int, extent_y as int, ox, oy) && (ox + oy < i || (ox
                        + oy == i && oy < j)) ==> visited@.contains(
                        #[trigger] spec_target(
                            start_x,
                            start_y,
                            dir_x,
                            dir_y,
                            ox as i32,
                            oy as i32,
                        ),
                    ),
                east_wall == ((forall|bl: bool|
                    call_ensures(*vision_blocked, t10, bl) ==> bl) && (forall|
                    c: (i32, i32),
                    bl: bool,
                |
                    c != t10 && call_ensures(*vision_blocked, c, bl) ==> !bl)),
                (east_wall && ((i == 1 && j >= 1) || i > 1)) ==> forall|k: int|
                    k >= 2 ==> !spec_scan_admits(active_views@, k, 0),
                (east_wall && ((i == 1 && j >= 1) || i > 1)) ==> spec_scan_admits(
                    active_views@,
                    2,
                    1,
                ),
                (east_wall && extent_x >= 2 && (i > 3 || (i == 3 && j > 1))) ==> visited@.contains(
                    t21,
                ),
                t21 == spec_target(start_x, start_y, dir_x, dir_y, 2, 1),
                east_wall ==> forall|k: int|
                    2 <= k <= extent_x && !v0.contains(
                        #[trigger] spec_target(start_x, start_y, dir_x, dir_y, k as i32, 0),
                    ) ==> !visited@.contains(
                        spec_target(start_x, start_y, dir_x, dir_y, k as i32, 0),
                    ),
                forall|idx: int|
                    v0.len() <= idx < visited@.len() ==> ((dir_x == 1 ==> (
                    #[trigger] visited@[idx]).0 >= start_x) && (dir_x == -1 ==> visited@[idx].0
                        <= start_x)),
                jmin <= j <= jmax + 1,
                jmin == (if i - extent_x > 0 {
                    i - extent_x
                } else {
                    0
                }),
                jmax == (if i < extent_y {
                    i
                } else {
                    extent_y
                }),
                forall|k: int|
                    0 <= k < active_views@.len() ==> (#[trigger] active_views@[k]).bounded(32767),
                spec_distinct_pts(visited@),
                spec_extends(
                    v0,
                    visited@,
                    start_x as int,
                    start_y as int,
                    extent_x as int,
                    extent_y as int,
                ),
            decreases jmax + 1 - j,
        {
            if active_views.len() == 0 {
                proof {
                    if i == 1 && j == 0 {
                        assert(false);
                    }
                    if i == 1 && j == 1 {
                        assert(false);
                    }
                    if east_wall && extent_x >= 2 && (i < 3 || (i == 3 && j <= 1)) {
                        assert(spec_scan_admits(active_views@, 2, 1));
                        assert(false);
                    }
                }
                return ;
            }
            let offset_x = i - j;
            let offset_y = j;
            let ghost v_pre = visited@;
            let ghost v_views = active_views@;
            visit_coord(
                visited,
                start_x,
                start_y,
                dir_x,
                dir_y,
                vision_blocked,
                offset_x,
                offset_y,
                &mut active_views,
                Ghost(extent_x as int),
                Ghost(extent_y as int),
            );
            proof {
                lemma_extends_trans(
                    v0,
                    v_pre,
                    visited@,
                    start_x as int,
                    start_y as int,
                    extent_x as int,
                    extent_y as int,
                );
                if i == 1 && j == 0 {
                    assert(offset_x == 1 && offset_y == 0);
                    assert(visited@.contains(t10));
                    assert(v_views.len() == 1 && spec_unclipped_start_view(v_views[0]));
                    assert(spec_scan_admits(active_views@, 0, 1));
                }
                if i == 1 && j == 1 {
                    assert(offset_x == 0 && offset_y == 1);
                    assert(visited@.contains(t01));
                }
                assert forall|idx: int|
                    v0.len() <= idx < visited@.len() implies ((dir_x == 1 ==> (
                #[trigger] visited@[idx]).0 >= start_x) && (dir_x == -1 ==> visited@[idx].0
                    <= start_x)) by {
                    if idx < v_pre.len() {
                        assert(visited@[idx] == v_pre[idx]);
                    } else {
                        assert(visited@[idx] == spec_target(
                            start_x,
                            start_y,
                            dir_x,
                            dir_y,
                            offset_x,
                            offset_y,
                        ));
                    }
                }
                if east_wall {
                    let tgt = spec_target(start_x, start_y, dir_x, dir_y, offset_x, offset_y);
                    if offset_x == 1 && offset_y == 0 {
                        assert(i == 1 && j == 0);
                        assert(forall|bl: bool| call_ensures(*vision_blocked, tgt, bl) ==> bl);
                        assert(forall|k: int|
                            k >= 2 ==> !spec_scan_admits(active_views@, k, 0));
                        assert(spec_scan_admits(active_views@, 2, 1));
                    } else {
                        assert(tgt != t10);
                        assert(forall|bl: bool| call_ensures(*vision_blocked, tgt, bl) ==> !bl);
                        assert(active_views@ == v_views);
                    }
                    if extent_x >= 2 && i == 3 && j == 1 {
                        assert(offset_x == 2 && offset_y == 1);
                        assert(spec_scan_admits(v_views, 2, 1));
                        assert(visited@.contains(t21));
                    }
                    assert forall|k: int|
                        2 <= k <= extent_x && !v0.contains(
                            #[trigger] spec_target(start_x, start_y, dir_x, dir_y, k as i32, 0),
                        ) implies !visited@.contains(
                        spec_target(start_x, start_y, dir_x, dir_y, k as i32, 0),
                    ) by {
                        let tk = spec_target(start_x, start_y, dir_x, dir_y, k as i32, 0);
                        assert(!v_pre.contains(tk));
                        if tgt == tk {
                            assert(offset_x == k && offset_y == 0);
                            assert(i == k && j == 0);
                            assert(!spec_scan_admits(v_views, k, 0));
                            assert(visited@ == v_pre);
                        } else {
                            if visited@ != v_pre {
                                assert(visited@ == v_pre.push(tgt));
                                if visited@.contains(tk) {
                                    let w = choose|w: int|
                                        0 <= w < visited@.len() && visited@[w] == tk;
                                    assert(w < v_pre.len() ==> v_pre[w] == tk);
                                }
                            }
                        }
                    }
                }
                if spec_never_blocks(*vision_blocked) {
                    lemma_initial_view_admits(
                        init_view,
                        extent_x,
                        extent_y,
                        offset_x as int,
                        offset_y as int,
                    );
                    assert(spec_first_view_admits(v_views, offset_x as int, offset_y as int));
                    assert(visited@.contains(
                        spec_target(start_x, start_y, dir_x, dir_y, offset_x, offset_y),
                    ));
                    assert forall|ox: int, oy: int|
                        spec_swept(extent_x as int, extent_y as int, ox, oy) && (ox + oy < i || (
                        ox + oy == i && oy < j + 1)) implies visited@.contains(
                        #[trigger] spec_target(
                            start_x,
                            start_y,
                            dir_x,
                            dir_y,
                            ox as i32,
                            oy as i32,
                        ),
                    ) by {
                        if ox + oy < i || (ox + oy == i && oy < j) {
                            lemma_extends_contains(
                                v_pre,
                                visited@,
                                start_x as int,
                                start_y as int,
                                extent_x as int,
                                extent_y as int,
                                spec_target(start_x, start_y, dir_x, dir_y, ox as i32, oy as i32),
                            );
                        } else {
                            assert(ox == offset_x as int && oy == offset_y as int);
                        }
                    }
                }
            }
            j = j + 1;
        }
        proof {
            if spec_never_blocks(*vision_blocked) {
                assert forall|ox: int, oy: int|
                    spec_swept(extent_x as int, extent_y as int, ox, oy) && ox + oy < i + 1
                        implies visited@.contains(
                    #[trigger] spec_target(start_x, start_y, dir_x, dir_y, ox as i32, oy as i32),
                ) by {
                    if ox + oy == i {
                        assert(oy <= jmax);
                    }
                }
            }
        }
        i = i + 1;
    }
}

/// Computes field of view according to the precise permissive technique.
///
/// Visits the origin first, then every cell out to the given radius in the
/// four swept quadrants that a view from the origin can reach, each cell
/// exactly once, in nearer-shells-first order. A cell is reported when some
/// surviving view contains it; opaque cells clip, split or kill views so
/// that cells behind them stay unreported, but the four cells orthogonally
/// adjacent to the origin are always reported. The returned list holds the
/// visited cells in visit order: the origin first, no duplicates, and
/// nothing outside the square of half-width `radius` around the origin;
/// when nothing at all is opaque, that whole square is reported.
#[verifier::spinoff_prover]
pub fn ppfov<VB: Fn(i32, i32) -> bool>(start: (i32, i32), radius: i32, vision_blocked: VB) -> (r:
    Vec<(i32, i32)>)
    requires
        0 <= radius <= 32766,
        start.0 + radius < i32::MAX,
        i32::MIN < start.0 - radius,
        start.1 + radius < i32::MAX,
        i32::MIN < start.1 - radius,
        forall|x: i32, y: i32| #[trigger] call_requires(vision_blocked, (x, y)),
    ensures
        r@.len() >= 1,
        r@[0] == start,
        spec_distinct_pts(r@),
        forall|i: int|
            0 <= i < r@.len() ==> start.0 - radius <= (#[trigger] r@[i]).0 <= start.0 + radius
                && start.1 - radius <= r@[i].1 <= start.1 + radius,
        radius >= 1 ==> r@.contains((((start.0 + 1) as i32), start.1)),
        radius >= 1 ==> r@.contains((((start.0 - 1) as i32), start.1)),
        radius >= 1 ==> r@.contains((start.0, ((start.1 + 1) as i32))),
        radius >= 1 ==> r@.contains((start.0, ((start.1 - 1) as i32))),
        spec_never_blocks(vision_blocked) ==> forall|x: i32, y: i32|
            start.0 - radius <= x <= start.0 + radius && start.1 - radius <= y <= start.1 + radius
                ==> #[trigger] r@.contains((x, y)),
        (radius >= 2 && (forall|bl: bool|
            #[trigger] call_ensures(vision_blocked, ((((start.0 + 1) as i32), start.1)), bl)
                ==> bl) && (forall|c: (i32, i32), bl: bool|
            c != (((start.0 + 1) as i32), start.1) && #[trigger] call_ensures(
                vision_blocked,
                c,
                bl,
            ) ==> !bl)) ==> forall|k: int|
            2 <= k <= radius ==> !(#[trigger] r@.contains((((start.0 + k) as i32), start.1))),
{
    let (start_x, start_y) = start;
    let mut visited: Vec<(i32, i32)> = Vec::new();
    visited.push((start_x, start_y));
    if radius == 0 {
        proof {
            assert(visited@[0] == (start_x, start_y));
            assert forall|x: i32, y: i32|
                start.0 - radius <= x <= start.0 + radius && start.1 - radius <= y <= start.1
                    + radius implies #[trigger] visited@.contains((x, y)) by {
                assert(x == start_x && y == start_y);
                assert(visited@[0] == (x, y));
            }
        }
        return visited;
    }
    let ghost v0 = visited@;
    check_quadrant(
        &mut visited,
        start_x,
        start_y,
        1,
        1,
        radius,
        radius,
        &vision_blocked,
    );
    let ghost v1 = visited@;
    check_quadrant(
        &mut visited,
        start_x,
        start_y,
        -1,
        1,
        radius,
        radius,
        &vision_blocked,
    );
    let ghost v2 = visited@;
    check_quadrant(
        &mut visited,
        start_x,
        start_y,
        -1,
        -1,
        radius,
        radius,
        &vision_blocked,
    );
    let ghost v3 = visited@;
    check_quadrant(
        &mut visited,
        start_x,
        start_y,
        1,
        -1,
        radius,
        radius,
        &vision_blocked,
    );
    proof {
        let sx = start_x as int;
        let sy = start_y as int;
        let e = radius as int;
        lemma_extends_trans(v0, v1, v2, sx, sy, e, e);
        lemma_extends_trans(v0, v2, v3, sx, sy, e, e);
        lemma_extends_trans(v0, v3, visited@, sx, sy, e, e);
        let east = spec_target(start_x, start_y, 1, 1, 1, 0);
        let west = spec_target(start_x, start_y, (-1) as i32, 1, 1, 0);
        let north = spec_target(start_x, start_y, 1, 1, 0, 1);
        let south = spec_target(start_x, start_y, 1, (-1) as i32, 0, 1);
        lemma_extends_contains(v1, v2, sx, sy, e, e, east);
        lemma_extends_contains(v2, v3, sx, sy, e, e, east);
        lemma_extends_contains(v3, visited@, sx, sy, e, e, east);
        lemma_extends_contains(v2, v3, sx, sy, e, e, west);
        lemma_extends_contains(v3, visited@, sx, sy, e, e, west);
        lemma_extends_contains(v1, v2, sx, sy, e, e, north);
        lemma_extends_contains(v2, v3, sx, sy, e, e, north);
        lemma_extends_contains(v3, visited@, sx, sy, e, e, north);
        assert(east == (((start.0 + 1) as i32), start.1));
        assert(west == (((start.0 - 1) as i32), start.1));
        assert(north == (start.0, ((start.1 + 1) as i32)));
        assert(south == (start.0, ((start.1 - 1) as i32)));
        if radius >= 2 && (forall|bl: bool|
            #[trigger] call_ensures(vision_blocked, ((((start.0 + 1) as i32), start.1)), bl)
                ==> bl) && (forall|c: (i32, i32), bl: bool|
            c != (((start.0 + 1) as i32), start.1) && #[trigger] call_ensures(
                vision_blocked,
                c,
                bl,
            ) ==> !bl) {
            assert(spec_target(start_x, start_y, 1, 1, 1, 0) == east);
            assert(spec_target(start_x, start_y, 1, (-1) as i32, 1, 0) == east);
            let upper = spec_target(start_x, start_y, 1, 1, 2, 1);
            let lower = spec_target(start_x, start_y, 1, (-1) as i32, 2, 1);
            assert(upper == (((start.0 + 2) as i32), ((start.1 + 1) as i32)));
            assert(lower == (((start.0 + 2) as i32), ((start.1 - 1) as i32)));
            lemma_extends_contains(v1, v2, sx, sy, e, e, upper);
            lemma_extends_contains(v2, v3, sx, sy, e, e, upper);
            lemma_extends_contains(v3, visited@, sx, sy, e, e, upper);
            assert(visited@.contains(lower));
            assert forall|k: int| 2 <= k <= radius implies !(#[trigger] visited@.contains(
                (((start.0 + k) as i32), start.1),
            )) by {
                let tk = (((start_x + k) as i32), start_y);
                assert(spec_target(start_x, start_y, 1, 1, k as i32, 0) == tk);
                assert(spec_target(start_x, start_y, 1, (-1) as i32, k as i32, 0) == tk);
                assert(!v0.contains(tk)) by {
                    assert(v0.len() == 1 && v0[0] == (start_x, start_y));
                }
                assert(!v1.contains(tk));
                assert(!v2.contains(tk)) by {
                    if v2.contains(tk) {
                        let w = choose|w: int| 0 <= w < v2.len() && v2[w] == tk;
                        if w < v1.len() {
                            assert(v1[w] == tk);
                        } else {
                            assert(v2[w].0 <= start_x);
                        }
                    }
                }
                assert(!v3.contains(tk)) by {
                    if v3.contains(tk) {
                        let w = choose|w: int| 0 <= w < v3.len() && v3[w] == tk;
                        if w < v2.len() {
                            assert(v2[w] == tk);
                        } else {
                            assert(v3[w].0 <= start_x);
                        }
                    }
                }
                assert(!visited@.contains(tk));
            }
        }
        if spec_never_blocks(vision_blocked) {
            assert forall|x: i32, y: i32|
                start.0 - radius <= x <= start.0 + radius && start.1 - radius <= y <= start.1
                    + radius implies #[trigger] visited@.contains((x, y)) by {
                if x == start_x && y == start_y {
                    assert(visited@[0] == (start_x, start_y));
                } else {
                    let ox = if x >= start_x {
                        x - start_x
                    } else {
                        start_x - x
                    };
                    let oy = if y >= start_y {
                        y - start_y
                    } else {
                        start_y - y
                    };
                    assert(spec_swept(e, e, ox, oy));
                    if x >= start_x && y >= start_y {
                        assert(spec_target(start_x, start_y, 1, 1, ox as i32, oy as i32) == (
                        x,
                        y,
                        ));
                        assert(v1.contains((x, y)));
                        lemma_extends_contains(v1, v2, sx, sy, e, e, (x, y));
                        lemma_extends_contains(v2, v3, sx, sy, e, e, (x, y));
                        lemma_extends_contains(v3, visited@, sx, sy, e, e, (x, y));
                    } else if x < start_x && y >= start_y {
                        assert(spec_target(
                            start_x,
                            start_y,
                            (-1) as i32,
                            1,
                            ox as i32,
                            oy as i32,
                        ) == (x, y));
                        assert(v2.contains((x, y)));
                        lemma_extends_contains(v2, v3, sx, sy, e, e, (x, y));
                        lemma_extends_contains(v3, visited@, sx, sy, e, e, (x, y));
                    } else if x < start_x && y < start_y {
                        assert(spec_target(
                            start_x,
                            start_y,
                            (-1) as i32,
                            (-1) as i32,
                            ox as i32,
                            oy as i32,
                        ) == (x, y));
                        assert(v3.contains((x, y)));
                        lemma_extends_contains(v3, visited@, sx, sy, e, e, (x, y));
                    } else {
                        assert(spec_target(
                            start_x,
                            start_y,
                            1,
                            (-1) as i32,
                            ox as i32,
                            oy as i32,
                        ) == (x, y));
                        assert(visited@.contains((x, y)));
                    }
                }
            }
        }
    }
    visited
}

} // verus!
