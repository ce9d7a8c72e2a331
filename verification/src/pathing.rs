//! A* pathfinding over an implicit 4-neighbor grid. Walkability is supplied
//! by the caller as a predicate; the returned path runs from the goal back
//! to the start, so callers wanting start-to-goal order must reverse it.

use crate::location::{spec_adjacent, Location};
use vstd::prelude::*;

verus! {

/// A sequence of grid coordinates from goal back to start.
pub type Path = Vec<Location>;

/// No two entries share a key.
pub open spec fn spec_keys_distinct<V>(m: Seq<(Location, V)>) -> bool {
    forall|i: int, j: int| 0 <= i < j < m.len() ==> (#[trigger] m[i]).0 != (#[trigger] m[j]).0
}

/// Some entry carries the key `k`.
pub open spec fn spec_assoc_has<V>(m: Seq<(Location, V)>, k: Location) -> bool {
    exists|i: int| 0 <= i < m.len() && (#[trigger] m[i]).0 == k
}

/// The value carried with the key `k`.
pub open spec fn spec_assoc_get<V>(m: Seq<(Location, V)>, k: Location) -> V
    recommends
        spec_assoc_has(m, k),
{
    m[choose|i: int| 0 <= i < m.len() && (#[trigger] m[i]).0 == k].1
}

/// With distinct keys, the value looked up for the key of entry `i` is that
/// entry's own value.
proof fn lemma_assoc_get_at<V>(m: Seq<(Location, V)>, i: int)
    requires
        spec_keys_distinct(m),
        0 <= i < m.len(),
    ensures
        spec_assoc_has(m, m[i].0),
        spec_assoc_get(m, m[i].0) == m[i].1,
{
    let k = m[i].0;
    assert(spec_assoc_has(m, k));
    let j = choose|j: int| 0 <= j < m.len() && (#[trigger] m[j]).0 == k;
    if i != j {
        assert(false);
    }
}

/// Looks up a key in an association vector.
fn assoc_find<V: Copy>(m: &Vec<(Location, V)>, k: Location) -> (r: Option<V>)
    requires
        spec_keys_distinct(m@),
    ensures
        r is Some <==> spec_assoc_has(m@, k),
        r matches Some(v) ==> spec_assoc_get(m@, k) == v,
{
    let mut i: usize = 0;
    while i < m.len()
        invariant
            spec_keys_distinct(m@),
            i <= m@.len(),
            forall|j: int| 0 <= j < i ==> (#[trigger] m@[j]).0 != k,
        decreases m@.len() - i,
    {
        let entry = m[i];
        if entry.0 == k {
            proof {
                lemma_assoc_get_at(m@, i as int);
            }
            return Some(entry.1);
        }
        i = i + 1;
    }
    None
}

/// Binds a key to a value, replacing any previous binding and leaving every
/// other binding unchanged.
fn assoc_set<V: Copy>(m: &mut Vec<(Location, V)>, k: Location, v: V)
    requires
        spec_keys_distinct(old(m)@),
    ensures
        spec_keys_distinct(final(m)@),
        spec_assoc_has(final(m)@, k),
        spec_assoc_get(final(m)@, k) == v,
        forall|k2: Location|
            k2 != k ==> #[trigger] spec_assoc_has(final(m)@, k2) == spec_assoc_has(old(m)@, k2),
        forall|k2: Location|
            k2 != k && spec_assoc_has(old(m)@, k2) ==> #[trigger] spec_assoc_get(final(m)@, k2)
                == spec_assoc_get(old(m)@, k2),
        forall|i: int|
            0 <= i < final(m)@.len() ==> ((#[trigger] final(m)@[i]).0 == k || spec_assoc_has(
                old(m)@,
                final(m)@[i].0,
            )),
{
    let ghost m0 = m@;
    let mut i: usize = 0;
    while i < m.len()
        invariant
            m0 == old(m)@,
            m@ == m0,
            spec_keys_distinct(m@),
            i <= m@.len(),
            forall|j: int| 0 <= j < i ==> (#[trigger] m@[j]).0 != k,
        decreases m@.len() - i,
    {
        let entry = m[i];
        if entry.0 == k {
            m.set(i, (k, v));
            proof {
                assert(m@ =~= m0.update(i as int, (k, v)));
                lemma_assoc_get_at(m@, i as int);
                assert forall|k2: Location| k2 != k implies #[trigger] spec_assoc_has(m@, k2)
                    == spec_assoc_has(m0, k2) by {
                    if spec_assoc_has(m0, k2) {
                        let j = choose|j: int| 0 <= j < m0.len() && (#[trigger] m0[j]).0 == k2;
                        assert(m@[j].0 == k2);
                    }
                    if spec_assoc_has(m@, k2) {
                        let j = choose|j: int| 0 <= j < m@.len() && (#[trigger] m@[j]).0 == k2;
                        assert(m0[j].0 == k2);
                    }
                }
                assert forall|k2: Location| k2 != k && spec_assoc_has(m0, k2) implies #[trigger]
                spec_assoc_get(m@, k2) == spec_assoc_get(m0, k2) by {
                    let j = choose|j: int| 0 <= j < m0.len() && (#[trigger] m0[j]).0 == k2;
                    lemma_assoc_get_at(m0, j);
                    lemma_assoc_get_at(m@, j);
                }
                assert forall|j: int|
                    0 <= j < m@.len() implies ((#[trigger] m@[j]).0 == k || spec_assoc_has(
                    m0,
                    m@[j].0,
                )) by {
                    if j != i {
                        assert((m0[j]).0 == m@[j].0);
                    }
                }
            }
            return ;
        }
        i = i + 1;
    }
    m.push((k, v));
    proof {
        assert(m@ =~= m0.push((k, v)));
        assert(m@[m0.len() as int] == (k, v));
        lemma_assoc_get_at(m@, m0.len() as int);
        assert forall|k2: Location| k2 != k implies #[trigger] spec_assoc_has(m@, k2)
            == spec_assoc_has(m0, k2) by {
            if spec_assoc_has(m@, k2) {
                let j = choose|j: int| 0 <= j < m@.len() && (#[trigger] m@[j]).0 == k2;
                assert(m0[j].0 == k2);
            }
            if spec_assoc_has(m0, k2) {
                let j = choose|j: int| 0 <= j < m0.len() && (#[trigger] m0[j]).0 == k2;
                assert(m@[j].0 == k2);
            }
        }
        assert forall|k2: Location| k2 != k && spec_assoc_has(m0, k2) implies #[trigger]
        spec_assoc_get(m@, k2) == spec_assoc_get(m0, k2) by {
            let j = choose|j: int| 0 <= j < m0.len() && (#[trigger] m0[j]).0 == k2;
            lemma_assoc_get_at(m0, j);
            lemma_assoc_get_at(m@, j);
        }
        assert forall|j: int|
            0 <= j < m@.len() implies ((#[trigger] m@[j]).0 == k || spec_assoc_has(
            m0,
            m@[j].0,
        )) by {
            if j < m0.len() {
                assert((m0[j]).0 == m@[j].0);
            }
        }
    }
}

/// Whether the vector holds the given location.
fn vec_contains(v: &Vec<Location>, k: Location) -> (r: bool)
    ensures
        r == v@.contains(k),
{
    let mut i: usize = 0;
    while i < v.len()
        invariant
            i <= v@.len(),
            forall|j: int| 0 <= j < i ==> v@[j] != k,
        decreases v@.len() - i,
    {
        if v[i] == k {
            return true;
        }
        i = i + 1;
    }
    false
}

/// Removing one entry of a duplicate-free sequence keeps it duplicate-free
/// and keeps exactly the other values.
proof fn lemma_distinct_remove(s: Seq<Location>, i: int)
    requires
        0 <= i < s.len(),
        forall|p: int, q: int| 0 <= p < q < s.len() ==> s[p] != s[q],
    ensures
        forall|p: int, q: int|
            0 <= p < q < s.remove(i).len() ==> #[trigger] s.remove(i)[p] != #[trigger] s.remove(
                i,
            )[q],
        forall|x: Location| s.remove(i).contains(x) <==> (s.contains(x) && x != s[i]),
{
    s.remove_ensures(i);
    let t = s.remove(i);
    assert forall|x: Location| t.contains(x) implies s.contains(x) && x != s[i] by {
        let p = choose|p: int| 0 <= p < t.len() && t[p] == x;
        if p < i {
            assert(s[p] == x);
        } else {
            assert(s[p + 1] == x);
        }
    }
    assert forall|x: Location| s.contains(x) && x != s[i] implies t.contains(x) by {
        let p = choose|p: int| 0 <= p < s.len() && s[p] == x;
        if p < i {
            assert(t[p] == x);
        } else {
            assert(t[p - 1] == x);
        }
    }
}

/// A location's rank in the row-major enumeration of all representable
/// coordinates: a value in `[0, 2^64)`.
pub open spec fn spec_location_rank(l: Location) -> int {
    (l.x + 0x8000_0000) * 0x1_0000_0000 + (l.y + 0x8000_0000)
}

/// Ranks lie in `[0, 2^64)`.
proof fn lemma_location_rank_bounds(l: Location)
    ensures
        0 <= spec_location_rank(l) < 0x1_0000_0000_0000_0000,
{
    assert(0 <= (l.x + 0x8000_0000) * 0x1_0000_0000 <= 0xffff_ffff_0000_0000int)
        by (nonlinear_arith)
        requires
            0 <= l.x + 0x8000_0000 < 0x1_0000_0000,
    ;
}

/// Distinct locations have distinct ranks.
proof fn lemma_location_rank_injective(a: Location, b: Location)
    requires
        spec_location_rank(a) == spec_location_rank(b),
    ensures
        a == b,
{
    vstd::arithmetic::div_mod::lemma_fundamental_div_mod_converse(
        spec_location_rank(a),
        0x1_0000_0000,
        a.x + 0x8000_0000,
        a.y + 0x8000_0000,
    );
    vstd::arithmetic::div_mod::lemma_fundamental_div_mod_converse(
        spec_location_rank(b),
        0x1_0000_0000,
        b.x + 0x8000_0000,
        b.y + 0x8000_0000,
    );
}

/// There are only `2^64` representable locations, so a duplicate-free
/// sequence of locations can never outgrow that count. This is what lets a
/// search that closes a fresh location on every round terminate.
proof fn lemma_distinct_locations_bounded(s: Seq<Location>)
    requires
        forall|i: int, j: int| 0 <= i < j < s.len() ==> s[i] != s[j],
    ensures
        s.len() <= 0x1_0000_0000_0000_0000,
{
    broadcast use vstd::set::group_set_axioms;

    let ranks = Seq::new(s.len(), |i: int| spec_location_rank(s[i]));
    assert forall|i: int, j: int|
        0 <= i < ranks.len() && 0 <= j < ranks.len() && i != j implies ranks[i] != ranks[j] by {
        if ranks[i] == ranks[j] {
            lemma_location_rank_injective(s[i], s[j]);
        }
    }
    assert(ranks.no_duplicates());
    ranks.unique_seq_to_set();
    let universe = vstd::set_lib::set_int_range(0, 0x1_0000_0000_0000_0000);
    vstd::set_lib::lemma_int_range(0, 0x1_0000_0000_0000_0000);
    assert forall|r: int| ranks.to_set().contains(r) implies universe.contains(r) by {
        let i = choose|i: int| 0 <= i < ranks.len() && ranks[i] == r;
        lemma_location_rank_bounds(s[i]);
    }
    vstd::set_lib::lemma_len_subset(ranks.to_set(), universe);
}

/// The Chebyshev-style heuristic inherited by this pathfinder: the smaller
/// of the two absolute coordinate distances. It is a lower bound on the
/// true 4-connected distance, which makes closer cells get expanded first.
pub open spec fn spec_heuristic(a: Location, b: Location) -> int {
    let dx = if a.x >= b.x {
        a.x - b.x
    } else {
        b.x - a.x
    };
    let dy = if a.y >= b.y {
        a.y - b.y
    } else {
        b.y - a.y
    };
    if dx <= dy {
        dx
    } else {
        dy
    }
}

fn heuristic_cost_estimate(a: Location, b: Location) -> (r: u64)
    ensures
        r == spec_heuristic(a, b),
{
    let dx: i64 = if a.x >= b.x {
        a.x as i64 - b.x as i64
    } else {
        b.x as i64 - a.x as i64
    };
    let dy: i64 = if a.y >= b.y {
        a.y as i64 - b.y as i64
    } else {
        b.y as i64 - a.y as i64
    };
    if dx <= dy {
        dx as u64
    } else {
        dy as u64
    }
}

/// The index of an open cell whose f-score is no worse than any other's.
/// Ties fall to the earliest such cell; which of several equal-scored cells
/// is expanded first is deliberately unspecified.
fn find_min_f(open: &Vec<Location>, f_score: &Vec<(Location, u128)>) -> (idx: usize)
    requires
        open@.len() > 0,
        spec_keys_distinct(f_score@),
        forall|k: int| 0 <= k < open@.len() ==> spec_assoc_has(f_score@, #[trigger] open@[k]),
    ensures
        idx < open@.len(),
        forall|k: int|
            0 <= k < open@.len() ==> spec_assoc_get(f_score@, open@[idx as int]) <= spec_assoc_get(
                f_score@,
                #[trigger] open@[k],
            ),
{
    let mut best: usize = 0;
    let mut best_score: u128 = match assoc_find(f_score, open[0]) {
        Some(v) => v,
        None => {
            proof {
                assert(false);
            }
            0
        },
    };
    let mut k: usize = 1;
    while k < open.len()
        invariant
            spec_keys_distinct(f_score@),
            forall|j: int| 0 <= j < open@.len() ==> spec_assoc_has(f_score@, #[trigger] open@[j]),
            best < k <= open@.len() || (best == 0 && k <= open@.len()),
            best < open@.len(),
            1 <= k,
            best_score == spec_assoc_get(f_score@, open@[best as int]),
            forall|j: int|
                0 <= j < k ==> best_score <= spec_assoc_get(f_score@, #[trigger] open@[j]),
        decreases open@.len() - k,
    {
        let score = match assoc_find(f_score, open[k]) {
            Some(v) => v,
            None => {
                proof {
                    assert(false);
                }
                0
            },
        };
        if score < best_score {
            best = k;
            best_score = score;
        }
        k = k + 1;
    }
    best
}

/// A parent entry is a step of a well-founded chain: its key is not the
/// start, both ends carry g-scores, the key's g-score is one more than the
/// parent's, and the parent is the start or has a parent entry of its own.
pub open spec fn spec_chain_entry_ok(
    cf: Seq<(Location, Location)>,
    g: Seq<(Location, u128)>,
    start: Location,
    e: (Location, Location),
) -> bool {
    &&& e.0 != start
    &&& spec_assoc_has(g, e.0)
    &&& spec_assoc_has(g, e.1)
    &&& spec_assoc_get(g, e.0) == spec_assoc_get(g, e.1) + 1
    &&& (e.1 == start || spec_assoc_has(cf, e.1))
}

/// A parent entry records how the search reached a cell: the two cells are
/// 4-neighbors, the reached cell was approved by the walkability predicate,
/// and the parent is already closed.
pub open spec fn spec_search_entry_ok<W: Fn(Location) -> bool>(
    walkable: W,
    closed: Seq<Location>,
    e: (Location, Location),
) -> bool {
    &&& spec_adjacent(e.0, e.1)
    &&& call_ensures(walkable, (e.0,), true)
    &&& closed.contains(e.1)
}

/// Walks the recorded parent entries from `current` back to `start`,
/// collecting the cells passed in order.
fn reconstruct_path(
    came_from: &Vec<(Location, Location)>,
    Ghost(g): Ghost<Seq<(Location, u128)>>,
    Ghost(start): Ghost<Location>,
    current: Location,
) -> (p: Path)
    requires
        spec_keys_distinct(came_from@),
        spec_keys_distinct(g),
        forall|i: int|
            0 <= i < came_from@.len() ==> spec_chain_entry_ok(
                came_from@,
                g,
                start,
                #[trigger] came_from@[i],
            ),
        spec_assoc_has(g, start),
        spec_assoc_has(came_from@, current) || current == start,
        spec_assoc_has(g, current),
    ensures
        p@.len() >= 1,
        p@[0] == current,
        p@.last() == start,
        forall|i: int|
            0 <= i < p@.len() - 1 ==> spec_assoc_has(came_from@, #[trigger] p@[i])
                && spec_assoc_get(came_from@, p@[i]) == p@[i + 1],
        forall|i: int, j: int| 0 <= i < j < p@.len() ==> p@[i] != p@[j],
{
    let mut cur = current;
    let mut path: Path = Vec::new();
    path.push(cur);
    loop
        invariant
            spec_keys_distinct(came_from@),
            spec_keys_distinct(g),
            forall|i: int|
                0 <= i < came_from@.len() ==> spec_chain_entry_ok(
                    came_from@,
                    g,
                    start,
                    #[trigger] came_from@[i],
                ),
            spec_assoc_has(came_from@, cur) || cur == start,
            spec_assoc_has(g, cur),
            path@.len() >= 1,
            path@[0] == current,
            path@.last() == cur,
            forall|i: int|
                0 <= i < path@.len() - 1 ==> spec_assoc_has(came_from@, #[trigger] path@[i])
                    && spec_assoc_get(came_from@, path@[i]) == path@[i + 1],
            forall|i: int| 0 <= i < path@.len() ==> spec_assoc_has(g, #[trigger] path@[i]),
            forall|i: int|
                0 <= i < path@.len() ==> spec_assoc_get(g, #[trigger] path@[i])
                    == spec_assoc_get(g, cur) + (path@.len() - 1 - i),
        ensures
            cur == start,
            path@.len() >= 1,
            path@[0] == current,
            path@.last() == cur,
            forall|i: int|
                0 <= i < path@.len() - 1 ==> spec_assoc_has(came_from@, #[trigger] path@[i])
                    && spec_assoc_get(came_from@, path@[i]) == path@[i + 1],
            forall|i: int| 0 <= i < path@.len() ==> spec_assoc_has(g, #[trigger] path@[i]),
            forall|i: int|
                0 <= i < path@.len() ==> spec_assoc_get(g, #[trigger] path@[i])
                    == spec_assoc_get(g, cur) + (path@.len() - 1 - i),
        decreases spec_assoc_get(g, cur),
    {
        match assoc_find(came_from, cur) {
            Some(parent) => {
                proof {
                    let i = choose|i: int|
                        0 <= i < came_from@.len() && (#[trigger] came_from@[i]).0 == cur;
                    lemma_assoc_get_at(came_from@, i);
                    assert(spec_chain_entry_ok(came_from@, g, start, came_from@[i]));
                }
                path.push(parent);
                cur = parent;
            },
            None => {
                assert(cur == start);
                break ;
            },
        }
    }
    proof {
        // The g-scores strictly decrease along the walk, so no cell repeats.
        assert forall|i: int, j: int| 0 <= i < j < path@.len() implies path@[i] != path@[j] by {
            assert(spec_assoc_get(g, path@[i]) != spec_assoc_get(g, path@[j]));
        }
    }
    path
}

/// A cell the walkability capability can only approve: every answer it may
/// give for that cell is `true`.
pub open spec fn spec_always_walkable<W: Fn(Location) -> bool>(walkable: W, c: Location) -> bool {
    forall|b: bool| #[trigger] call_ensures(walkable, (c,), b) ==> b
}

/// A 4-connected walk from `start` to `goal` whose every cell past the
/// start the walkability capability can only approve.
pub open spec fn spec_forced_path<W: Fn(Location) -> bool>(
    walkable: W,
    start: Location,
    goal: Location,
    p: Seq<Location>,
) -> bool {
    &&& p.len() >= 1
    &&& p[0] == start
    &&& p.last() == goal
    &&& forall|i: int| 0 <= i < p.len() - 1 ==> spec_adjacent(#[trigger] p[i], p[i + 1])
    &&& forall|i: int| 1 <= i < p.len() ==> spec_always_walkable(walkable, #[trigger] p[i])
}

/// Every closed cell has been expanded: each of its 4-neighbors that the
/// capability can only approve has been seen, and sits in the closed or the
/// open list.
#[verifier::opaque]
pub open spec fn spec_expansion_closure<W: Fn(Location) -> bool>(
    walkable: W,
    closed: Seq<Location>,
    open: Seq<Location>,
) -> bool {
    forall|c: Location, n: Location|
        #![trigger closed.contains(c), spec_adjacent(n, c)]
        closed.contains(c) && spec_adjacent(n, c) && spec_always_walkable(walkable, n) ==> (
        closed.contains(n) || open.contains(n))
}

/// The same expansion property for every closed cell but one, whose
/// expansion is still in progress.
#[verifier::opaque]
pub open spec fn spec_partial_closure<W: Fn(Location) -> bool>(
    walkable: W,
    closed: Seq<Location>,
    open: Seq<Location>,
    pending: Location,
) -> bool {
    forall|c: Location, n: Location|
        #![trigger closed.contains(c), spec_adjacent(n, c)]
        closed.contains(c) && c != pending && spec_adjacent(n, c) && spec_always_walkable(
            walkable,
            n,
        ) ==> (closed.contains(n) || open.contains(n))
}

/// A pending expansion stays pending when the open list only grows.
proof fn lemma_partial_closure_grows<W: Fn(Location) -> bool>(
    walkable: W,
    closed: Seq<Location>,
    open1: Seq<Location>,
    open2: Seq<Location>,
    v: Location,
    pending: Location,
)
    requires
        spec_partial_closure(walkable, closed, open1, pending),
        open2 == open1 || open2 == open1.push(v),
    ensures
        spec_partial_closure(walkable, closed, open2, pending),
{
    reveal(spec_partial_closure);
    assert forall|c: Location, n: Location|
        #![trigger closed.contains(c), spec_adjacent(n, c)]
        closed.contains(c) && c != pending && spec_adjacent(n, c) && spec_always_walkable(
            walkable,
            n,
        ) implies (closed.contains(n) || open2.contains(n)) by {
        if !closed.contains(n) && open2 != open1 {
            lemma_push_keeps_contains(open1, v, n);
        }
    }
}

/// Pushing onto a sequence keeps what it already holds.
proof fn lemma_push_keeps_contains(s: Seq<Location>, v: Location, x: Location)
    requires
        s.contains(x),
    ensures
        s.push(v).contains(x),
{
    let i = choose|i: int| 0 <= i < s.len() && s[i] == x;
    assert(s.push(v)[i] == x);
}

/// Once the open list is empty, the closed set is closed under stepping
/// onto approvable neighbors, so a forced walk that starts inside it stays
/// inside it to its very end.
proof fn lemma_forced_path_stays_closed<W: Fn(Location) -> bool>(
    walkable: W,
    closed: Seq<Location>,
    open: Seq<Location>,
    start: Location,
    goal: Location,
    p: Seq<Location>,
    i: int,
)
    requires
        open.len() == 0,
        spec_expansion_closure(walkable, closed, open),
        spec_forced_path(walkable, start, goal, p),
        closed.contains(start),
        0 <= i < p.len(),
    ensures
        closed.contains(p[i]),
    decreases i,
{
    reveal(spec_expansion_closure);
    if i > 0 {
        lemma_forced_path_stays_closed(walkable, closed, open, start, goal, p, i - 1);
        assert(spec_adjacent(p[i - 1], p[i]));
        assert(spec_adjacent(p[i], p[i - 1]));
        assert(spec_always_walkable(walkable, p[i]));
        assert(closed.contains(p[i - 1]));
        assert(closed.contains(p[i]) || open.contains(p[i]));
    }
}

/// The goal sits behind walls: it is not the start, not next to the start,
/// and the walkability predicate rejects every cell 4-adjacent to it.
pub open spec fn spec_walled_off<W: Fn(Location) -> bool>(
    walkable: W,
    start: Location,
    goal: Location,
) -> bool {
    &&& start != goal
    &&& !spec_adjacent(start, goal)
    &&& forall|n: Location, b: bool|
        spec_adjacent(n, goal) && #[trigger] call_ensures(walkable, (n,), b) ==> !b
}

/// Gives the **reverse order** path from `start` to `goal`, if any.
///
/// Standard A* over the implicit grid of all coordinates, with unit step
/// cost to any walkable 4-neighbor, the smaller-coordinate-distance
/// heuristic, and ties between equal f-scores broken arbitrarily. On
/// success the returned path starts at the goal, ends at the start, moves
/// one 4-step at a time, never repeats a cell, and every cell on it except
/// the start was approved by the walkability predicate. The search is
/// complete: whenever a 4-connected walk to the goal exists whose cells the
/// predicate can only approve, a path is returned — so the no-path answer
/// is only ever given when no such walk exists. A walled-off goal is never
/// reached: the search returns the no-path answer, not a partial path. The
/// search always terminates: every round closes a location never closed
/// before, and there are only as many locations as 64-bit values.
#[verifier::rlimit(100)]
#[verifier::spinoff_prover]
pub fn a_star<W: Fn(Location) -> bool>(start: Location, goal: Location, walkable: W) -> (r: Option<
    Path,
>)
    requires
        forall|loc: Location| #[trigger] call_requires(walkable, (loc,)),
    ensures
        start == goal ==> r is Some,
        r matches Some(p) ==> {
            &&& p@.len() >= 1
            &&& p@[0] == goal
            &&& p@.last() == start
            &&& (forall|i: int| 0 <= i < p@.len() - 1 ==> spec_adjacent(#[trigger] p@[i], p@[i + 1]))
            &&& (forall|i: int|
                0 <= i < p@.len() - 1 ==> call_ensures(walkable, (#[trigger] p@[i],), true))
            &&& (forall|i: int, j: int| 0 <= i < j < p@.len() ==> p@[i] != p@[j])
        },
        spec_walled_off(walkable, start, goal) ==> r is None,
        (exists|p: Seq<Location>| #[trigger] spec_forced_path(walkable, start, goal, p)) ==> r
            is Some,
{
    if start == goal {
        let mut p: Path = Vec::new();
        p.push(goal);
        return Some(p);
    }
    let mut closed: Vec<Location> = Vec::new();
    let mut open: Vec<Location> = Vec::new();
    open.push(start);
    let mut came_from: Vec<(Location, Location)> = Vec::new();
    let mut g_score: Vec<(Location, u128)> = Vec::new();
    assoc_set(&mut g_score, start, 0);
    let mut f_score: Vec<(Location, u128)> = Vec::new();
    assoc_set(&mut f_score, start, heuristic_cost_estimate(start, goal) as u128);
    proof {
        reveal(spec_expansion_closure);
        assert(open@[0] == start);
        assert forall|i: int|
            0 <= i < g_score@.len() implies (#[trigger] g_score@[i]).1 <= closed@.len()
            && spec_assoc_has(f_score@, g_score@[i].0) && (closed@.contains(g_score@[i].0)
            || open@.contains(g_score@[i].0)) by {
            assert(g_score@[i].0 == start);
            lemma_assoc_get_at(g_score@, i);
        }
    }
    loop
        invariant
            start != goal,
            forall|loc: Location| #[trigger] call_requires(walkable, (loc,)),
            spec_keys_distinct(g_score@),
            spec_keys_distinct(f_score@),
            spec_keys_distinct(came_from@),
            forall|i: int, j: int| 0 <= i < j < open@.len() ==> open@[i] != open@[j],
            forall|k: int| 0 <= k < open@.len() ==> spec_assoc_has(g_score@, #[trigger] open@[k]),
            forall|i: int|
                0 <= i < g_score@.len() ==> spec_assoc_has(f_score@, (#[trigger] g_score@[i]).0),
            forall|i: int| 0 <= i < g_score@.len() ==> (#[trigger] g_score@[i]).1 <= closed@.len(),
            forall|k: int|
                0 <= k < open@.len() ==> (#[trigger] open@[k] == start || call_ensures(
                    walkable,
                    (open@[k],),
                    true,
                )),
            forall|k: int|
                0 <= k < open@.len() ==> (#[trigger] open@[k] == start || spec_assoc_has(
                    came_from@,
                    open@[k],
                )),
            !spec_assoc_has(came_from@, start),
            spec_assoc_has(g_score@, start),
            forall|i: int|
                0 <= i < came_from@.len() ==> spec_chain_entry_ok(
                    came_from@,
                    g_score@,
                    start,
                    #[trigger] came_from@[i],
                ),
            forall|i: int|
                0 <= i < came_from@.len() ==> spec_search_entry_ok(
                    walkable,
                    closed@,
                    #[trigger] came_from@[i],
                ),
            closed@.len() == 0 ==> open@ =~= seq![start] && came_from@.len() == 0,
            closed@.len() > 0 ==> closed@.contains(start),
            spec_walled_off(walkable, start, goal) ==> forall|k: int|
                0 <= k < open@.len() ==> open@[k] != goal,
            forall|i: int, j: int| 0 <= i < j < closed@.len() ==> closed@[i] != closed@[j],
            forall|k: int| 0 <= k < open@.len() ==> !closed@.contains(#[trigger] open@[k]),
            closed@.len() <= 0x1_0000_0000_0000_0000,
            !closed@.contains(goal),
            forall|i: int|
                0 <= i < g_score@.len() ==> (closed@.contains((#[trigger] g_score@[i]).0)
                    || open@.contains(g_score@[i].0)),
            spec_expansion_closure(walkable, closed@, open@),
        decreases 0x1_0000_0000_0000_0000 - closed@.len(),
    {
        if open.len() == 0 {
            proof {
                if exists|p: Seq<Location>| spec_forced_path(walkable, start, goal, p) {
                    let p = choose|p: Seq<Location>| spec_forced_path(walkable, start, goal, p);
                    assert(closed@.contains(start));
                    lemma_forced_path_stays_closed(
                        walkable,
                        closed@,
                        open@,
                        start,
                        goal,
                        p,
                        p.len() - 1,
                    );
                    assert(false);
                }
            }
            return None;
        }
        let min_idx = find_min_f(&open, &f_score);
        let current = open[min_idx];
        if current == goal {
            proof {
                if spec_walled_off(walkable, start, goal) {
                    assert(open@[min_idx as int] != goal);
                }
            }
            let path = reconstruct_path(
                &came_from,
                Ghost(g_score@),
                Ghost(start),
                current,
            );
            proof {
                assert forall|i: int| 0 <= i < path@.len() - 1 implies spec_adjacent(
                    #[trigger] path@[i],
                    path@[i + 1],
                ) && call_ensures(walkable, (path@[i],), true) by {
                    let j = choose|j: int|
                        0 <= j < came_from@.len() && (#[trigger] came_from@[j]).0 == path@[i];
                    lemma_assoc_get_at(came_from@, j);
                    assert(spec_search_entry_ok(walkable, closed@, came_from@[j]));
                }
            }
            return Some(path);
        }
        let ghost open0 = open@;
        let ghost closed0 = closed@;
        proof {
            assert(current == start || call_ensures(walkable, (current,), true));
            assert(current == start || spec_assoc_has(came_from@, current));
        }
        open.remove(min_idx);
        proof {
            lemma_distinct_remove(open0, min_idx as int);
        }
        closed.push(current);
        proof {
            assert forall|x: Location| closed0.contains(x) implies closed@.contains(x) by {
                let j = choose|j: int| 0 <= j < closed0.len() && closed0[j] == x;
                assert(closed@[j] == x);
            }
            assert(closed@[closed0.len() as int] == current);
            assert(closed@.contains(current));
            assert(closed@.contains(start));
            assert(!closed0.contains(current)) by {
                assert(open0.contains(current)) by {
                    assert(open0[min_idx as int] == current);
                }
            }
            assert forall|i: int, j: int|
                0 <= i < j < closed@.len() implies closed@[i] != closed@[j] by {
                if j == closed@.len() - 1 {
                    assert(closed@[i] == closed0[i]);
                    assert(closed0.contains(closed@[i])) by {
                        assert(closed0[i] == closed@[i]);
                    }
                }
            }
            lemma_distinct_locations_bounded(closed@);
            assert forall|k: int|
                0 <= k < open@.len() implies !closed@.contains(#[trigger] open@[k]) by {
                assert(open0.contains(open@[k]) && open@[k] != current);
                if closed@.contains(open@[k]) {
                    let j = choose|j: int| 0 <= j < closed@.len() && closed@[j] == open@[k];
                    assert(j < closed0.len() ==> closed0[j] == open@[k]);
                }
            }
            assert forall|i: int| 0 <= i < came_from@.len() implies spec_search_entry_ok(
                walkable,
                closed@,
                #[trigger] came_from@[i],
            ) by {
                assert(spec_search_entry_ok(walkable, closed0, came_from@[i]));
            }
            assert(!closed@.contains(goal)) by {
                if closed@.contains(goal) {
                    let j = choose|j: int| 0 <= j < closed@.len() && closed@[j] == goal;
                    assert(j < closed0.len() ==> closed0[j] == goal);
                }
            }
            assert forall|i: int|
                0 <= i < g_score@.len() implies (closed@.contains((#[trigger] g_score@[i]).0)
                || open@.contains(g_score@[i].0)) by {
                let c = g_score@[i].0;
                if closed0.contains(c) {
                } else {
                    assert(open0.contains(c));
                    if c == current {
                        assert(closed@.contains(current));
                    } else {
                        assert(open@.contains(c));
                    }
                }
            }
            reveal(spec_expansion_closure);
            reveal(spec_partial_closure);
            assert forall|c: Location, n: Location|
                #![trigger closed@.contains(c), spec_adjacent(n, c)]
                closed@.contains(c) && c != current && spec_adjacent(n, c)
                    && spec_always_walkable(walkable, n) implies (closed@.contains(n)
                || open@.contains(n)) by {
                assert(closed0.contains(c)) by {
                    let j = choose|j: int| 0 <= j < closed@.len() && closed@[j] == c;
                    assert(j < closed0.len() ==> closed0[j] == c);
                }
                assert(closed0.contains(n) || open0.contains(n));
                if !closed0.contains(n) {
                    if n == current {
                        assert(closed@.contains(current));
                    } else {
                        assert(open@.contains(n));
                    }
                }
            }
            assert(spec_partial_closure(walkable, closed@, open@, current));
        }
        let g_cur = match assoc_find(&g_score, current) {
            Some(v) => v,
            None => {
                proof {
                    assert(false);
                }
                0
            },
        };
        proof {
            // The g-score of the just-closed cell was recorded before this
            // round enlarged the closed list, so it sits strictly below the
            // new count.
            let gi = choose|gi: int| 0 <= gi < g_score@.len() && (#[trigger] g_score@[gi]).0 == current;
            lemma_assoc_get_at(g_score@, gi);
            assert(g_score@[gi].1 <= closed0.len());
            assert(g_cur < closed@.len());
        }
        // The four neighbor candidates; the edge of the representable
        // coordinate space acts as a wall, and no representable cell sits
        // beyond it.
        let ghost east_c = Location { x: (current.x + 1) as i32, y: current.y };
        let ghost west_c = Location { x: (current.x - 1) as i32, y: current.y };
        let ghost north_c = Location { x: current.x, y: (current.y + 1) as i32 };
        let ghost south_c = Location { x: current.x, y: (current.y - 1) as i32 };
        let mut cands: Vec<Location> = Vec::new();
        if current.x < i32::MAX {
            cands.push(Location { x: current.x + 1, y: current.y });
            proof {
                assert(cands@.last() == east_c);
            }
        }
        if current.x > i32::MIN {
            proof {
                if current.x < i32::MAX {
                    lemma_push_keeps_contains(cands@, west_c, east_c);
                }
            }
            cands.push(Location { x: current.x - 1, y: current.y });
            proof {
                assert(cands@.last() == west_c);
            }
        }
        if current.y < i32::MAX {
            proof {
                if current.x < i32::MAX {
                    lemma_push_keeps_contains(cands@, north_c, east_c);
                }
                if current.x > i32::MIN {
                    lemma_push_keeps_contains(cands@, north_c, west_c);
                }
            }
            cands.push(Location { x: current.x, y: current.y + 1 });
            proof {
                assert(cands@.last() == north_c);
            }
        }
        if current.y > i32::MIN {
            proof {
                if current.x < i32::MAX {
                    lemma_push_keeps_contains(cands@, south_c, east_c);
                }
                if current.x > i32::MIN {
                    lemma_push_keeps_contains(cands@, south_c, west_c);
                }
                if current.y < i32::MAX {
                    lemma_push_keeps_contains(cands@, south_c, north_c);
                }
            }
            cands.push(Location { x: current.x, y: current.y - 1 });
            proof {
                assert(cands@.last() == south_c);
            }
        }
        proof {
            assert forall|n: Location| spec_adjacent(n, current) implies cands@.contains(n) by {
                if n.y == current.y && n.x - current.x == 1 {
                    assert(current.x < i32::MAX);
                    assert(n == east_c);
                } else if n.y == current.y && current.x - n.x == 1 {
                    assert(current.x > i32::MIN);
                    assert(n == west_c);
                } else if n.x == current.x && n.y - current.y == 1 {
                    assert(current.y < i32::MAX);
                    assert(n == north_c);
                } else {
                    assert(n.x == current.x && current.y - n.y == 1);
                    assert(current.y > i32::MIN);
                    assert(n == south_c);
                }
            }
        }
        let mut ni: usize = 0;
        while ni < cands.len()
            invariant
                start != goal,
                current != goal,
                forall|loc: Location| #[trigger] call_requires(walkable, (loc,)),
                spec_keys_distinct(g_score@),
                spec_keys_distinct(f_score@),
                spec_keys_distinct(came_from@),
                forall|i: int, j: int| 0 <= i < j < open@.len() ==> open@[i] != open@[j],
                forall|k: int|
                    0 <= k < open@.len() ==> spec_assoc_has(g_score@, #[trigger] open@[k]),
                forall|i: int|
                    0 <= i < g_score@.len() ==> spec_assoc_has(
                        f_score@,
                        (#[trigger] g_score@[i]).0,
                    ),
                forall|i: int|
                    0 <= i < g_score@.len() ==> (#[trigger] g_score@[i]).1 <= closed@.len(),
                forall|k: int|
                    0 <= k < open@.len() ==> (#[trigger] open@[k] == start || call_ensures(
                        walkable,
                        (open@[k],),
                        true,
                    )),
                forall|k: int|
                    0 <= k < open@.len() ==> (#[trigger] open@[k] == start || spec_assoc_has(
                        came_from@,
                        open@[k],
                    )),
                !spec_assoc_has(came_from@, start),
                spec_assoc_has(g_score@, start),
                forall|i: int|
                    0 <= i < came_from@.len() ==> spec_chain_entry_ok(
                        came_from@,
                        g_score@,
                        start,
                        #[trigger] came_from@[i],
                    ),
                forall|i: int|
                    0 <= i < came_from@.len() ==> spec_search_entry_ok(
                        walkable,
                        closed@,
                        #[trigger] came_from@[i],
                    ),
                closed@.len() > 0,
                closed@.contains(start),
                closed@.contains(current),
                forall|i: int, j: int| 0 <= i < j < closed@.len() ==> closed@[i] != closed@[j],
                forall|k: int| 0 <= k < open@.len() ==> !closed@.contains(#[trigger] open@[k]),
                closed@.len() <= 0x1_0000_0000_0000_0000,
                spec_assoc_has(g_score@, current),
                spec_assoc_get(g_score@, current) == g_cur,
                g_cur < closed@.len(),
                current == start || call_ensures(walkable, (current,), true),
                current == start || spec_assoc_has(came_from@, current),
                ni <= cands@.len(),
                forall|j: int| 0 <= j < cands@.len() ==> spec_adjacent(#[trigger] cands@[j], current),
                spec_walled_off(walkable, start, goal) ==> forall|k: int|
                    0 <= k < open@.len() ==> open@[k] != goal,
                !closed@.contains(goal),
                forall|i: int|
                    0 <= i < g_score@.len() ==> (closed@.contains((#[trigger] g_score@[i]).0)
                        || open@.contains(g_score@[i].0)),
                spec_partial_closure(walkable, closed@, open@, current),
                forall|n: Location| spec_adjacent(n, current) ==> cands@.contains(n),
                forall|jj: int|
                    0 <= jj < ni ==> (spec_always_walkable(walkable, #[trigger] cands@[jj]) ==> (
                    closed@.contains(cands@[jj]) || open@.contains(cands@[jj]))),
            decreases cands@.len() - ni,
        {
            let neighbor = cands[ni];
            let ghost open_at = open@;
            let w_ok = walkable(neighbor);
            if w_ok && !vec_contains(&closed, neighbor) {
                proof {
                    assert(neighbor != current);
                    assert(neighbor != start);
                }
                let tentative = g_cur + 1;
                let g_n = match assoc_find(&g_score, neighbor) {
                    Some(v) => v,
                    None => u128::MAX,
                };
                if tentative < g_n {
                    let ghost cf0 = came_from@;
                    let ghost g0 = g_score@;
                    assoc_set(&mut came_from, neighbor, current);
                    assoc_set(&mut g_score, neighbor, tentative);
                    let h = heuristic_cost_estimate(neighbor, goal);
                    let f = tentative + h as u128;
                    assoc_set(&mut f_score, neighbor, f);
                    proof {
                        assert(tentative == g_cur + 1);
                        assert(spec_assoc_get(g_score@, current) == g_cur);
                        assert forall|i: int| 0 <= i < came_from@.len() implies spec_chain_entry_ok(
                            came_from@,
                            g_score@,
                            start,
                            #[trigger] came_from@[i],
                        ) && spec_search_entry_ok(walkable, closed@, came_from@[i]) by {
                            let e = came_from@[i];
                            if e.0 == neighbor {
                                lemma_assoc_get_at(came_from@, i);
                                assert(e.1 == current);
                            } else {
                                assert(spec_assoc_has(came_from@, e.0)) by {
                                    assert((came_from@[i]).0 == e.0);
                                }
                                assert(spec_assoc_has(cf0, e.0));
                                let j = choose|j: int|
                                    0 <= j < cf0.len() && (#[trigger] cf0[j]).0 == e.0;
                                lemma_assoc_get_at(cf0, j);
                                lemma_assoc_get_at(came_from@, i);
                                assert(spec_assoc_get(came_from@, e.0) == spec_assoc_get(
                                    cf0,
                                    e.0,
                                ));
                                assert(e == cf0[j]);
                                assert(spec_chain_entry_ok(cf0, g0, start, e));
                                assert(e.1 != neighbor) by {
                                    assert(spec_search_entry_ok(walkable, closed@, cf0[j]));
                                }
                            }
                        }
                        assert forall|i: int|
                            0 <= i < g_score@.len() implies (#[trigger] g_score@[i]).1
                            <= closed@.len() by {
                            let e = g_score@[i];
                            lemma_assoc_get_at(g_score@, i);
                            if e.0 != neighbor {
                                assert(spec_assoc_has(g_score@, e.0)) by {
                                    assert((g_score@[i]).0 == e.0);
                                }
                                assert(spec_assoc_has(g0, e.0));
                                let j = choose|j: int|
                                    0 <= j < g0.len() && (#[trigger] g0[j]).0 == e.0;
                                lemma_assoc_get_at(g0, j);
                            }
                        }
                        assert forall|i: int|
                            0 <= i < g_score@.len() implies spec_assoc_has(
                            f_score@,
                            (#[trigger] g_score@[i]).0,
                        ) by {
                            let e = g_score@[i];
                            if e.0 != neighbor {
                                assert(spec_assoc_has(g_score@, e.0)) by {
                                    assert((g_score@[i]).0 == e.0);
                                }
                                assert(spec_assoc_has(g0, e.0));
                            }
                        }
                    }
                    if !vec_contains(&open, neighbor) {
                        let ghost openb = open@;
                        open.push(neighbor);
                        proof {
                            assert forall|i: int, j: int|
                                0 <= i < j < open@.len() implies open@[i] != open@[j] by {
                                if j < openb.len() {
                                } else {
                                    assert(open@[j] == neighbor);
                                    assert(!openb.contains(neighbor));
                                }
                            }
                            assert forall|k: int|
                                0 <= k < open@.len() implies !closed@.contains(
                                #[trigger] open@[k],
                            ) by {
                                if k < openb.len() {
                                    assert(open@[k] == openb[k]);
                                    assert(openb.contains(openb[k]));
                                } else {
                                    assert(open@[k] == neighbor);
                                }
                            }
                            if spec_walled_off(walkable, start, goal) {
                                assert(spec_adjacent(neighbor, current));
                                if neighbor == goal {
                                    assert(spec_adjacent(current, goal));
                                    assert(call_ensures(walkable, (current,), true));
                                    assert(false);
                                }
                            }
                            assert(open@.last() == neighbor);
                            assert(open@.contains(neighbor));
                        }
                    }
                    proof {
                        assert(open@.contains(neighbor));
                    }
                } else {
                    proof {
                        // A skipped neighbor already carries a g-score, so
                        // it was seen before: it sits in the closed or the
                        // open list.
                        let gi = choose|gi: int|
                            0 <= gi < g_score@.len() && (#[trigger] g_score@[gi]).0 == neighbor;
                        assert(closed@.contains(neighbor) || open@.contains(neighbor));
                    }
                }
            }
            proof {
                assert(open@ == open_at || open@ == open_at.push(neighbor));
                if spec_always_walkable(walkable, neighbor) {
                    assert(w_ok);
                    assert(closed@.contains(neighbor) || open@.contains(neighbor));
                }
                assert forall|jj: int|
                    0 <= jj < ni + 1 implies (spec_always_walkable(
                    walkable,
                    #[trigger] cands@[jj],
                ) ==> (closed@.contains(cands@[jj]) || open@.contains(cands@[jj]))) by {
                    if jj < ni && spec_always_walkable(walkable, cands@[jj]) {
                        assert(closed@.contains(cands@[jj]) || open_at.contains(cands@[jj]));
                        if open@ != open_at && open_at.contains(cands@[jj]) {
                            lemma_push_keeps_contains(open_at, neighbor, cands@[jj]);
                        }
                    }
                }
                assert forall|i: int|
                    0 <= i < g_score@.len() implies (closed@.contains((#[trigger] g_score@[i]).0)
                    || open@.contains(g_score@[i].0)) by {
                    let c = g_score@[i].0;
                    if c == neighbor {
                        assert(closed@.contains(c) || open@.contains(c));
                    } else {
                        assert(spec_assoc_has(g_score@, c)) by {
                            assert((g_score@[i]).0 == c);
                        }
                        if open@ != open_at && open_at.contains(c) {
                            lemma_push_keeps_contains(open_at, neighbor, c);
                        }
                    }
                }
                lemma_partial_closure_grows(
                    walkable,
                    closed@,
                    open_at,
                    open@,
                    neighbor,
                    current,
                );
            }
            ni = ni + 1;
        }
        proof {
            // Every 4-neighbor of the newly closed cell that can only be
            // approved has now been seen, so the closure property covers it.
            reveal(spec_expansion_closure);
            reveal(spec_partial_closure);
            assert forall|c: Location, n: Location|
                #![trigger closed@.contains(c), spec_adjacent(n, c)]
                closed@.contains(c) && spec_adjacent(n, c) && spec_always_walkable(walkable, n)
                implies (closed@.contains(n) || open@.contains(n)) by {
                if c == current {
                    assert(cands@.contains(n));
                    let jj = choose|jj: int| 0 <= jj < cands@.len() && cands@[jj] == n;
                    assert(spec_always_walkable(walkable, cands@[jj]));
                }
            }
        }
    }
}

} // verus!
