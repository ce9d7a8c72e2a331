use roguelike_tutorial_2018::location::Location;
use roguelike_tutorial_2018::pathing::a_star;

fn loc(x: i32, y: i32) -> Location {
    Location { x, y }
}

fn adjacent(a: Location, b: Location) -> bool {
    (a.x == b.x && (a.y - b.y).abs() == 1) || (a.y == b.y && (a.x - b.x).abs() == 1)
}

// Breadth-first distance over the same walkable predicate, for checking
// path lengths on small bounded grids.
fn bfs_distance<W: Fn(Location) -> bool>(start: Location, goal: Location, walkable: W) -> Option<
    usize,
> {
    let mut frontier = vec![start];
    let mut seen = vec![start];
    let mut dist: usize = 0;
    while !frontier.is_empty() {
        if frontier.contains(&goal) {
            return Some(dist);
        }
        let mut next = vec![];
        for cell in frontier {
            for n in [
                loc(cell.x + 1, cell.y),
                loc(cell.x - 1, cell.y),
                loc(cell.x, cell.y + 1),
                loc(cell.x, cell.y - 1),
            ] {
                if walkable(n) && !seen.contains(&n) {
                    seen.push(n);
                    next.push(n);
                }
            }
        }
        frontier = next;
        dist += 1;
    }
    None
}

#[test]
fn trivial_path_start_is_goal() {
    let p = a_star(loc(4, 4), loc(4, 4), |_| true).unwrap();
    assert_eq!(p, vec![loc(4, 4)]);
}

#[test]
fn straight_corridor_path() {
    // A 1-wide corridor from (0,0) to (3,0); the path comes back in
    // reverse order, goal first.
    let walkable = |l: Location| l.y == 0 && (0..=3).contains(&l.x);
    let p = a_star(loc(0, 0), loc(3, 0), walkable).unwrap();
    assert_eq!(p, vec![loc(3, 0), loc(2, 0), loc(1, 0), loc(0, 0)]);
}

#[test]
fn path_is_valid_and_shortest_on_small_grids() {
    // A fixed 8x8 grid with a wall pattern; every reachable goal must get
    // a path whose cells are 4-neighbors, walkable except possibly the
    // start, with matching endpoints, and as short as breadth-first search.
    let walls = [
        (2, 0),
        (2, 1),
        (2, 2),
        (2, 3),
        (2, 4),
        (2, 5),
        (5, 7),
        (5, 6),
        (5, 5),
        (5, 4),
        (5, 3),
        (4, 3),
    ];
    let walkable = move |l: Location| {
        (0..8).contains(&l.x) && (0..8).contains(&l.y) && !walls.contains(&(l.x, l.y))
    };
    let start = loc(0, 0);
    for gx in 0..8 {
        for gy in 0..8 {
            let goal = loc(gx, gy);
            if !walkable(goal) {
                continue;
            }
            let bfs = bfs_distance(start, goal, walkable);
            match a_star(start, goal, walkable) {
                Some(p) => {
                    assert!(p.len() >= 1);
                    assert_eq!(p[0], goal);
                    assert_eq!(*p.last().unwrap(), start);
                    for w in p.windows(2) {
                        assert!(adjacent(w[0], w[1]));
                    }
                    for cell in &p[..p.len() - 1] {
                        assert!(walkable(*cell));
                    }
                    let bfs_len = bfs.expect("a_star found a path where bfs found none");
                    assert_eq!(p.len() - 1, bfs_len, "non-optimal path to {:?}", goal);
                },
                None => {
                    assert!(bfs.is_none(), "a_star missed a path to {:?}", goal);
                },
            }
        }
    }
}

#[test]
fn walled_off_goal_gives_no_path() {
    // The goal is floor but every neighbor of it is wall: no path, not a
    // partial path.
    let goal = loc(7, 7);
    let walkable = |l: Location| {
        (0..=10).contains(&l.x) && (0..=10).contains(&l.y) && !((l.x - 7).abs() + (l.y - 7).abs()
            == 1)
    };
    assert_eq!(a_star(loc(0, 0), goal, walkable), None);
}
