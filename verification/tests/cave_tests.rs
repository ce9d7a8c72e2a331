use roguelike_tutorial_2018::cave::make_cellular_caves;
use roguelike_tutorial_2018::grid::Grid;
use roguelike_tutorial_2018::prng::PCG32;

// All floor cells reachable from one floor cell by 4-connected movement
// over floor, as a plain flood fill.
fn connected_floor_count(grid: &Grid, sx: usize, sy: usize) -> usize {
    let w = grid.get_width();
    let h = grid.get_height();
    let mut seen = vec![false; w * h];
    let mut frontier = vec![(sx, sy)];
    seen[sy * w + sx] = true;
    let mut count: usize = 0;
    while let Some((x, y)) = frontier.pop() {
        count += 1;
        let mut push = |nx: usize, ny: usize, frontier: &mut Vec<(usize, usize)>| {
            if !seen[ny * w + nx] && !Grid::get(grid, nx, ny) {
                seen[ny * w + nx] = true;
                frontier.push((nx, ny));
            }
        };
        if x + 1 < w {
            push(x + 1, y, &mut frontier);
        }
        if x > 0 {
            push(x - 1, y, &mut frontier);
        }
        if y + 1 < h {
            push(x, y + 1, &mut frontier);
        }
        if y > 0 {
            push(x, y - 1, &mut frontier);
        }
    }
    count
}

fn floor_cells(grid: &Grid) -> Vec<(usize, usize)> {
    let mut floors = vec![];
    for y in 0..grid.get_height() {
        for x in 0..grid.get_width() {
            if !grid.get(x, y) {
                floors.push((x, y));
            }
        }
    }
    floors
}

#[test]
fn cave_is_single_component_and_half_floor() {
    for seed in [1u64, 42, 0xdead_beef, 77777] {
        let mut gen = PCG32::new(seed);
        let cave = make_cellular_caves(20, 20, &mut gen);
        assert_eq!(cave.get_width(), 20);
        assert_eq!(cave.get_height(), 20);
        let floors = floor_cells(&cave);
        // At least half the area survives the repair.
        assert!(floors.len() >= 200, "seed {}: {} floor cells", seed, floors.len());
        // Every floor cell reaches every other: one component.
        let (sx, sy) = floors[0];
        assert_eq!(connected_floor_count(&cave, sx, sy), floors.len());
    }
}

#[test]
fn cave_floor_stays_within_a_seed_band() {
    // Every floor cell is interior on each axis, or shares that axis with
    // one seed cell: the flood can walk along its seed's own row or column
    // but never onto any other border line.
    let mut gen = PCG32::new(31337);
    let cave = make_cellular_caves(20, 20, &mut gen);
    let floors = floor_cells(&cave);
    let band_ok = |s: (usize, usize)| {
        floors.iter().all(|&(x, y)| {
            ((1..=18).contains(&x) || x == s.0) && ((1..=18).contains(&y) || y == s.1)
        })
    };
    assert!(floors.iter().any(|&f| band_ok(f)), "no cell can serve as the flood seed");
}

#[test]
fn cave_generation_is_reproducible() {
    let mut gen_a = PCG32::new(123456789);
    let mut gen_b = PCG32::new(123456789);
    let cave_a = make_cellular_caves(20, 20, &mut gen_a);
    let cave_b = make_cellular_caves(20, 20, &mut gen_b);
    let mut floor_count: usize = 0;
    for y in 0..20 {
        for x in 0..20 {
            assert_eq!(cave_a.get(x, y), cave_b.get(x, y), "mismatch at ({}, {})", x, y);
            if !cave_a.get(x, y) {
                floor_count += 1;
            }
        }
    }
    // The cave is non-trivial: mostly open but with some wall.
    assert!(floor_count >= 200);
    assert!(floor_count < 400);
}
