use roguelike_tutorial_2018::precise_permissive_fov::{ppfov, FovView, Line};

#[test]
fn line_tests() {
    let line_a = Line::new(0, 0, 1, 1);
    let line_b = Line::new(2, 2, 3, 3);
    assert!(line_a.collinear_line(line_b));

    assert!(line_a.collinear_p(0, 0));
    assert!(line_a.above_or_collinear_p(0, 0));
    assert!(line_a.above_p(1, 0));

    assert!(line_a.below_or_collinear_p(0, 1));
    assert!(line_a.below_p(0, 1));
}

#[test]
fn view_tests() {
    // the red line in `week03-04.png`
    let shallow_line = Line::new(0, 1, 5, 0);
    // the blue line in `week03-04.png`
    let steep_line = Line::new(1, 0, 0, 5);
    let mut the_view = FovView::new(shallow_line, steep_line);

    // add square 5's lower-right as a steep bump
    the_view.add_steep_bump(1, 2);

    // We should now look like `week03-05.png`, with the steep line being vertical
    // up from (1,0)
    assert!(the_view.steep_line.collinear_p(1, 1));
    assert!(the_view.shallow_line.collinear_line(shallow_line));

    // let's move to `week03-06.png`.
    // * we clone the view
    // * one view is steep bumped by 7's lower-right
    // * the other view is shallow bumped by 7's upper-left
    let mut red_blue_view = the_view.clone();
    let mut yellow_purple_view = the_view.clone();

    red_blue_view.add_steep_bump(3, 1);
    red_blue_view.shallow_line.collinear_p(3, 1);

    yellow_purple_view.add_shallow_bump(2, 2);
    yellow_purple_view.steep_line.collinear_p(2, 2);
}

#[test]
fn open_grid_visits_full_square_once() {
    // With nothing opaque, a radius-3 sweep reports exactly the square of
    // half-width 3 around the origin, origin first, each cell once.
    let visited = ppfov((10, 10), 3, |_x, _y| false);
    assert_eq!(visited[0], (10, 10));
    assert_eq!(visited.len(), 49);
    for x in 7..=13 {
        for y in 7..=13 {
            assert!(visited.contains(&(x, y)), "missing ({}, {})", x, y);
        }
    }
    for (i, a) in visited.iter().enumerate() {
        for b in visited.iter().skip(i + 1) {
            assert_ne!(a, b);
        }
    }
}

#[test]
fn single_pillar_blocks_line_behind_it() {
    // One opaque cell directly east of the origin blocks exactly the cells
    // straight behind it; everything to the side stays visible.
    let origin = (3, 3);
    let visited = ppfov(origin, 5, |x, y| (x, y) == (4, 3));
    // The pillar itself is seen.
    assert!(visited.contains(&(4, 3)));
    // The cells strictly behind it along its covered angular range are not.
    for x in 5..=8 {
        assert!(!visited.contains(&(x, 3)), "({}, 3) should be hidden", x);
    }
    // Every other cell of the square is seen.
    for x in -2..=8 {
        for y in -2..=8 {
            if y == 3 && x >= 5 {
                continue;
            }
            assert!(visited.contains(&(x, y)), "missing ({}, {})", x, y);
        }
    }
    // No duplicates.
    for (i, a) in visited.iter().enumerate() {
        for b in visited.iter().skip(i + 1) {
            assert_ne!(a, b);
        }
    }
}

#[test]
fn single_pillar_to_the_north_blocks_symmetrically() {
    // The same occlusion happens in every direction: a pillar directly
    // north hides exactly the column behind it.
    let origin = (0, 0);
    let visited = ppfov(origin, 4, |x, y| (x, y) == (0, 1));
    assert!(visited.contains(&(0, 1)));
    for y in 2..=4 {
        assert!(!visited.contains(&(0, y)), "(0, {}) should be hidden", y);
    }
    assert!(visited.contains(&(1, 2)));
    assert!(visited.contains(&(-1, 2)));
}

#[test]
fn zero_radius_sees_only_origin() {
    let visited = ppfov((0, 0), 0, |_x, _y| false);
    assert_eq!(visited, vec![(0, 0)]);
}
