use roguelike_tutorial_2018::grid::Grid;
use roguelike_tutorial_2018::location::Location;

#[test]
fn neighbors_are_the_four_axis_steps() {
    let loc = Location { x: 3, y: -2 };
    let n = loc.neighbors();
    assert_eq!(n[0], Location { x: 4, y: -2 });
    assert_eq!(n[1], Location { x: 2, y: -2 });
    assert_eq!(n[2], Location { x: 3, y: -1 });
    assert_eq!(n[3], Location { x: 3, y: -3 });
}

#[test]
fn location_componentwise_arithmetic() {
    let a = Location { x: 3, y: 4 };
    let b = Location { x: -1, y: 10 };
    assert_eq!(a.plus(b), Location { x: 2, y: 14 });
    assert_eq!(a.minus(b), Location { x: 4, y: -6 });
}

#[test]
fn grid_set_and_get() {
    let mut g = Grid::new_filled(4, 3, true);
    assert_eq!(g.get_width(), 4);
    assert_eq!(g.get_height(), 3);
    assert!(g.get(2, 1));
    g.set(2, 1, false);
    assert!(!g.get(2, 1));
    assert!(g.get(1, 2));
    assert!(g.get(3, 0));
}
