use sokoban::geometry::{vec_plus, Direction};

#[test]
fn vec_plus_adds_each_component() {
    assert_eq!(vec_plus((1, 2), (3, -4)), (4, -2));
    assert_eq!(vec_plus((0, 0), (0, 0)), (0, 0));
    assert_eq!(vec_plus((-1, 7), (1, -7)), (0, 0));
}

#[test]
fn vec_plus_reaches_the_ends_of_the_range() {
    assert_eq!(vec_plus((i16::MAX - 1, i16::MIN + 1), (1, -1)), (i16::MAX, i16::MIN));
}

#[test]
fn vec_plus_steps_off_the_grid_edge() {
    assert_eq!(vec_plus((0, 0), Direction::Up.delta()), (-1, 0));
    assert_eq!(vec_plus((0, 0), Direction::Left.delta()), (0, -1));
}

#[test]
fn directions_are_the_four_unit_steps() {
    assert_eq!(Direction::Up.delta(), (-1, 0));
    assert_eq!(Direction::Down.delta(), (1, 0));
    assert_eq!(Direction::Left.delta(), (0, -1));
    assert_eq!(Direction::Right.delta(), (0, 1));
}
