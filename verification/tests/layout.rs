use truck_puzzle::elem::{Color, Elem, Type};
use truck_puzzle::vec2d::Vec2D;

#[test]
fn layout_of_three_by_two() {
    let text = "x  r--R\n|  |   \nx--x   ";
    assert!(Vec2D::<Elem>::is_layout(text));
    let m = Vec2D::<Elem>::from_str(text);
    assert_eq!((m.width, m.height), (3, 2));
    assert_eq!(m.undl.len(), 6);
    let kinds: Vec<Type> = m.undl.iter().map(|e| e.typ).collect();
    assert_eq!(
        kinds,
        vec![
            Type::Road,
            Type::Cube(Color::Red),
            Type::House(Color::Red),
            Type::Road,
            Type::Road,
            Type::Empty,
        ]
    );
    // Flags are up, right, down, left.
    assert_eq!(m.get(0, 0).conn, [false, false, true, false]);
    assert_eq!(m.get(1, 0).conn, [false, true, true, false]);
    assert_eq!(m.get(2, 0).conn, [false, false, false, true]);
    assert_eq!(m.get(0, 1).conn, [true, true, false, false]);
    assert_eq!(m.get(1, 1).conn, [true, false, false, true]);
    assert_eq!(m.get(2, 1).conn, [false; 4]);
    assert!(m.undl.iter().all(|e| !e.occupied));
    assert!(m.is_contained());
}

#[test]
fn layout_with_buttons_and_bridges() {
    let m = Vec2D::<Elem>::from_str("x--^p-~v-#o-vc");
    assert_eq!((m.width, m.height), (5, 1));
    let kinds: Vec<Type> = m.undl.iter().map(|e| e.typ).collect();
    assert_eq!(
        kinds,
        vec![
            Type::Road,
            Type::ArmedButton(Color::Pink),
            Type::OpenBridge(Color::Violet),
            Type::ClosedBridge(Color::Orange),
            Type::PushedButton(Color::Cream),
        ]
    );
    for x in 0..4 {
        assert!(m.get(x, 0).conn[1]);
        assert!(m.get(x + 1, 0).conn[3]);
    }
}

#[test]
fn layout_ends_at_the_first_empty_line() {
    let text = "x--x\n|   \nx--x\n\nR--R\n";
    assert!(Vec2D::<Elem>::is_layout(text));
    let m = Vec2D::<Elem>::from_str(text);
    // Twenty-one characters by a width of four give a height of five, so three rows.
    assert_eq!((m.width, m.height), (2, 3));
    assert_eq!(m.get(0, 1).typ, Type::Road);
    assert_eq!(m.get(0, 2).typ, Type::Empty);
    assert_eq!(m.get(1, 2).typ, Type::Empty);
}

#[test]
fn layout_with_trailing_line_break() {
    let m = Vec2D::<Elem>::from_str("x--r--R\n");
    assert_eq!((m.width, m.height), (3, 1));
    assert_eq!(m.get(2, 0).typ, Type::House(Color::Red));
}

#[test]
fn tall_and_narrow_layout_gets_spare_rows() {
    let text = "x\n|\nx";
    assert!(Vec2D::<Elem>::is_layout(text));
    let m = Vec2D::<Elem>::from_str(text);
    // Five characters in lines of one: height five, so three rows.
    assert_eq!((m.width, m.height), (1, 3));
    assert_eq!(m.get(0, 0).conn, [false, false, true, false]);
    assert_eq!(m.get(0, 1).conn, [true, false, false, false]);
    assert_eq!(m.get(0, 1).typ, Type::Road);
    assert_eq!(m.get(0, 2).typ, Type::Empty);
}

#[test]
fn unknown_characters_are_empty_cells() {
    let m = Vec2D::<Elem>::from_str(".  x  ?");
    let kinds: Vec<Type> = m.undl.iter().map(|e| e.typ).collect();
    assert_eq!(kinds, vec![Type::Empty, Type::Road, Type::Empty]);
}

#[test]
fn texts_that_are_no_layout() {
    // No first line.
    assert!(!Vec2D::<Elem>::is_layout(""));
    assert!(!Vec2D::<Elem>::is_layout("\nx--x"));
    // A button or a bridge without a colour.
    assert!(!Vec2D::<Elem>::is_layout("x--^ -x"));
    assert!(!Vec2D::<Elem>::is_layout("x--#"));
    assert!(!Vec2D::<Elem>::is_layout("x--vx"));
    // A road that leaves the grid on the right.
    assert!(!Vec2D::<Elem>::is_layout("x--"));
    // A road that leaves the grid at the bottom.
    assert!(!Vec2D::<Elem>::is_layout("xxxxxxxxx\n|\nx\n|\nx"));
    // A line with a cell beyond the width that the first line gives.
    assert!(!Vec2D::<Elem>::is_layout("x\n|\nx--x"));
    assert!(Vec2D::<Elem>::parse("x--").is_none());
    assert!(Vec2D::<Elem>::parse("").is_none());
}

#[test]
fn parse_gives_the_grid_of_a_layout() {
    let m = Vec2D::<Elem>::parse("x--r").expect("a layout");
    assert_eq!((m.width, m.height), (2, 1));
    assert_eq!(m.get(1, 0).typ, Type::Cube(Color::Red));
    assert_eq!(m.get(1, 0).conn, [false, false, false, true]);
}

#[test]
fn layout_counts_characters() {
    // An unknown character outside ASCII is one character, and an empty cell.
    let m = Vec2D::<Elem>::from_str("é--x");
    assert_eq!((m.width, m.height), (2, 1));
    assert_eq!(m.get(0, 0).typ, Type::Empty);
    assert_eq!(m.get(1, 0).typ, Type::Road);
}

#[test]
fn puzzle_map_is_the_grid_of_cells() {
    let m: truck_puzzle::map::PuzzleMap = Vec2D::<Elem>::from_str("x--r");
    assert_eq!((m.width, m.height), (2, 1));
    assert!(truck_puzzle::map::PuzzleMap::is_layout("x--r"));
}

#[test]
fn house_that_no_road_reaches_has_no_solution() {
    // The car can drive around, but no road leads to the house.
    let m = Vec2D::<Elem>::from_str("x--r--x  R\n|     |   \nx--x--x   ");
    let mut s = truck_puzzle::solver::Solver::new(
        m,
        vec![truck_puzzle::elem::Car::new(0, 0, Color::Red)],
    );
    assert!(s.solve().is_none());
}
