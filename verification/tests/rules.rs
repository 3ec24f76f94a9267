use truck_puzzle::elem::{kind_known, Car, Color, Dir, Elem, Type};
use truck_puzzle::vec2d::Vec2D;

fn grid(layout: &str) -> Vec2D<Elem> {
    assert!(Vec2D::<Elem>::is_layout(layout));
    Vec2D::<Elem>::from_str(layout)
}

fn kinds(m: &Vec2D<Elem>) -> Vec<Type> {
    m.iter().map(|e| e.typ).collect()
}

#[test]
fn waiting_changes_nothing() {
    let mut m = grid("x--x");
    let mut car = Car::new(0, 0, Color::Red);
    assert!(m.move_car(&mut car, None));
    assert_eq!(car.coord, (0, 0));
    assert_eq!(m.undl[0].conn, [false, true, false, false]);
    assert_eq!(m.undl[1].conn, [false, false, false, true]);
    assert!(!m.undl[0].occupied);
}

#[test]
fn move_without_a_road_is_rejected_and_changes_nothing() {
    let mut m = grid("x  x");
    let mut car = Car::new(0, 0, Color::Red);
    assert!(!m.move_car(&mut car, Some(Dir::Right)));
    assert_eq!(car.coord, (0, 0));
    assert_eq!(kinds(&m), vec![Type::Road, Type::Road]);
}

#[test]
fn move_along_a_road_consumes_it_on_both_sides() {
    let mut m = grid("x--x--x");
    m.undl[0].occupied = true;
    let mut car = Car::new(0, 0, Color::Red);
    assert!(m.move_car(&mut car, Some(Dir::Right)));
    assert_eq!(car.coord, (1, 0));
    assert_eq!(m.undl[0].conn, [false; 4]);
    assert!(!m.undl[0].occupied);
    assert_eq!(m.undl[1].conn, [false, true, false, false]);
    assert!(m.undl[1].occupied);
    // The way back is gone.
    assert!(!m.move_car(&mut car, Some(Dir::Left)));
    assert_eq!(car.coord, (1, 0));
}

#[test]
fn vertical_moves_change_the_row() {
    let mut m = grid("x\n|\nx");
    let mut car = Car::new(0, 0, Color::Red);
    assert!(m.move_car(&mut car, Some(Dir::Down)));
    assert_eq!(car.coord, (0, 1));
    let mut m = grid("x\n|\nx");
    let mut car = Car::new(0, 1, Color::Red);
    assert!(m.move_car(&mut car, Some(Dir::Up)));
    assert_eq!(car.coord, (0, 0));
}

#[test]
fn occupied_destination_rejects_but_keeps_the_departure() {
    let mut m = grid("x--x");
    m.undl[0].occupied = true;
    m.undl[1].occupied = true;
    let mut car = Car::new(0, 0, Color::Red);
    assert!(!m.move_car(&mut car, Some(Dir::Right)));
    // The segment is consumed and the car has left its cell all the same.
    assert_eq!(m.undl[0].conn, [false; 4]);
    assert!(!m.undl[0].occupied);
    assert_eq!(car.coord, (1, 0));
    // The destination is as it was.
    assert_eq!(m.undl[1].conn, [false, false, false, true]);
    assert!(m.undl[1].occupied);
}

#[test]
fn empty_cell_rejects() {
    let mut m = grid("x-- ");
    // A road that leads to an empty cell.
    m.undl[0].connect(Dir::Right);
    let mut car = Car::new(0, 0, Color::Red);
    assert!(!m.move_car(&mut car, Some(Dir::Right)));
}

#[test]
fn cube_is_taken_and_leaves_a_road() {
    let mut m = grid("x--g");
    let mut car = Car::new(0, 0, Color::Red);
    assert!(m.move_car(&mut car, Some(Dir::Right)));
    assert_eq!(car.cubes, vec![Type::Cube(Color::Green)]);
    assert_eq!(m.undl[1].typ, Type::Road);
}

#[test]
fn fourth_cube_is_rejected() {
    let mut m = grid("x--r--g--b--y");
    let mut car = Car::new(0, 0, Color::Red);
    for _ in 0..3 {
        assert!(m.move_car(&mut car, Some(Dir::Right)));
    }
    assert_eq!(
        car.cubes,
        vec![Type::Cube(Color::Red), Type::Cube(Color::Green), Type::Cube(Color::Blue)]
    );
    assert!(!m.move_car(&mut car, Some(Dir::Right)));
    assert_eq!(car.cubes.len(), 3);
    assert_eq!(m.undl[4].typ, Type::Cube(Color::Yellow));
}

#[test]
fn house_without_cargo_rejects() {
    let mut m = grid("x--R");
    let mut car = Car::new(0, 0, Color::Red);
    assert!(!m.move_car(&mut car, Some(Dir::Right)));
    assert_eq!(m.undl[1].typ, Type::House(Color::Red));
}

#[test]
fn house_takes_the_top_cube_of_its_colour() {
    let mut m = grid("x--g--r--R");
    let mut car = Car::new(0, 0, Color::Red);
    for _ in 0..3 {
        assert!(m.move_car(&mut car, Some(Dir::Right)));
    }
    assert_eq!(m.undl[3].typ, Type::FullHouse(Color::Red));
    assert_eq!(car.cubes, vec![Type::Cube(Color::Green)]);
}

#[test]
fn house_rejects_a_top_cube_of_another_colour() {
    let mut m = grid("x--r--g--R");
    let mut car = Car::new(0, 0, Color::Red);
    assert!(m.move_car(&mut car, Some(Dir::Right)));
    assert!(m.move_car(&mut car, Some(Dir::Right)));
    assert!(!m.move_car(&mut car, Some(Dir::Right)));
    assert_eq!(m.undl[3].typ, Type::House(Color::Red));
    assert_eq!(car.cubes.len(), 2);
}

#[test]
fn full_house_rejects() {
    let mut m = grid("x--R");
    m.undl[1].typ = Type::FullHouse(Color::Red);
    let mut car = Car::new(0, 0, Color::Red);
    car.cubes.push(Type::Cube(Color::Red));
    assert!(!m.move_car(&mut car, Some(Dir::Right)));
    assert_eq!(car.cubes.len(), 1);
}

#[test]
fn bridges_and_pushed_button() {
    let mut m = grid("x--~p");
    let mut car = Car::new(0, 0, Color::Red);
    assert!(!m.move_car(&mut car, Some(Dir::Right)));
    let mut m = grid("x--#p-vp-x");
    let mut car = Car::new(0, 0, Color::Red);
    assert!(m.move_car(&mut car, Some(Dir::Right)));
    assert!(m.move_car(&mut car, Some(Dir::Right)));
    assert_eq!(
        kinds(&m),
        vec![
            Type::Road,
            Type::ClosedBridge(Color::Pink),
            Type::PushedButton(Color::Pink),
            Type::Road
        ]
    );
}

#[test]
fn armed_button_flips_its_colour_only() {
    let mut m = grid("x--^p-vp-~p-#p-^o-vo-~o-#o-r--R--x");
    let before = m.clone();
    let mut car = Car::new(0, 0, Color::Red);
    assert!(m.move_car(&mut car, Some(Dir::Right)));
    assert_eq!(
        kinds(&m),
        vec![
            Type::Road,
            Type::PushedButton(Color::Pink),
            Type::ArmedButton(Color::Pink),
            Type::ClosedBridge(Color::Pink),
            Type::OpenBridge(Color::Pink),
            Type::ArmedButton(Color::Orange),
            Type::PushedButton(Color::Orange),
            Type::OpenBridge(Color::Orange),
            Type::ClosedBridge(Color::Orange),
            Type::Cube(Color::Red),
            Type::House(Color::Red),
            Type::Road,
        ]
    );
    // Nothing but the kinds changed away from the two cells of the move.
    for i in 2..m.undl.len() {
        assert_eq!(m.undl[i].conn, before.undl[i].conn);
        assert_eq!(m.undl[i].occupied, before.undl[i].occupied);
    }
}

#[test]
fn pressing_twice_restores_the_kinds() {
    let mut m = grid("x--^p-^p-#p-~p-vp");
    let before = kinds(&m);
    let mut car = Car::new(0, 0, Color::Red);
    assert!(m.move_car(&mut car, Some(Dir::Right)));
    assert_eq!(
        kinds(&m),
        vec![
            Type::Road,
            Type::PushedButton(Color::Pink),
            Type::PushedButton(Color::Pink),
            Type::OpenBridge(Color::Pink),
            Type::ClosedBridge(Color::Pink),
            Type::ArmedButton(Color::Pink),
        ]
    );
    // The second button was pushed with the first: arm it again.
    m.undl[2].typ = Type::ArmedButton(Color::Pink);
    assert!(m.move_car(&mut car, Some(Dir::Right)));
    let mut expected = before.clone();
    expected[2] = Type::PushedButton(Color::Pink);
    assert_eq!(kinds(&m), expected);
}

#[test]
fn drop_zone_switched_on_takes_the_top_cube() {
    let mut m = grid("x--r--b--x");
    m.undl[3].typ = Type::DropOn;
    let mut car = Car::new(0, 0, Color::Red);
    for _ in 0..3 {
        assert!(m.move_car(&mut car, Some(Dir::Right)));
    }
    assert_eq!(m.undl[3].typ, Type::Cube(Color::Blue));
    assert_eq!(car.cubes, vec![Type::Cube(Color::Red)]);
}

#[test]
fn drop_zone_switched_on_without_cargo_switches_off() {
    let mut m = grid("x--x");
    m.undl[1].typ = Type::DropOn;
    let mut car = Car::new(0, 0, Color::Red);
    assert!(m.move_car(&mut car, Some(Dir::Right)));
    assert_eq!(m.undl[1].typ, Type::DropOff);
    assert!(car.cubes.is_empty());
}

#[test]
fn drop_zone_switched_off_does_nothing() {
    let mut m = grid("x--r--x");
    m.undl[2].typ = Type::DropOff;
    let mut car = Car::new(0, 0, Color::Red);
    assert!(m.move_car(&mut car, Some(Dir::Right)));
    assert!(m.move_car(&mut car, Some(Dir::Right)));
    assert_eq!(m.undl[2].typ, Type::DropOff);
    assert_eq!(car.cubes, vec![Type::Cube(Color::Red)]);
}

#[test]
fn same_inputs_give_the_same_verdict() {
    for layout in ["x--r", "x--R", "x--~p", "x--#p", "x  x", "x--^p"] {
        let mut a = grid(layout);
        let mut b = grid(layout);
        let mut car_a = Car::new(0, 0, Color::Red);
        let mut car_b = Car::new(0, 0, Color::Blue);
        let ok_a = a.move_car(&mut car_a, Some(Dir::Right));
        let ok_b = b.move_car(&mut car_b, Some(Dir::Right));
        assert_eq!(ok_a, ok_b);
        assert_eq!(kinds(&a), kinds(&b));
        assert_eq!(car_a.coord, car_b.coord);
    }
}

#[test]
fn check_finds_a_car_on_an_open_bridge() {
    let m = grid("x--~p-x");
    assert!(m.check(&vec![Car::new(0, 0, Color::Red), Car::new(2, 0, Color::Blue)]));
    assert!(!m.check(&vec![Car::new(0, 0, Color::Red), Car::new(1, 0, Color::Blue)]));
    assert!(m.check(&vec![]));
}

#[test]
fn contained_grids_are_recognised() {
    let mut m = grid("x--x\n|  |\nx--x");
    assert!(m.is_contained());
    m.undl[1].connect(Dir::Right);
    assert!(!m.is_contained());
    let mut m = grid("x--x");
    m.undl[0].connect(Dir::Up);
    assert!(!m.is_contained());
}

#[test]
fn directions_reverse() {
    assert_eq!(Dir::Up.rev(), Dir::Down);
    assert_eq!(Dir::Down.rev(), Dir::Up);
    assert_eq!(Dir::Left.rev(), Dir::Right);
    assert_eq!(Dir::Right.rev(), Dir::Left);
    for d in [Dir::Up, Dir::Right, Dir::Down, Dir::Left] {
        assert_eq!(d.rev().rev(), d);
    }
    assert_eq!(
        [Dir::Up.index(), Dir::Right.index(), Dir::Down.index(), Dir::Left.index()],
        [0, 1, 2, 3]
    );
}

#[test]
fn colours_from_letters() {
    assert_eq!(Color::from_char('r'), Some(Color::Red));
    assert_eq!(Color::from_char('g'), Some(Color::Green));
    assert_eq!(Color::from_char('b'), Some(Color::Blue));
    assert_eq!(Color::from_char('y'), Some(Color::Yellow));
    assert_eq!(Color::from_char('w'), Some(Color::White));
    assert_eq!(Color::from_char('o'), Some(Color::Orange));
    assert_eq!(Color::from_char('v'), Some(Color::Violet));
    assert_eq!(Color::from_char('p'), Some(Color::Pink));
    assert_eq!(Color::from_char('c'), Some(Color::Cream));
    assert_eq!(Color::from_char('R'), None);
    assert_eq!(Color::from_char(' '), None);
}

#[test]
fn colorize_wraps_in_escape_and_reset() {
    assert_eq!(Color::Red.colorize("ab"), "\x1b[38;5;9mab\x1b[0m");
    assert_eq!(Color::Green.colorize(""), "\x1b[38;5;10m\x1b[0m");
    assert_eq!(Color::Blue.colorize("x"), "\x1b[38;5;4mx\x1b[0m");
    assert_eq!(Color::Yellow.colorize("x"), "\x1b[38;5;11mx\x1b[0m");
    assert_eq!(Color::White.colorize("x"), "\x1b[38;5;234mx\x1b[0m");
    assert_eq!(Color::Orange.colorize("x"), "\x1b[38;5;202mx\x1b[0m");
    assert_eq!(Color::Violet.colorize("x"), "\x1b[38;5;5mx\x1b[0m");
    assert_eq!(Color::Pink.colorize("x"), "\x1b[38;5;207mx\x1b[0m");
    assert_eq!(Color::Cream.colorize("x"), "\x1b[38;5;223mx\x1b[0m");
}

#[test]
fn cells_from_characters() {
    let cases = [
        ('x', ' ', Type::Road),
        ('r', ' ', Type::Cube(Color::Red)),
        ('R', ' ', Type::House(Color::Red)),
        ('g', ' ', Type::Cube(Color::Green)),
        ('G', ' ', Type::House(Color::Green)),
        ('b', ' ', Type::Cube(Color::Blue)),
        ('B', ' ', Type::House(Color::Blue)),
        ('y', ' ', Type::Cube(Color::Yellow)),
        ('Y', ' ', Type::House(Color::Yellow)),
        ('v', 'p', Type::PushedButton(Color::Pink)),
        ('^', 'v', Type::ArmedButton(Color::Violet)),
        ('~', 'o', Type::OpenBridge(Color::Orange)),
        ('#', 'c', Type::ClosedBridge(Color::Cream)),
        (' ', ' ', Type::Empty),
        ('.', 'p', Type::Empty),
    ];
    for (c, x, typ) in cases {
        assert!(kind_known(c, x));
        let e = Elem::from_char(c, x);
        assert_eq!(e.typ, typ);
        assert_eq!(e.conn, [false; 4]);
        assert!(!e.occupied);
    }
    assert!(!kind_known('v', ' '));
    assert!(!kind_known('^', 'x'));
    assert!(!kind_known('~', 'R'));
    assert!(!kind_known('#', '-'));
}

#[test]
fn default_cell_is_empty() {
    let e = Elem::default();
    assert_eq!(e.typ, Type::Empty);
    assert_eq!(e.conn, [false; 4]);
    assert!(!e.occupied);
}

#[test]
fn connect_and_disconnect_one_segment() {
    let mut e = Elem::default();
    e.connect(Dir::Down);
    assert!(e.connected(Dir::Down));
    assert!(!e.connected(Dir::Up));
    assert_eq!(e.conn, [false, false, true, false]);
    e.connect(Dir::Left);
    e.disconnect(Dir::Down);
    assert_eq!(e.conn, [false, false, false, true]);
}

#[test]
fn car_rolls_one_cell() {
    let mut car = Car::new(3, 4, Color::Blue);
    assert_eq!(car.color, Color::Blue);
    assert!(car.cubes.is_empty());
    car.roll(Dir::Left);
    assert_eq!(car.coord, (2, 4));
    car.roll(Dir::Up);
    assert_eq!(car.coord, (2, 3));
    car.roll(Dir::Right);
    car.roll(Dir::Right);
    assert_eq!(car.coord, (4, 3));
    car.roll(Dir::Down);
    assert_eq!(car.coord, (4, 4));
}

#[test]
fn container_is_row_major() {
    let mut v: Vec2D<u8> = Vec2D::new(3, 2);
    assert_eq!(v.width, 3);
    assert_eq!(v.height, 2);
    assert_eq!(v.undl, vec![0u8; 6]);
    v.set(2, 0, 7);
    v.set(0, 1, 9);
    assert_eq!(*v.get(2, 0), 7);
    assert_eq!(*v.get(0, 1), 9);
    assert_eq!(v.undl, vec![0, 0, 7, 9, 0, 0]);
    assert_eq!(v.iter().copied().collect::<Vec<u8>>(), vec![0, 0, 7, 9, 0, 0]);
    assert_eq!(v[(2, 0)], 7);
    assert_eq!(v[(0, 1)], 9);
    v[(1, 1)] = 4;
    assert_eq!(v.undl, vec![0, 0, 7, 9, 4, 0]);
    v[(1, 1)] = 0;
    let w = v.clone();
    assert_eq!(w.undl, v.undl);
    assert_eq!((w.width, w.height), (3, 2));
    let empty: Vec2D<u8> = Vec2D::new(0, 5);
    assert!(empty.undl.is_empty());
}

#[test]
fn flagged_cars_never_share_a_cell() {
    let mut m = grid("x--x--x--x");
    m.undl[0].occupied = true;
    m.undl[2].occupied = true;
    let mut cars = vec![Car::new(0, 0, Color::Red), Car::new(2, 0, Color::Blue)];
    assert!(m.move_car(&mut cars[0], Some(Dir::Right)));
    assert_ne!(cars[0].coord, cars[1].coord);
    // The next cell holds the other car.
    let mut probe = m.clone();
    let mut first = cars[0].clone();
    assert!(!probe.move_car(&mut first, Some(Dir::Right)));
    // Once the other car has moved on, the cell is free.
    assert!(m.move_car(&mut cars[1], Some(Dir::Right)));
    assert!(m.move_car(&mut cars[0], Some(Dir::Right)));
    assert_eq!(cars[0].coord, (2, 0));
    assert_eq!(cars[1].coord, (3, 0));
    for (i, e) in m.undl.iter().enumerate() {
        assert_eq!(e.occupied, i == 2 || i == 3);
    }
}
