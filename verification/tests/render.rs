use truck_puzzle::elem::{Car, Color, Dir, Elem, Type};
use truck_puzzle::render::{decimal, group, moves_text};
use truck_puzzle::solver::{Solution, Solver};
use truck_puzzle::vec2d::Vec2D;

fn red(s: &str) -> String {
    format!("\x1b[38;5;9m{}\x1b[0m", s)
}

fn blue(s: &str) -> String {
    format!("\x1b[38;5;4m{}\x1b[0m", s)
}

#[test]
fn group_sums_up_runs() {
    let r = Some(Dir::Right);
    let u = Some(Dir::Up);
    assert_eq!(group(vec![r, r, None, u, u, u, r]), vec![(r, 2), (None, 1), (u, 3), (r, 1)]);
    assert_eq!(group(vec![7u8]), vec![(7u8, 1)]);
    assert_eq!(group(vec![1u8, 1, 1]), vec![(1u8, 3)]);
    assert_eq!(group(Vec::<u8>::new()), vec![]);
}

#[test]
fn group_expands_back() {
    let v = vec![3u8, 3, 4, 4, 4, 3, 5, 5];
    let runs = group(v.clone());
    let mut back = Vec::new();
    for (x, n) in &runs {
        assert!(*n >= 1);
        for _ in 0..*n {
            back.push(*x);
        }
    }
    assert_eq!(back, v);
    for pair in runs.windows(2) {
        assert_ne!(pair[0].0, pair[1].0);
    }
}

#[test]
fn numbers_in_decimal() {
    assert_eq!(decimal(0), "0");
    assert_eq!(decimal(7), "7");
    assert_eq!(decimal(10), "10");
    assert_eq!(decimal(1234567890), "1234567890");
    assert_eq!(decimal(usize::MAX), format!("{}", usize::MAX));
}

#[test]
fn moves_are_summed_up_without_the_waits() {
    let runs = vec![(Some(Dir::Right), 3), (None, 2), (Some(Dir::Up), 12), (Some(Dir::Left), 1)];
    assert_eq!(moves_text(&runs), "3→ 12↑ 1← ");
    assert_eq!(moves_text(&vec![(None, 4)]), "");
    assert_eq!(moves_text(&vec![]), "");
    assert_eq!(moves_text(&group(vec![Some(Dir::Down), Some(Dir::Down), None])), "2↓ ");
}

#[test]
fn direction_arrows() {
    assert_eq!(Dir::Up.to_text(), "↑");
    assert_eq!(Dir::Right.to_text(), "→");
    assert_eq!(Dir::Down.to_text(), "↓");
    assert_eq!(Dir::Left.to_text(), "←");
}

#[test]
fn cell_texts() {
    let mut e = Elem::default();
    let mut text = |typ: Type| {
        e.typ = typ;
        e.to_text()
    };
    assert_eq!(text(Type::Empty), " ");
    assert_eq!(text(Type::Road), "x");
    assert_eq!(text(Type::DropOn), "D");
    assert_eq!(text(Type::DropOff), "d");
    assert_eq!(text(Type::PushedButton(Color::Red)), red("🔳"));
    assert_eq!(text(Type::ArmedButton(Color::Red)), red("🔲"));
    assert_eq!(text(Type::OpenBridge(Color::Red)), red("≋"));
    assert_eq!(text(Type::ClosedBridge(Color::Red)), red("⌒"));
    assert_eq!(text(Type::Cube(Color::Blue)), blue("📦"));
    assert_eq!(text(Type::House(Color::Blue)), blue("🏫"));
    assert_eq!(text(Type::FullHouse(Color::Blue)), blue("🏫"));
}

#[test]
fn car_text_is_a_truck_in_its_colour() {
    assert_eq!(Car::new(0, 0, Color::Red).to_text(), red("🚚"));
}

#[test]
fn grid_text_of_two_rows() {
    let m = Vec2D::<Elem>::from_str("x--r\n|   \nx  B");
    let expected = format!(
        "x--{}  \n|{}\nx  {}  \n{}",
        red("📦"),
        " ".repeat(5),
        blue("🏫"),
        " ".repeat(6),
    );
    assert_eq!(m.to_text(), expected);
}

#[test]
fn solution_is_drawn_in_the_colour_of_the_car() {
    let m = Vec2D::<Elem>::from_str("x--r--R\n|      \nx      ");
    let cars = vec![Car::new(0, 0, Color::Blue)];
    let mut s = Solver::new(m.clone(), cars.clone());
    let solution = s.solve().expect("a solution");
    let mut drawn = m.clone();
    assert!(drawn.keeps_inside(&solution, &cars));
    let expected = format!(
        "x{}{}{}{}  \n|{}\nx{}\n{}\n",
        blue("--"),
        red("📦"),
        blue("--"),
        red("🏫"),
        " ".repeat(8),
        " ".repeat(8),
        " ".repeat(9),
    );
    assert_eq!(drawn.solution_text(&solution, &cars), expected);
}

#[test]
fn later_car_paints_over_an_earlier_one() {
    let mut m = Vec2D::<Elem>::from_str("x--x\n|  |\nx--x");
    let cars = vec![Car::new(0, 0, Color::Red), Car::new(1, 0, Color::Blue)];
    let solution = Solution {
        dirs: vec![
            vec![Some(Dir::Right), Some(Dir::Left)],
            vec![Some(Dir::Down), Some(Dir::Down)],
            vec![None, Some(Dir::Up)],
        ],
        targets: vec![],
    };
    assert!(m.keeps_inside(&solution, &cars));
    let expected = format!(
        "x{}x  \n{}  {}  \nx--x  \n      \n",
        blue("--"),
        blue("|"),
        red("|"),
    );
    assert_eq!(m.solution_text(&solution, &cars), expected);
}

#[test]
fn drawing_switches_the_zones_of_the_solution_on() {
    let mut m = Vec2D::<Elem>::from_str("x--x--x");
    m.undl[1].typ = Type::DropOff;
    m.undl[2].typ = Type::DropOff;
    let solution = Solution { dirs: vec![], targets: vec![false, true] };
    let text = m.solution_text(&solution, &vec![]);
    assert_eq!(text, "x--d--D  \n         \n");
    assert_eq!(m.undl[1].typ, Type::DropOff);
    assert_eq!(m.undl[2].typ, Type::DropOn);
}

#[test]
fn drawing_counts_the_zones_that_are_on_already() {
    let mut m = Vec2D::<Elem>::from_str("x--x--x");
    m.undl[1].typ = Type::DropOn;
    m.undl[2].typ = Type::DropOff;
    // The one entry goes to the first zone, which is on already.
    let solution = Solution { dirs: vec![], targets: vec![true] };
    let text = m.solution_text(&solution, &vec![]);
    assert_eq!(text, "x--D--d  \n         \n");
    assert_eq!(m.undl[1].typ, Type::DropOn);
    assert_eq!(m.undl[2].typ, Type::DropOff);
    // The second entry goes to the second zone; a false entry leaves the first on.
    let solution = Solution { dirs: vec![], targets: vec![false, true] };
    let text = m.solution_text(&solution, &vec![]);
    assert_eq!(text, "x--D--D  \n         \n");
    assert_eq!(m.undl[1].typ, Type::DropOn);
    assert_eq!(m.undl[2].typ, Type::DropOn);
}

#[test]
fn solution_that_leaves_the_grid_cannot_be_drawn() {
    let m = Vec2D::<Elem>::from_str("x--x");
    let cars = vec![Car::new(0, 0, Color::Red)];
    let left = Solution { dirs: vec![vec![Some(Dir::Left)]], targets: vec![] };
    assert!(!m.keeps_inside(&left, &cars));
    let right = Solution { dirs: vec![vec![Some(Dir::Right)], vec![Some(Dir::Right)]], targets: vec![] };
    assert!(!m.keeps_inside(&right, &cars));
    let down = Solution { dirs: vec![vec![Some(Dir::Down)]], targets: vec![] };
    assert!(!m.keeps_inside(&down, &cars));
    let short = Solution { dirs: vec![vec![]], targets: vec![] };
    assert!(!m.keeps_inside(&short, &cars));
    let fine = Solution { dirs: vec![vec![Some(Dir::Right)], vec![Some(Dir::Left)]], targets: vec![] };
    assert!(m.keeps_inside(&fine, &cars));
    assert!(!m.keeps_inside(&fine, &vec![Car::new(2, 0, Color::Red)]));
}
