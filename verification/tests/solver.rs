use truck_puzzle::elem::{Car, Color, Dir, Elem, Type};
use truck_puzzle::solver::{configure, count_zones, Misfit, Solution, Solver};
use truck_puzzle::vec2d::Vec2D;

fn grid(layout: &str) -> Vec2D<Elem> {
    assert!(Vec2D::<Elem>::is_layout(layout));
    Vec2D::<Elem>::from_str(layout)
}

fn has_house(m: &Vec2D<Elem>) -> bool {
    m.undl.iter().any(|e| matches!(e.typ, Type::House(_)))
}

/// Plays a solution on the grid it was found for and returns the grid.
fn replay(mut m: Vec2D<Elem>, mut cars: Vec<Car>, solution: &Solution) -> Vec2D<Elem> {
    let mut zone = 0;
    for e in m.undl.iter_mut() {
        if let Type::DropOff = e.typ {
            if solution.targets[zone] {
                e.typ = Type::DropOn;
            }
            zone += 1;
        }
    }
    for moves in &solution.dirs {
        for (car, dir) in cars.iter_mut().zip(moves) {
            assert!(m.move_car(car, *dir));
        }
        assert!(m.check(&cars));
    }
    m
}

#[test]
fn cube_then_house_takes_two_ticks() {
    let m = grid("x--r--R");
    let cars = vec![Car::new(0, 0, Color::Red)];
    let mut s = Solver::new(m.clone(), cars.clone());
    let solution = s.solve().expect("a solution");
    assert_eq!(solution.dirs, vec![vec![Some(Dir::Right)], vec![Some(Dir::Right)]]);
    assert_eq!(solution.targets, Vec::<bool>::new());
    let after = replay(m, cars, &solution);
    assert!(!has_house(&after));
    assert!(matches!(after.undl[1].typ, Type::Road));
    assert!(matches!(after.undl[2].typ, Type::FullHouse(Color::Red)));
}

#[test]
fn cube_then_house_around_the_corner() {
    let m = grid("x  r--R\n|  |   \nx--x   ");
    let cars = vec![Car::new(0, 0, Color::Red)];
    let mut s = Solver::new(m.clone(), cars.clone());
    let solution = s.solve().expect("a solution");
    assert_eq!(
        solution.dirs,
        vec![
            vec![Some(Dir::Down)],
            vec![Some(Dir::Right)],
            vec![Some(Dir::Up)],
            vec![Some(Dir::Right)],
        ]
    );
    assert!(!has_house(&replay(m, cars, &solution)));
}

#[test]
fn house_out_of_reach_has_no_solution() {
    let m = grid("x--r  R");
    let mut s = Solver::new(m, vec![Car::new(0, 0, Color::Red)]);
    assert!(s.solve().is_none());
}

#[test]
fn house_without_any_road_has_no_solution() {
    let m = grid("x  R");
    let mut s = Solver::new(m, vec![Car::new(0, 0, Color::Red)]);
    assert!(s.solve().is_none());
}

#[test]
fn button_is_reached_before_the_bridge_is_crossed() {
    // The bridge is open, so impassable, until the button closes it.
    let m = grid("x--^p-~p-r--R");
    let cars = vec![Car::new(0, 0, Color::Red)];
    let mut s = Solver::new(m.clone(), cars.clone());
    let solution = s.solve().expect("a solution");
    assert_eq!(solution.dirs, vec![vec![Some(Dir::Right)]; 4]);
    // Tick 0 reaches the button at column 1, tick 1 crosses the bridge at column 2.
    let mut probe = m.clone();
    let mut car = cars[0].clone();
    assert!(probe.move_car(&mut car, solution.dirs[0][0]));
    assert_eq!(car.coord, (1, 0));
    assert!(matches!(probe.undl[1].typ, Type::PushedButton(Color::Pink)));
    assert!(matches!(probe.undl[2].typ, Type::ClosedBridge(Color::Pink)));
    assert!(probe.move_car(&mut car, solution.dirs[1][0]));
    assert_eq!(car.coord, (2, 0));
    assert!(!has_house(&replay(m, cars, &solution)));
}

#[test]
fn button_that_opens_the_bridge_on_the_only_path() {
    let m = grid("x--^p-#p-r--R");
    let mut s = Solver::new(m, vec![Car::new(0, 0, Color::Red)]);
    assert!(s.solve().is_none());
}

#[test]
fn open_bridge_without_button_blocks() {
    let m = grid("x--~p-r--R");
    let mut s = Solver::new(m, vec![Car::new(0, 0, Color::Red)]);
    assert!(s.solve().is_none());
}

#[test]
fn no_house_is_solved_by_the_first_accepted_move() {
    let m = grid("x--x--x");
    let mut s = Solver::new(m, vec![Car::new(1, 0, Color::Red)]);
    let solution = s.solve().expect("a solution");
    assert_eq!(solution.dirs, vec![vec![Some(Dir::Left)]]);
    assert_eq!(solution.targets, Vec::<bool>::new());
}

#[test]
fn no_house_and_no_legal_move_has_no_solution() {
    let m = grid("x  x");
    let mut s = Solver::new(m, vec![Car::new(0, 0, Color::Red)]);
    assert!(s.solve().is_none());
}

#[test]
fn no_car_has_no_solution() {
    let m = grid("x--R");
    let mut s = Solver::new(m, vec![]);
    assert!(s.solve().is_none());
}

#[test]
fn two_cars_each_deliver() {
    let m = grid("x--r--R  B--b--x");
    let cars = vec![Car::new(0, 0, Color::Red), Car::new(5, 0, Color::Blue)];
    let mut s = Solver::new(m.clone(), cars.clone());
    let solution = s.solve().expect("a solution");
    assert_eq!(solution.dirs.len(), 2);
    for moves in &solution.dirs {
        assert_eq!(moves.len(), 2);
    }
    assert!(!has_house(&replay(m, cars, &solution)));
}

#[test]
fn idle_car_never_moves_again_in_a_solution() {
    let m = grid("x--r--x--R  B--b--x");
    let cars = vec![Car::new(0, 0, Color::Red), Car::new(6, 0, Color::Blue)];
    let mut s = Solver::new(m.clone(), cars.clone());
    let solution = s.solve().expect("a solution");
    for i in 0..cars.len() {
        let mut stopped = false;
        for moves in &solution.dirs {
            if stopped {
                assert!(moves[i].is_none());
            }
            if moves[i].is_none() {
                stopped = true;
            }
        }
    }
    for moves in &solution.dirs {
        assert!(moves.iter().any(|d| d.is_some()));
    }
    assert!(!has_house(&replay(m, cars, &solution)));
}

#[test]
fn cargo_never_exceeds_three_along_a_solution() {
    let m = grid("x--r--r--r--r--R");
    let cars = vec![Car::new(0, 0, Color::Red)];
    let mut s = Solver::new(m, cars);
    // The fourth cube cannot be taken, so the house is out of reach.
    assert!(s.solve().is_none());
    let mut m = grid("x--r--r--r--R");
    let mut car = Car::new(0, 0, Color::Red);
    for _ in 0..4 {
        assert!(m.move_car(&mut car, Some(Dir::Right)));
        assert!(car.cubes.len() <= 3);
    }
    assert_eq!(car.cubes.len(), 2);
}

#[test]
fn zone_must_be_switched_on_to_uncover_the_red_cube() {
    let mut m = grid("x--r--b--x--R");
    m.undl[3].typ = Type::DropOff;
    let cars = vec![Car::new(0, 0, Color::Red)];
    let mut s = Solver::new(m.clone(), cars.clone());
    let solution = s.solve().expect("a solution");
    assert_eq!(solution.targets, vec![true]);
    assert_eq!(solution.dirs, vec![vec![Some(Dir::Right)]; 4]);
    let after = replay(m, cars, &solution);
    assert!(!has_house(&after));
    assert!(matches!(after.undl[3].typ, Type::Cube(Color::Blue)));
}

#[test]
fn first_assignment_with_a_path_wins() {
    let mut m = grid("x--r--x--R");
    m.undl[2].typ = Type::DropOff;
    let cars = vec![Car::new(0, 0, Color::Red)];
    let mut s = Solver::new(m, cars);
    let solution = s.solve().expect("a solution");
    assert_eq!(solution.targets, vec![false]);
    assert_eq!(solution.dirs, vec![vec![Some(Dir::Right)]; 3]);
}

#[test]
fn misplaced_car_is_named() {
    let m = grid("x--r--R");
    let cars = vec![Car::new(2, 0, Color::Red), Car::new(3, 0, Color::Blue), Car::new(0, 1, Color::Green)];
    match Solver::try_new(m, cars) {
        Err(misfit) => assert_eq!(misfit, Misfit::Car { index: 1, x: 3, y: 0 }),
        Ok(_) => panic!("a car outside the grid was accepted"),
    }
    let m = grid("x--r--R");
    match Solver::try_new(m, vec![Car::new(0, 1, Color::Green)]) {
        Err(misfit) => assert_eq!(misfit, Misfit::Car { index: 0, x: 0, y: 1 }),
        Ok(_) => panic!("a car outside the grid was accepted"),
    }
}

#[test]
fn malformed_grid_is_refused() {
    let mut m = grid("x--r--R");
    m.undl[2].connect(Dir::Right);
    assert!(matches!(Solver::try_new(m, vec![]), Err(Misfit::Grid)));
    let mut m = grid("x--r--R");
    m.width = 2;
    assert!(!m.is_wf());
    assert!(matches!(Solver::try_new(m, vec![]), Err(Misfit::Grid)));
    let mut m = grid("x--r--R");
    m.width = usize::MAX;
    m.height = 2;
    assert!(!m.is_wf());
}

#[test]
fn checked_solver_solves() {
    let m = grid("x--r--R");
    assert!(m.is_wf());
    let mut s = Solver::try_new(m, vec![Car::new(0, 0, Color::Red)]).expect("a solver");
    let solution = s.solve().expect("a solution");
    assert_eq!(solution.dirs, vec![vec![Some(Dir::Right)], vec![Some(Dir::Right)]]);
}

#[test]
fn zones_are_counted_and_switched_in_row_major_order() {
    let mut m = grid("x--x--x\n|  |  |\nx--x--x");
    m.undl[1].typ = Type::DropOff;
    m.undl[2].typ = Type::DropOn;
    m.undl[4].typ = Type::DropOff;
    assert_eq!(count_zones(&m), 2);
    configure(&mut m, &vec![false, true]);
    assert_eq!(m.undl[1].typ, Type::DropOff);
    assert_eq!(m.undl[2].typ, Type::DropOn);
    assert_eq!(m.undl[4].typ, Type::DropOn);
    // The zone that is left is the first now; a shorter list leaves the rest.
    assert_eq!(count_zones(&m), 1);
    configure(&mut m, &vec![]);
    assert_eq!(m.undl[1].typ, Type::DropOff);
    configure(&mut m, &vec![true, true]);
    assert_eq!(m.undl[1].typ, Type::DropOn);
    assert_eq!(count_zones(&m), 0);
}

#[test]
fn second_search_goes_on_from_the_solved_state() {
    // Nothing is left to do once the car stands on the house.
    let m = grid("x--r--R");
    let mut s = Solver::new(m, vec![Car::new(0, 0, Color::Red)]);
    let first = s.solve().expect("a solution");
    assert_eq!(first.dirs, vec![vec![Some(Dir::Right)], vec![Some(Dir::Right)]]);
    assert!(s.solve().is_none());
    assert!(s.solve().is_none());
    // Here a road leads on from the house: the second search takes it,
    // and the third finds nothing more.
    let m = grid("x--r--R--x");
    let mut s = Solver::new(m, vec![Car::new(0, 0, Color::Red)]);
    let first = s.solve().expect("a solution");
    assert_eq!(first.dirs, vec![vec![Some(Dir::Right)], vec![Some(Dir::Right)]]);
    let second = s.solve().expect("a solution");
    assert_eq!(second.dirs, vec![vec![Some(Dir::Right)]]);
    assert_eq!(second.targets, Vec::<bool>::new());
    assert!(s.solve().is_none());
}

#[test]
fn second_search_names_the_first_assignment() {
    let mut m = grid("x--r--b--x--R--x");
    m.undl[3].typ = Type::DropOff;
    let mut s = Solver::new(m, vec![Car::new(0, 0, Color::Red)]);
    let first = s.solve().expect("a solution");
    assert_eq!(first.targets, vec![true]);
    assert_eq!(first.dirs, vec![vec![Some(Dir::Right)]; 4]);
    let second = s.solve().expect("a solution");
    assert_eq!(second.targets, vec![false]);
    assert_eq!(second.dirs, vec![vec![Some(Dir::Right)]]);
}

#[test]
fn failed_search_can_be_repeated() {
    let m = grid("x--r  R");
    let mut s = Solver::new(m, vec![Car::new(0, 0, Color::Red)]);
    assert!(s.solve().is_none());
    assert!(s.solve().is_none());
}

#[test]
fn car_on_a_bridge_that_opens_in_the_same_tick_is_rejected() {
    // Car 0 would cross the closed bridge while car 1 presses the button.
    let m = grid("x--#p-x  x--^p-x");
    let cars = vec![Car::new(0, 0, Color::Red), Car::new(3, 0, Color::Blue)];
    let mut probe = m.clone();
    let mut moved = cars.clone();
    assert!(probe.move_car(&mut moved[0], Some(Dir::Right)));
    assert!(probe.move_car(&mut moved[1], Some(Dir::Right)));
    assert!(!probe.check(&moved));
    // With no house the first accepted joint move ends the search: it is
    // not that one, which comes later in the order, nor any before it
    // that is rejected.
    let mut s = Solver::new(m, cars);
    let solution = s.solve().expect("a solution");
    assert_eq!(solution.dirs, vec![vec![Some(Dir::Right), None]]);
}
