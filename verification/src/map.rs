//! The puzzle grid and the rules by which one car moves on it.

use vstd::prelude::*;
use crate::elem::{Car, CarModel, Cell, Color, Dir, Elem, Type};
use crate::vec2d::Vec2D;

verus! {

/// Mathematical model of the puzzle grid: `width * height` cells in
/// row-major order.
pub struct Grid {
    pub width: int,
    pub height: int,
    pub cells: Seq<Cell>,
}

impl Grid {
    /// The grid holds exactly `width * height` cells.
    pub open spec fn wf(self) -> bool {
        &&& 0 <= self.width
        &&& 0 <= self.height
        &&& self.cells.len() == self.width * self.height
    }

    /// Whether `(x, y)` names a cell of the grid.
    pub open spec fn in_bounds(self, x: int, y: int) -> bool {
        0 <= x < self.width && 0 <= y < self.height
    }

    /// The cell at column `x` of row `y`.
    pub open spec fn at(self, x: int, y: int) -> Cell {
        self.cells[y * self.width + x]
    }

    /// This grid with the cell at column `x` of row `y` replaced.
    pub open spec fn put(self, x: int, y: int, cell: Cell) -> Grid {
        Grid { cells: self.cells.update(y * self.width + x, cell), ..self }
    }

    /// Every open segment leads to a cell of the grid.
    pub open spec fn contained(self) -> bool {
        forall|x: int, y: int, d: Dir|
            self.in_bounds(x, y) && #[trigger] self.at(x, y).connected(d) ==> self.in_bounds(
                x + d.dx(),
                y + d.dy(),
            )
    }

    /// This grid after a button of colour `c` was pressed: every button
    /// and bridge of that colour changes state, all else stays.
    pub open spec fn toggled(self, c: Color) -> Grid {
        Grid {
            cells: Seq::new(self.cells.len(), |i: int| self.cells[i].with_typ(toggled_type(self.cells[i].typ, c))),
            ..self
        }
    }

    /// Whether some cell is a house that still waits for its cube.
    pub open spec fn has_house(self) -> bool {
        exists|i: int| 0 <= i < self.cells.len() && #[trigger] self.cells[i].typ is House
    }

    /// The number of open segments over all cells.
    pub open spec fn open_segments(self) -> nat {
        total_open(self.cells)
    }

    /// The position of the cell at column `x` of row `y` in `cells`.
    pub open spec fn index(self, x: int, y: int) -> int {
        y * self.width + x
    }

    /// Cells of the grid have their index inside `cells`, and two
    /// different cells have different indices.
    pub proof fn lemma_index(self, x: int, y: int)
        requires
            self.wf(),
            self.in_bounds(x, y),
        ensures
            0 <= self.index(x, y) < self.cells.len(),
            forall|x2: int, y2: int|
                self.in_bounds(x2, y2) && (x2 != x || y2 != y) ==> #[trigger] self.index(x2, y2)
                    != self.index(x, y),
    {
        let w = self.width;
        let h = self.height;
        assert(0 <= y * w + x < w * h) by (nonlinear_arith)
            requires
                0 <= x < w,
                0 <= y < h,
        ;
        assert forall|x2: int, y2: int|
            self.in_bounds(x2, y2) && (x2 != x || y2 != y) implies #[trigger] self.index(x2, y2)
            != self.index(x, y) by {
            assert(y2 * w + x2 != y * w + x) by (nonlinear_arith)
                requires
                    0 <= x < w,
                    0 <= x2 < w,
                    x2 != x || y2 != y,
            ;
        }
    }

    /// Replacing a cell changes that cell and no other.
    pub proof fn lemma_put(self, x: int, y: int, cell: Cell)
        requires
            self.wf(),
            self.in_bounds(x, y),
        ensures
            self.put(x, y, cell).wf(),
            self.put(x, y, cell).at(x, y) == cell,
            forall|x2: int, y2: int|
                self.in_bounds(x2, y2) && (x2 != x || y2 != y) ==> #[trigger] self.put(
                    x,
                    y,
                    cell,
                ).at(x2, y2) == self.at(x2, y2),
    {
        self.lemma_index(x, y);
        assert forall|x2: int, y2: int|
            self.in_bounds(x2, y2) && (x2 != x || y2 != y) implies #[trigger] self.put(
            x,
            y,
            cell,
        ).at(x2, y2) == self.at(x2, y2) by {
            assert(self.index(x2, y2) != self.index(x, y));
            self.lemma_index(x2, y2);
        }
    }
}

/// The number of open segments over a sequence of cells.
pub open spec fn total_open(cells: Seq<Cell>) -> nat
    decreases cells.len(),
{
    if cells.len() == 0 {
        0
    } else {
        total_open(cells.drop_last()) + cells.last().open_segments()
    }
}

/// The kind that `t` turns into when a button of colour `c` is pressed.
pub open spec fn toggled_type(t: Type, c: Color) -> Type {
    match t {
        Type::ArmedButton(k) => if k == c { Type::PushedButton(c) } else { t },
        Type::PushedButton(k) => if k == c { Type::ArmedButton(c) } else { t },
        Type::OpenBridge(k) => if k == c { Type::ClosedBridge(c) } else { t },
        Type::ClosedBridge(k) => if k == c { Type::OpenBridge(c) } else { t },
        _ => t,
    }
}

/// What one move of one car leaves behind: the grid, the car, and whether
/// the move was legal.
pub struct Moved {
    pub grid: Grid,
    pub car: CarModel,
    pub ok: bool,
}

/// The effect of a car standing on the cell it has just entered.
pub open spec fn arrive(g: Grid, c: CarModel) -> Moved {
    let here = g.at(c.x, c.y);
    match here.typ {
        Type::Empty => Moved { grid: g, car: c, ok: false },
        Type::Road => Moved { grid: g, car: c, ok: true },
        Type::DropOff => Moved { grid: g, car: c, ok: true },
        Type::DropOn => {
            if c.cubes.len() > 0 && c.cubes.last() is Cube {
                Moved { grid: g.put(c.x, c.y, here.with_typ(c.cubes.last())), car: c.unloaded(), ok: true }
            } else {
                Moved { grid: g.put(c.x, c.y, here.with_typ(Type::DropOff)), car: c, ok: true }
            }
        },
        Type::PushedButton(_) => Moved { grid: g, car: c, ok: true },
        Type::ArmedButton(k) => Moved { grid: g.toggled(k), car: c, ok: true },
        Type::OpenBridge(_) => Moved { grid: g, car: c, ok: false },
        Type::ClosedBridge(_) => Moved { grid: g, car: c, ok: true },
        Type::FullHouse(_) => Moved { grid: g, car: c, ok: false },
        Type::House(k) => {
            if c.cubes.len() > 0 && c.cubes.last() == Type::Cube(k) {
                Moved { grid: g.put(c.x, c.y, here.with_typ(Type::FullHouse(k))), car: c.unloaded(), ok: true }
            } else {
                Moved { grid: g, car: c, ok: false }
            }
        },
        Type::Cube(_) => {
            if c.cubes.len() < 3 {
                Moved { grid: g.put(c.x, c.y, here.with_typ(Type::Road)), car: c.loaded(here.typ), ok: true }
            } else {
                Moved { grid: g, car: c, ok: false }
            }
        },
    }
}

/// The grid after the car at `c` has left its cell in direction `d`: the
/// segment it took is closed and the cell is free.
pub open spec fn depart(g: Grid, c: CarModel, d: Dir) -> Grid {
    g.put(c.x, c.y, g.at(c.x, c.y).with_conn(d, false).with_occupied(false))
}

/// The grid after the car at `c` has entered its cell coming in direction
/// `d`: the segment that leads back is closed and the cell is occupied.
pub open spec fn enter(g: Grid, c: CarModel, d: Dir) -> Grid {
    g.put(c.x, c.y, g.at(c.x, c.y).with_conn(d.spec_rev(), false).with_occupied(true))
}

/// One move of one car. `None` is a wait, which is always legal and
/// changes nothing. A move in a direction needs an open segment that way;
/// the car then leaves its cell, and the move fails if the next cell is
/// occupied, with the departure already made. Otherwise the car enters
/// the next cell and [`arrive`] decides.
pub open spec fn step(g: Grid, c: CarModel, dir: Option<Dir>) -> Moved {
    match dir {
        None => Moved { grid: g, car: c, ok: true },
        Some(d) => {
            if !g.at(c.x, c.y).connected(d) {
                Moved { grid: g, car: c, ok: false }
            } else {
                let g1 = depart(g, c, d);
                let c1 = c.rolled(d);
                if g1.at(c1.x, c1.y).occupied {
                    Moved { grid: g1, car: c1, ok: false }
                } else {
                    arrive(enter(g1, c1, d), c1)
                }
            }
        },
    }
}

/// The puzzle grid: a container of cells.
pub type PuzzleMap = Vec2D<Elem>;

impl View for Vec2D<Elem> {
    type V = Grid;

    open spec fn view(&self) -> Grid {
        Grid {
            width: self.width as int,
            height: self.height as int,
            cells: Seq::new(self.undl@.len(), |i: int| self.undl@[i]@),
        }
    }
}

impl Vec2D<Elem> {
    /// Replaces the cell at the position of `car`.
    fn put_at(&mut self, car: &Car, e: Elem)
        requires
            old(self).wf(),
            old(self)@.in_bounds(car@.x, car@.y),
        ensures
            final(self).wf(),
            final(self)@ == old(self)@.put(car@.x, car@.y, e@),
    {
        proof {
            self.lemma_index_in_range(car@.x, car@.y);
        }
        self.set(car.coord.0, car.coord.1, e);
        assert(self@.cells =~= old(self)@.put(car@.x, car@.y, e@).cells);
    }

    /// The cell at the position of `car`.
    fn cell_at(&self, car: &Car) -> (e: Elem)
        requires
            self.wf(),
            self@.in_bounds(car@.x, car@.y),
        ensures
            e@ == self@.at(car@.x, car@.y),
            e == self.spec_at(car@.x, car@.y),
    {
        proof {
            self.lemma_index_in_range(car@.x, car@.y);
        }
        *self.get(car.coord.0, car.coord.1)
    }

    /// Presses a button of colour `c`: every button and bridge of that
    /// colour changes state.
    fn toggle(&mut self, c: Color)
        requires
            old(self).wf(),
        ensures
            final(self).wf(),
            final(self)@ == old(self)@.toggled(c),
    {
        let n = self.undl.len();
        let mut i: usize = 0;
        while i < n
            invariant
                i <= n,
                n == self.undl.len(),
                self.width == old(self).width,
                self.height == old(self).height,
                forall|j: int| 0 <= j < i ==> (#[trigger] self.undl@[j])@ == old(self).undl@[j]@.with_typ(toggled_type(old(self).undl@[j].typ, c)),
                forall|j: int| i <= j < n ==> #[trigger] self.undl@[j] == old(self).undl@[j],
            decreases n - i,
        {
            let mut e = self.undl[i];
            e.typ = match e.typ {
                Type::ArmedButton(k) => if k == c { Type::PushedButton(c) } else { e.typ },
                Type::PushedButton(k) => if k == c { Type::ArmedButton(c) } else { e.typ },
                Type::OpenBridge(k) => if k == c { Type::ClosedBridge(c) } else { e.typ },
                Type::ClosedBridge(k) => if k == c { Type::OpenBridge(c) } else { e.typ },
                _ => e.typ,
            };
            self.undl[i] = e;
            i += 1;
        }
        assert(self@.cells =~= old(self)@.toggled(c).cells);
    }

    /// Moves `car` one cell in direction `dir`, or lets it wait where
    /// `dir` is `None`, and applies the rules of the cell it enters.
    /// Returns whether the move was legal. An illegal move may leave the
    /// grid and the car changed.
    pub fn move_car(&mut self, car: &mut Car, dir: Option<Dir>) -> (ok: bool)
        requires
            old(self).wf(),
            old(self)@.in_bounds(old(car)@.x, old(car)@.y),
            dir matches Some(d) ==> (old(self)@.at(old(car)@.x, old(car)@.y).connected(d)
                ==> old(self)@.in_bounds(old(car)@.x + d.dx(), old(car)@.y + d.dy())),
        ensures
            final(self).wf(),
            final(self)@ == step(old(self)@, old(car)@, dir).grid,
            final(car)@ == step(old(self)@, old(car)@, dir).car,
            ok == step(old(self)@, old(car)@, dir).ok,
    {
        let dir = match dir {
            None => { return true; },
            Some(d) => d,
        };
        // Is there a road to move along?
        let mut from = self.cell_at(car);
        if !from.connected(dir) {
            return false;
        }
        // Take the road and leave the cell.
        from.disconnect(dir);
        from.occupied = false;
        self.put_at(car, from);
        car.roll(dir);
        let mut to = self.cell_at(car);
        if to.occupied {
            return false;
        }
        to.disconnect(dir.rev());
        to.occupied = true;
        self.put_at(car, to);
        self.settle(car)
    }

    /// Applies the rules of the cell that `car` has just entered.
    fn settle(&mut self, car: &mut Car) -> (ok: bool)
        requires
            old(self).wf(),
            old(self)@.in_bounds(old(car)@.x, old(car)@.y),
        ensures
            final(self).wf(),
            final(self)@ == arrive(old(self)@, old(car)@).grid,
            final(car)@ == arrive(old(self)@, old(car)@).car,
            ok == arrive(old(self)@, old(car)@).ok,
    {
        let mut to = self.cell_at(car);
        match to.typ {
            Type::Empty => false,
            Type::Road => true,
            Type::DropOff => true,
            Type::DropOn => {
                to.typ = Type::DropOff;
                let n = car.cubes.len();
                if n > 0 {
                    let top = car.cubes[n - 1];
                    if let Type::Cube(_) = top {
                        // Drop the cube on the ground.
                        to.typ = top;
                        car.cubes.pop();
                    }
                }
                self.put_at(car, to);
                true
            },
            Type::PushedButton(_) => true,
            Type::ArmedButton(c) => {
                self.toggle(c);
                true
            },
            Type::OpenBridge(_) => false,
            Type::ClosedBridge(_) => true,
            Type::FullHouse(_) => false,
            Type::House(c) => {
                let n = car.cubes.len();
                if n == 0 {
                    return false;
                }
                match car.cubes[n - 1] {
                    Type::Cube(cc) => {
                        if cc == c {
                            // Hand the cube to the house.
                            to.typ = Type::FullHouse(c);
                            self.put_at(car, to);
                            car.cubes.pop();
                            true
                        } else {
                            false
                        }
                    },
                    _ => false,
                }
            },
            Type::Cube(_) => {
                if car.cubes.len() < 3 {
                    // Take the cube.
                    car.cubes.push(to.typ);
                    to.typ = Type::Road;
                    self.put_at(car, to);
                    true
                } else {
                    false
                }
            },
        }
    }

    /// Whether no car stands on an open bridge.
    pub fn check(&self, cars: &Vec<Car>) -> (ok: bool)
        requires
            self.wf(),
            forall|i: int| 0 <= i < cars@.len() ==> self@.in_bounds(#[trigger] cars@[i]@.x, cars@[i]@.y),
        ensures
            ok == coherent(self@, cars_view(cars@)),
    {
        let mut i: usize = 0;
        while i < cars.len()
            invariant
                i <= cars.len(),
                self.wf(),
                forall|k: int| 0 <= k < cars@.len() ==> self@.in_bounds(#[trigger] cars@[k]@.x, cars@[k]@.y),
                forall|k: int| 0 <= k < i ==> !(#[trigger] self@.at(cars@[k]@.x, cars@[k]@.y).typ is OpenBridge),
            decreases cars.len() - i,
        {
            let e = self.cell_at(&cars[i]);
            if let Type::OpenBridge(_) = e.typ {
                proof {
                    let cs = cars_view(cars@);
                    assert(cs[i as int] == cars@[i as int]@);
                    assert(self@.at(cs[i as int].x, cs[i as int].y).typ is OpenBridge);
                }
                return false;
            }
            i += 1;
        }
        assert forall|k: int| 0 <= k < cars_view(cars@).len() implies !(#[trigger] self@.at(
            cars_view(cars@)[k].x,
            cars_view(cars@)[k].y,
        ).typ is OpenBridge) by {
            assert(cars_view(cars@)[k] == cars@[k]@);
        }
        true
    }

    /// Whether every open segment leads to a cell of the grid.
    pub fn is_contained(&self) -> (ok: bool)
        requires
            self.wf(),
        ensures
            ok == self@.contained(),
    {
        let ghost g = self@;
        let mut y: usize = 0;
        while y < self.height
            invariant
                y <= self.height,
                self.wf(),
                g == self@,
                forall|xx: int, yy: int, d: Dir|
                    0 <= xx < g.width && 0 <= yy < y && #[trigger] g.at(xx, yy).connected(d)
                        ==> g.in_bounds(xx + d.dx(), yy + d.dy()),
            decreases self.height - y,
        {
            let mut x: usize = 0;
            while x < self.width
                invariant
                    x <= self.width,
                    y < self.height,
                    self.wf(),
                    g == self@,
                    forall|xx: int, yy: int, d: Dir|
                        0 <= xx < g.width && 0 <= yy < y && #[trigger] g.at(xx, yy).connected(d)
                            ==> g.in_bounds(xx + d.dx(), yy + d.dy()),
                    forall|xx: int, d: Dir|
                        0 <= xx < x && #[trigger] g.at(xx, y as int).connected(d) ==> g.in_bounds(
                            xx + d.dx(),
                            y + d.dy(),
                        ),
                decreases self.width - x,
            {
                let e = self.get(x, y);
                proof {
                    g.lemma_index(x as int, y as int);
                    assert(e@ == g.at(x as int, y as int));
                }
                let up = !e.connected(Dir::Up) || y > 0;
                let right = !e.connected(Dir::Right) || x + 1 < self.width;
                let down = !e.connected(Dir::Down) || y + 1 < self.height;
                let left = !e.connected(Dir::Left) || x > 0;
                if !(up && right && down && left) {
                    proof {
                        let d = if !up {
                            Dir::Up
                        } else if !right {
                            Dir::Right
                        } else if !down {
                            Dir::Down
                        } else {
                            Dir::Left
                        };
                        assert(g.in_bounds(x as int, y as int) && g.at(x as int, y as int).connected(d)
                            && !g.in_bounds(x + d.dx(), y + d.dy()));
                    }
                    return false;
                }
                proof {
                    assert forall|d: Dir| #[trigger] g.at(x as int, y as int).connected(d) implies g.in_bounds(
                        x + d.dx(),
                        y + d.dy(),
                    ) by {
                        match d {
                            Dir::Up => {},
                            Dir::Right => {},
                            Dir::Down => {},
                            Dir::Left => {},
                        }
                    }
                }
                x += 1;
            }
            y += 1;
        }
        true
    }
}

/// The models of a list of cars.
pub open spec fn cars_view(cars: Seq<Car>) -> Seq<CarModel> {
    Seq::new(cars.len(), |i: int| cars[i]@)
}

/// No car stands on an open bridge.
pub open spec fn coherent(g: Grid, cars: Seq<CarModel>) -> bool {
    forall|k: int| 0 <= k < cars.len() ==> !(#[trigger] g.at(cars[k].x, cars[k].y).typ is OpenBridge)
}

} // verus!
