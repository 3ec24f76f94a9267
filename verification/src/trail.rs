//! A solution drawn on its grid: every road that a car took is shown in
//! that car's colour.

use std::collections::HashMap;
use vstd::prelude::*;
use crate::elem::{Car, CarModel, Cell, Color, Dir, Elem, Type};
use crate::enumerate::listed;
use crate::map::{cars_view, Grid};
use crate::render::cell_text;
use crate::search::Path;
use crate::solver::Solution;
use crate::vec2d::Vec2D;

verus! {

/// Whether a kind is a delivery zone, switched on or off.
pub open spec fn is_zone(t: Type) -> bool {
    t is DropOn || t is DropOff
}

/// The number of delivery zones, switched on or off.
pub open spec fn all_zones(cells: Seq<Cell>) -> nat
    decreases cells.len(),
{
    if cells.len() == 0 {
        0
    } else {
        all_zones(cells.drop_last()) + if is_zone(cells.last().typ) { 1nat } else { 0nat }
    }
}

/// The cells as a solution is drawn on them: the `j`-th delivery zone, in
/// row-major order and counting those that are switched on, is switched
/// on where `targets[j]` is true. All else stays.
pub open spec fn shown_cells(cells: Seq<Cell>, targets: Seq<bool>) -> Seq<Cell> {
    Seq::new(
        cells.len(),
        |i: int|
            if is_zone(cells[i].typ) && all_zones(cells.take(i)) < targets.len()
                && targets[all_zones(cells.take(i)) as int] {
                cells[i].with_typ(Type::DropOn)
            } else {
                cells[i]
            },
    )
}

/// The grid as a solution is drawn on it: see [`shown_cells`].
pub open spec fn shown(g: Grid, targets: Seq<bool>) -> Grid {
    Grid { cells: shown_cells(g.cells, targets), ..g }
}

/// The colour that a table holds for a road, if any. A road is named by
/// the index of the cell it leaves to the right or downwards.
pub open spec fn looked_up(table: Map<usize, Color>, road: int) -> Option<Color> {
    if 0 <= road <= usize::MAX && table.contains_key(road as usize) {
        Some(table[road as usize])
    } else {
        None
    }
}

/// Where the car `c`, the `i`-th of its list, stands after `t` ticks of
/// the path, if nothing stops it.
pub open spec fn place(c: CarModel, dirs: Path, i: int, t: int) -> (int, int)
    decreases t,
{
    if t <= 0 {
        (c.x, c.y)
    } else {
        let p = place(c, dirs, i, t - 1);
        match dirs[t - 1][i] {
            None => p,
            Some(d) => (p.0 + d.dx(), p.1 + d.dy()),
        }
    }
}

/// Whether the car `c` takes, at tick `t`, the road that leaves the cell
/// at column `x` of row `y` to the right (`across`) or downwards (not
/// `across`), in either direction.
pub open spec fn crosses(c: CarModel, dirs: Path, i: int, t: int, across: bool, x: int, y: int) -> bool {
    let p = place(c, dirs, i, t);
    let q = place(c, dirs, i, t + 1);
    match dirs[t][i] {
        Some(Dir::Right) => across && p == (x, y),
        Some(Dir::Left) => across && q == (x, y),
        Some(Dir::Down) => !across && p == (x, y),
        Some(Dir::Up) => !across && q == (x, y),
        None => false,
    }
}

/// The colour in which a road is drawn once the cars before the `i`-th
/// have made all their moves and the `i`-th its first `t`: that of the car
/// that took it last, if any did.
pub open spec fn marked(
    cars: Seq<CarModel>,
    dirs: Path,
    across: bool,
    x: int,
    y: int,
    i: int,
    t: int,
) -> Option<Color>
    decreases i, t,
{
    if i < 0 || t < 0 {
        None
    } else if t == 0 {
        if i == 0 {
            None
        } else {
            marked(cars, dirs, across, x, y, i - 1, dirs.len() as int)
        }
    } else if crosses(cars[i], dirs, i, t - 1, across, x, y) {
        Some(cars[i].color)
    } else {
        marked(cars, dirs, across, x, y, i, t - 1)
    }
}

/// The colour in which a road is drawn when all cars have made all their
/// moves.
pub open spec fn trail(cars: Seq<CarModel>, dirs: Path, across: bool, x: int, y: int) -> Option<Color> {
    marked(cars, dirs, across, x, y, cars.len() as int, 0)
}

/// Every joint move has a move for every car, and no car leaves the grid.
pub open spec fn stays_inside(g: Grid, cars: Seq<CarModel>, dirs: Path) -> bool {
    &&& forall|t: int| 0 <= t < dirs.len() ==> (#[trigger] dirs[t]).len() >= cars.len()
    &&& forall|i: int, t: int|
        0 <= i < cars.len() && 0 <= t <= dirs.len() ==> g.in_bounds(
            (#[trigger] place(cars[i], dirs, i, t)).0,
            place(cars[i], dirs, i, t).1,
        )
}

/// The text of a road: `plain` where it is open, in the colour of `mark`
/// if it has one, and `none` where it is closed.
pub open spec fn road_text(open: bool, mark: Option<Color>, plain: Seq<char>, none: Seq<char>) -> Seq<char> {
    if open {
        match mark {
            Some(c) => c.colorized(plain),
            None => plain,
        }
    } else {
        none
    }
}

/// The cells `0..upto` of row `y`, each followed by the road to its
/// right.
pub open spec fn trail_row_text(g: Grid, cars: Seq<CarModel>, dirs: Path, y: int, upto: int) -> Seq<char>
    decreases upto,
{
    if upto <= 0 {
        Seq::empty()
    } else {
        trail_row_text(g, cars, dirs, y, upto - 1) + cell_text(g.at(upto - 1, y)) + road_text(
            g.at(upto - 1, y).right,
            trail(cars, dirs, true, upto - 1, y),
            "--"@,
            "  "@,
        )
    }
}

/// The line below the cells `0..upto` of row `y`: the road that leads
/// down from each, followed by two blanks.
pub open spec fn trail_below_text(g: Grid, cars: Seq<CarModel>, dirs: Path, y: int, upto: int) -> Seq<char>
    decreases upto,
{
    if upto <= 0 {
        Seq::empty()
    } else {
        trail_below_text(g, cars, dirs, y, upto - 1) + road_text(
            g.at(upto - 1, y).down,
            trail(cars, dirs, false, upto - 1, y),
            "|"@,
            " "@,
        ) + "  "@
    }
}

/// The rows `0..upto` of the grid with the trails of the cars: for each
/// row the line of its cells and the line below it, each ended by a line
/// break.
pub open spec fn trail_text(g: Grid, cars: Seq<CarModel>, dirs: Path, upto: int) -> Seq<char>
    decreases upto,
{
    if upto <= 0 {
        Seq::empty()
    } else {
        trail_text(g, cars, dirs, upto - 1) + trail_row_text(g, cars, dirs, upto - 1, g.width)
            + "\n"@ + trail_below_text(g, cars, dirs, upto - 1, g.width) + "\n"@
    }
}

/// Notes in the table that the road was taken by a car of this colour.
fn mark(table: &mut HashMap<usize, Color>, road: usize, color: Color)
    ensures
        final(table)@ == old(table)@.insert(road, color),
{
    broadcast use vstd::std_specs::hash::group_hash_axioms;

    table.insert(road, color);
}

/// The colour that the table holds for the road, if any.
fn colour_of(table: &HashMap<usize, Color>, road: usize) -> (r: Option<Color>)
    ensures
        r == looked_up(table@, road as int),
{
    broadcast use vstd::std_specs::hash::group_hash_axioms;

    match table.get(&road) {
        Some(c) => Some(*c),
        None => None,
    }
}

/// Switches the delivery zones on as a solution is drawn: see
/// [`shown_cells`].
fn switch_on(map: &mut Vec2D<Elem>, targets: &Vec<bool>)
    requires
        old(map).wf(),
    ensures
        final(map).wf(),
        final(map)@ == shown(old(map)@, targets@),
{
    let n = map.undl.len();
    let mut z: usize = 0;
    let mut i: usize = 0;
    let ghost before = map@.cells;
    while i < n
        invariant
            i <= n,
            n == map.undl.len(),
            n == before.len(),
            before == old(map)@.cells,
            map.width == old(map).width,
            map.height == old(map).height,
            z <= i,
            z == all_zones(before.take(i as int)),
            forall|j: int| 0 <= j < i ==> (#[trigger] map.undl@[j])@ == shown_cells(before, targets@)[j],
            forall|j: int| i <= j < n ==> (#[trigger] map.undl@[j])@ == before[j],
        decreases n - i,
    {
        proof {
            assert(before.take(i + 1).drop_last() =~= before.take(i as int));
            assert(before.take(i + 1).last() == before[i as int]);
        }
        let mut e = map.undl[i];
        let zone = match e.typ {
            Type::DropOn => true,
            Type::DropOff => true,
            _ => false,
        };
        if zone {
            if z < targets.len() && targets[z] {
                e.typ = Type::DropOn;
                map.undl[i] = e;
            }
            z += 1;
        }
        i += 1;
    }
    assert(map@.cells =~= shown(old(map)@, targets@).cells);
}

/// The road as text: see [`road_text`].
fn road(open: bool, mark: Option<Color>, plain: &str, none: &str) -> (r: String)
    ensures
        r@ == road_text(open, mark, plain@, none@),
{
    if open {
        match mark {
            Some(c) => c.colorize(plain),
            None => String::from_str(plain),
        }
    } else {
        String::from_str(none)
    }
}

impl Vec2D<Elem> {
    /// Whether the solution can be drawn on this grid: see
    /// [`stays_inside`].
    pub fn keeps_inside(&self, solution: &Solution, cars: &Vec<Car>) -> (ok: bool)
        ensures
            ok == stays_inside(self@, cars_view(cars@), solution@.dirs),
    {
        let ghost g = self@;
        let ghost fleet = cars_view(cars@);
        let ghost dirs = solution@.dirs;
        let ticks = solution.dirs.len();
        let mut t: usize = 0;
        while t < ticks
            invariant
                t <= ticks,
                ticks == solution.dirs@.len(),
                dirs == listed(solution.dirs@),
                fleet == cars_view(cars@),
                forall|k: int| 0 <= k < t ==> (#[trigger] dirs[k]).len() >= fleet.len(),
            decreases ticks - t,
        {
            assert(dirs[t as int] == solution.dirs@[t as int]@);
            if solution.dirs[t].len() < cars.len() {
                return false;
            }
            t += 1;
        }
        let mut i: usize = 0;
        while i < cars.len()
            invariant
                i <= cars.len(),
                g == self@,
                ticks == solution.dirs@.len(),
                dirs == listed(solution.dirs@),
                fleet == cars_view(cars@),
                forall|k: int| 0 <= k < dirs.len() ==> (#[trigger] dirs[k]).len() >= fleet.len(),
                forall|ii: int, tt: int|
                    0 <= ii < i && 0 <= tt <= dirs.len() ==> g.in_bounds(
                        (#[trigger] place(fleet[ii], dirs, ii, tt)).0,
                        place(fleet[ii], dirs, ii, tt).1,
                    ),
            decreases cars.len() - i,
        {
            let ghost c = fleet[i as int];
            assert(c == cars@[i as int]@);
            let mut x = cars[i].coord.0;
            let mut y = cars[i].coord.1;
            if x >= self.width || y >= self.height {
                assert(!g.in_bounds(place(c, dirs, i as int, 0).0, place(c, dirs, i as int, 0).1));
                return false;
            }
            let mut t: usize = 0;
            while t < ticks
                invariant
                    t <= ticks,
                    i < cars.len(),
                    g == self@,
                    ticks == solution.dirs@.len(),
                    dirs == listed(solution.dirs@),
                    fleet == cars_view(cars@),
                    c == fleet[i as int],
                    forall|k: int| 0 <= k < dirs.len() ==> (#[trigger] dirs[k]).len() >= fleet.len(),
                    place(c, dirs, i as int, t as int) == (x as int, y as int),
                    x < self.width,
                    y < self.height,
                    forall|tt: int|
                        0 <= tt <= t ==> g.in_bounds(
                            (#[trigger] place(c, dirs, i as int, tt)).0,
                            place(c, dirs, i as int, tt).1,
                        ),
                decreases ticks - t,
            {
                assert(dirs[t as int] == solution.dirs@[t as int]@);
                assert(dirs[t as int].len() >= fleet.len());
                let ghost q = place(c, dirs, i as int, t + 1);
                let stays = match solution.dirs[t][i] {
                    None => true,
                    Some(Dir::Right) => x + 1 < self.width,
                    Some(Dir::Left) => x > 0,
                    Some(Dir::Down) => y + 1 < self.height,
                    Some(Dir::Up) => y > 0,
                };
                if !stays {
                    assert(!g.in_bounds(q.0, q.1));
                    return false;
                }
                match solution.dirs[t][i] {
                    None => {},
                    Some(Dir::Right) => {
                        x += 1;
                    },
                    Some(Dir::Left) => {
                        x -= 1;
                    },
                    Some(Dir::Down) => {
                        y += 1;
                    },
                    Some(Dir::Up) => {
                        y -= 1;
                    },
                }
                t += 1;
            }
            i += 1;
        }
        true
    }

    /// Switches on the delivery zones that the solution's assignment
    /// names, counting every zone of the grid, switched on or off (see
    /// [`shown`]), and draws the grid with the roads that the cars take in
    /// their colours (see [`trail_text`]).
    pub fn solution_text(&mut self, solution: &Solution, cars: &Vec<Car>) -> (r: String)
        requires
            old(self).wf(),
            old(self).width > 0,
            stays_inside(old(self)@, cars_view(cars@), solution@.dirs),
        ensures
            final(self).wf(),
            final(self)@ == shown(old(self)@, solution.targets@),
            r@ == trail_text(
                final(self)@,
                cars_view(cars@),
                solution@.dirs,
                final(self)@.height,
            ),
    {
        switch_on(self, &solution.targets);
        let ghost g = self@;
        let ghost fleet = cars_view(cars@);
        let ghost dirs = solution@.dirs;
        let width = self.width;
        let height = self.height;
        let cells = self.undl.len();
        // The roads taken, each under the index of the cell it leaves to
        // the right or downwards.
        let mut rights: HashMap<usize, Color> = HashMap::new();
        let mut downs: HashMap<usize, Color> = HashMap::new();
        let ticks = solution.dirs.len();
        assert(dirs.len() == ticks);
        proof {
            assert forall|x: int, y: int| g.in_bounds(x, y) implies looked_up(rights@, #[trigger] g.index(x, y))
                == marked(fleet, dirs, true, x, y, 0, 0) && looked_up(downs@, g.index(x, y)) == marked(
                fleet,
                dirs,
                false,
                x,
                y,
                0,
                0,
            ) by {
                g.lemma_index(x, y);
            }
        }
        // Follow each car along its moves.
        let mut i: usize = 0;
        while i < cars.len()
            invariant
                i <= cars.len(),
                self.wf(),
                g == self@,
                g.wf(),
                width == self.width,
                height == self.height,
                cells == self.undl.len(),
                cells == g.cells.len(),
                fleet == cars_view(cars@),
                dirs == listed(solution.dirs@),
                ticks == solution.dirs@.len(),
                stays_inside(g, fleet, dirs),
                forall|x: int, y: int|
                    g.in_bounds(x, y) ==> looked_up(rights@, #[trigger] g.index(x, y)) == marked(
                        fleet,
                        dirs,
                        true,
                        x,
                        y,
                        i as int,
                        0,
                    ),
                forall|x: int, y: int|
                    g.in_bounds(x, y) ==> looked_up(downs@, #[trigger] g.index(x, y)) == marked(
                        fleet,
                        dirs,
                        false,
                        x,
                        y,
                        i as int,
                        0,
                    ),
            decreases cars.len() - i,
        {
            let color = cars[i].color;
            let mut x = cars[i].coord.0;
            let mut y = cars[i].coord.1;
            let ghost c = fleet[i as int];
            assert(c == cars@[i as int]@);
            let mut t: usize = 0;
            while t < ticks
                invariant
                    t <= ticks,
                    i < cars.len(),
                    self.wf(),
                    g == self@,
                    g.wf(),
                    width == self.width,
                    height == self.height,
                    cells == g.cells.len(),
                    fleet == cars_view(cars@),
                    dirs == listed(solution.dirs@),
                    ticks == solution.dirs@.len(),
                    stays_inside(g, fleet, dirs),
                    c == fleet[i as int],
                    color == c.color,
                    place(c, dirs, i as int, t as int) == (x as int, y as int),
                    forall|xx: int, yy: int|
                        g.in_bounds(xx, yy) ==> looked_up(rights@, #[trigger] g.index(xx, yy)) == marked(
                            fleet,
                            dirs,
                            true,
                            xx,
                            yy,
                            i as int,
                            t as int,
                        ),
                    forall|xx: int, yy: int|
                        g.in_bounds(xx, yy) ==> looked_up(downs@, #[trigger] g.index(xx, yy)) == marked(
                            fleet,
                            dirs,
                            false,
                            xx,
                            yy,
                            i as int,
                            t as int,
                        ),
                decreases ticks - t,
            {
                proof {
                    assert(dirs[t as int] == solution.dirs@[t as int]@);
                    assert(dirs[t as int].len() >= fleet.len());
                    let p = place(c, dirs, i as int, t as int);
                    let q = place(c, dirs, i as int, t + 1);
                    assert(g.in_bounds(p.0, p.1));
                    assert(g.in_bounds(q.0, q.1));
                    g.lemma_index(p.0, p.1);
                    g.lemma_index(q.0, q.1);
                }
                let ghost old_rights = rights@;
                let ghost old_downs = downs@;
                match solution.dirs[t][i] {
                    None => {},
                    Some(Dir::Right) => {
                        mark(&mut rights, y * width + x, color);
                        x += 1;
                    },
                    Some(Dir::Left) => {
                        x -= 1;
                        mark(&mut rights, y * width + x, color);
                    },
                    Some(Dir::Down) => {
                        mark(&mut downs, y * width + x, color);
                        y += 1;
                    },
                    Some(Dir::Up) => {
                        y -= 1;
                        mark(&mut downs, y * width + x, color);
                    },
                }
                proof {
                    let p = place(c, dirs, i as int, t as int);
                    let q = place(c, dirs, i as int, t + 1);
                    assert forall|xx: int, yy: int| g.in_bounds(xx, yy) implies looked_up(rights@, #[trigger] g.index(
                        xx,
                        yy,
                    )) == marked(fleet, dirs, true, xx, yy, i as int, t + 1) by {
                        g.lemma_index(xx, yy);
                        assert(looked_up(old_rights, g.index(xx, yy)) == marked(
                            fleet,
                            dirs,
                            true,
                            xx,
                            yy,
                            i as int,
                            t as int,
                        ));
                    }
                    assert forall|xx: int, yy: int| g.in_bounds(xx, yy) implies looked_up(downs@, #[trigger] g.index(
                        xx,
                        yy,
                    )) == marked(fleet, dirs, false, xx, yy, i as int, t + 1) by {
                        g.lemma_index(xx, yy);
                        assert(looked_up(old_downs, g.index(xx, yy)) == marked(
                            fleet,
                            dirs,
                            false,
                            xx,
                            yy,
                            i as int,
                            t as int,
                        ));
                    }
                }
                t += 1;
            }
            proof {
                assert forall|xx: int, yy: int| g.in_bounds(xx, yy) implies looked_up(rights@, #[trigger] g.index(
                    xx,
                    yy,
                )) == marked(fleet, dirs, true, xx, yy, i + 1, 0) by {}
                assert forall|xx: int, yy: int| g.in_bounds(xx, yy) implies looked_up(downs@, #[trigger] g.index(
                    xx,
                    yy,
                )) == marked(fleet, dirs, false, xx, yy, i + 1, 0) by {}
            }
            i += 1;
        }
        // Draw the grid.
        let mut out = String::new();
        let mut y: usize = 0;
        assert(out@ =~= trail_text(g, fleet, dirs, 0));
        while y < height
            invariant
                y <= height,
                self.wf(),
                g == self@,
                g.wf(),
                width == self.width,
                height == self.height,
                cells == g.cells.len(),
                forall|xx: int, yy: int|
                    g.in_bounds(xx, yy) ==> looked_up(rights@, #[trigger] g.index(xx, yy)) == trail(
                        fleet,
                        dirs,
                        true,
                        xx,
                        yy,
                    ),
                forall|xx: int, yy: int|
                    g.in_bounds(xx, yy) ==> looked_up(downs@, #[trigger] g.index(xx, yy)) == trail(
                        fleet,
                        dirs,
                        false,
                        xx,
                        yy,
                    ),
                out@ == trail_text(g, fleet, dirs, y as int),
            decreases height - y,
        {
            let ghost head = out@;
            let mut x: usize = 0;
            assert(out@ =~= head + trail_row_text(g, fleet, dirs, y as int, 0));
            while x < width
                invariant
                    x <= width,
                    y < height,
                    self.wf(),
                    g == self@,
                    g.wf(),
                    width == self.width,
                    height == self.height,
                    cells == g.cells.len(),
                    forall|xx: int, yy: int|
                        g.in_bounds(xx, yy) ==> looked_up(rights@, #[trigger] g.index(xx, yy)) == trail(
                            fleet,
                            dirs,
                            true,
                            xx,
                            yy,
                        ),
                    out@ == head + trail_row_text(g, fleet, dirs, y as int, x as int),
                decreases width - x,
            {
                let e = self.get(x, y);
                proof {
                    g.lemma_index(x as int, y as int);
                    assert(g.at(x as int, y as int) == e@);
                    assert(looked_up(rights@, g.index(x as int, y as int)) == trail(
                        fleet,
                        dirs,
                        true,
                        x as int,
                        y as int,
                    ));
                }
                out.append(e.to_text().as_str());
                let colour = colour_of(&rights, y * width + x);
                out.append(road(e.connected(Dir::Right), colour, "--", "  ").as_str());
                x += 1;
                assert(out@ =~= head + trail_row_text(g, fleet, dirs, y as int, x as int));
            }
            out.append("\n");
            let ghost mid = out@;
            let mut x: usize = 0;
            assert(out@ =~= mid + trail_below_text(g, fleet, dirs, y as int, 0));
            while x < width
                invariant
                    x <= width,
                    y < height,
                    self.wf(),
                    g == self@,
                    g.wf(),
                    width == self.width,
                    height == self.height,
                    cells == g.cells.len(),
                    forall|xx: int, yy: int|
                        g.in_bounds(xx, yy) ==> looked_up(downs@, #[trigger] g.index(xx, yy)) == trail(
                            fleet,
                            dirs,
                            false,
                            xx,
                            yy,
                        ),
                    out@ == mid + trail_below_text(g, fleet, dirs, y as int, x as int),
                decreases width - x,
            {
                let e = self.get(x, y);
                proof {
                    g.lemma_index(x as int, y as int);
                    assert(g.at(x as int, y as int) == e@);
                    assert(looked_up(downs@, g.index(x as int, y as int)) == trail(
                        fleet,
                        dirs,
                        false,
                        x as int,
                        y as int,
                    ));
                }
                let colour = colour_of(&downs, y * width + x);
                out.append(road(e.connected(Dir::Down), colour, "|", " ").as_str());
                out.append("  ");
                x += 1;
                assert(out@ =~= mid + trail_below_text(g, fleet, dirs, y as int, x as int));
            }
            out.append("\n");
            y += 1;
            assert(out@ =~= trail_text(g, fleet, dirs, y as int));
        }
        out
    }
}

} // verus!
