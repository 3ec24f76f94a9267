//! What holds of every move: the grid keeps its shape, segments only ever
//! close, cargo stays within capacity, and a button flips exactly the
//! buttons and bridges of its colour.

use vstd::prelude::*;
use crate::elem::{CarModel, Cell, Color, Dir, Type};
use crate::map::{arrive, depart, enter, step, toggled_type, total_open, Grid};

verus! {

/// `b` has no open segment that `a` lacks.
pub open spec fn narrows(a: Cell, b: Cell) -> bool {
    forall|d: Dir| #[trigger] b.connected(d) ==> a.connected(d)
}

/// `after` has the shape of `before`, and no open segment that `before`
/// lacks.
pub open spec fn only_closes(before: Grid, after: Grid) -> bool {
    &&& after.width == before.width
    &&& after.height == before.height
    &&& after.cells.len() == before.cells.len()
    &&& forall|i: int| 0 <= i < before.cells.len() ==> narrows(before.cells[i], #[trigger] after.cells[i])
}

/// Whether a move in some direction is legal, given the four things it
/// depends on: whether the segment in that direction is open, whether the
/// next cell is occupied, what the next cell holds, and the car's cargo.
pub open spec fn legal(open: bool, occupied: bool, kind: Type, cargo: Seq<Type>) -> bool {
    &&& open
    &&& !occupied
    &&& match kind {
        Type::Empty => false,
        Type::OpenBridge(_) => false,
        Type::FullHouse(_) => false,
        Type::House(k) => cargo.len() > 0 && cargo.last() == Type::Cube(k),
        Type::Cube(_) => cargo.len() < 3,
        _ => true,
    }
}

/// Replacing one cell changes the count of open segments by the
/// difference between the two cells.
pub proof fn lemma_total_open_update(cells: Seq<Cell>, i: int, c: Cell)
    requires
        0 <= i < cells.len(),
    ensures
        total_open(cells.update(i, c)) + cells[i].open_segments() == total_open(cells)
            + c.open_segments(),
    decreases cells.len(),
{
    let u = cells.update(i, c);
    if i == cells.len() - 1 {
        assert(u.drop_last() =~= cells.drop_last());
    } else {
        lemma_total_open_update(cells.drop_last(), i, c);
        assert(u.drop_last() =~= cells.drop_last().update(i, c));
    }
}

/// Cells that narrow cell by cell have no more open segments in total.
pub proof fn lemma_total_open_narrows(a: Seq<Cell>, b: Seq<Cell>)
    requires
        a.len() == b.len(),
        forall|i: int| 0 <= i < a.len() ==> narrows(a[i], #[trigger] b[i]),
    ensures
        total_open(b) <= total_open(a),
    decreases a.len(),
{
    if a.len() > 0 {
        lemma_total_open_narrows(a.drop_last(), b.drop_last());
        lemma_narrows_count(a.last(), b.last());
    }
}

/// A cell that narrows another has no more open segments, and fewer if it
/// closed one.
pub proof fn lemma_narrows_count(a: Cell, b: Cell)
    requires
        narrows(a, b),
    ensures
        b.open_segments() <= a.open_segments(),
        forall|d: Dir| a.connected(d) && !b.connected(d) ==> b.open_segments() < a.open_segments(),
{
    assert(b.connected(Dir::Up) ==> a.connected(Dir::Up));
    assert(b.connected(Dir::Right) ==> a.connected(Dir::Right));
    assert(b.connected(Dir::Down) ==> a.connected(Dir::Down));
    assert(b.connected(Dir::Left) ==> a.connected(Dir::Left));
}

/// A grid that only closed segments of a contained grid is contained, and
/// has no more open segments.
pub proof fn lemma_only_closes(before: Grid, after: Grid)
    requires
        before.wf(),
        only_closes(before, after),
    ensures
        after.wf(),
        before.contained() ==> after.contained(),
        after.open_segments() <= before.open_segments(),
{
    lemma_total_open_narrows(before.cells, after.cells);
    if before.contained() {
        assert forall|x: int, y: int, d: Dir|
            after.in_bounds(x, y) && #[trigger] after.at(x, y).connected(d) implies after.in_bounds(
            x + d.dx(),
            y + d.dy(),
        ) by {
            before.lemma_index(x, y);
            assert(narrows(before.cells[before.index(x, y)], after.cells[before.index(x, y)]));
            assert(before.at(x, y).connected(d));
        }
    }
}

/// Closing segments twice is closing segments.
pub proof fn lemma_only_closes_trans(a: Grid, b: Grid, c: Grid)
    requires
        only_closes(a, b),
        only_closes(b, c),
    ensures
        only_closes(a, c),
{
    assert forall|i: int| 0 <= i < a.cells.len() implies narrows(a.cells[i], #[trigger] c.cells[i]) by {
        assert(narrows(a.cells[i], b.cells[i]));
        assert(narrows(b.cells[i], c.cells[i]));
    }
}

/// Replacing a cell by one that narrows it only closes segments, and
/// changes the count of open segments by the difference.
pub proof fn lemma_put_narrows(g: Grid, x: int, y: int, cell: Cell)
    requires
        g.wf(),
        g.in_bounds(x, y),
        narrows(g.at(x, y), cell),
    ensures
        only_closes(g, g.put(x, y, cell)),
        g.put(x, y, cell).open_segments() + g.at(x, y).open_segments() == g.open_segments()
            + cell.open_segments(),
{
    g.lemma_index(x, y);
    lemma_total_open_update(g.cells, g.index(x, y), cell);
    let h = g.put(x, y, cell);
    assert forall|i: int| 0 <= i < g.cells.len() implies narrows(g.cells[i], #[trigger] h.cells[i]) by {
    }
}

/// Pressing a button changes kinds only: the grid keeps its shape and
/// every segment.
pub proof fn lemma_toggled(g: Grid, c: Color)
    requires
        g.wf(),
    ensures
        only_closes(g, g.toggled(c)),
        g.toggled(c).open_segments() == g.open_segments(),
{
    let h = g.toggled(c);
    assert forall|i: int| 0 <= i < g.cells.len() implies narrows(g.cells[i], #[trigger] h.cells[i])
        && narrows(h.cells[i], g.cells[i]) by {
        let a = g.cells[i];
        let b = h.cells[i];
        assert(b == a.with_typ(toggled_type(a.typ, c)));
        assert forall|d: Dir| b.connected(d) == a.connected(d) by {}
    }
    lemma_total_open_narrows(g.cells, h.cells);
    lemma_total_open_narrows(h.cells, g.cells);
}

/// Changing what a cell holds leaves its segments as they are.
pub proof fn lemma_with_typ_narrows(a: Cell, t: Type)
    ensures
        narrows(a, a.with_typ(t)),
        a.with_typ(t).open_segments() == a.open_segments(),
{
    let b = a.with_typ(t);
    assert forall|d: Dir| b.connected(d) == a.connected(d) by {}
}

/// The rules of the entered cell keep the grid's shape, close no segment
/// and open none, leave the car where it is, and keep its cargo within
/// capacity.
pub proof fn lemma_arrive(g: Grid, c: CarModel)
    requires
        g.wf(),
        g.in_bounds(c.x, c.y),
    ensures
        only_closes(g, arrive(g, c).grid),
        arrive(g, c).grid.open_segments() == g.open_segments(),
        arrive(g, c).car.x == c.x,
        arrive(g, c).car.y == c.y,
        arrive(g, c).car.color == c.color,
        c.within_capacity() ==> arrive(g, c).car.within_capacity(),
        arrive(g, c).ok == legal(true, false, g.at(c.x, c.y).typ, c.cubes),
{
    let here = g.at(c.x, c.y);
    let m = arrive(g, c);
    assert forall|i: int| 0 <= i < g.cells.len() implies narrows(g.cells[i], #[trigger] g.cells[i]) by {}
    match here.typ {
        Type::DropOn => {
            if c.cubes.len() > 0 && c.cubes.last() is Cube {
                lemma_with_typ_narrows(here, c.cubes.last());
                lemma_put_narrows(g, c.x, c.y, here.with_typ(c.cubes.last()));
            } else {
                lemma_with_typ_narrows(here, Type::DropOff);
                lemma_put_narrows(g, c.x, c.y, here.with_typ(Type::DropOff));
            }
        },
        Type::ArmedButton(k) => {
            lemma_toggled(g, k);
        },
        Type::House(k) => {
            if c.cubes.len() > 0 && c.cubes.last() == Type::Cube(k) {
                lemma_with_typ_narrows(here, Type::FullHouse(k));
                lemma_put_narrows(g, c.x, c.y, here.with_typ(Type::FullHouse(k)));
            }
        },
        Type::Cube(_) => {
            if c.cubes.len() < 3 {
                lemma_with_typ_narrows(here, Type::Road);
                lemma_put_narrows(g, c.x, c.y, here.with_typ(Type::Road));
            }
        },
        _ => {},
    }
}

/// Closing a segment of a cell, and changing its occupancy, narrows it.
pub proof fn lemma_with_conn_narrows(a: Cell, d: Dir, occupied: bool)
    ensures
        narrows(a, a.with_conn(d, false).with_occupied(occupied)),
        !a.with_conn(d, false).with_occupied(occupied).connected(d),
{
    let b = a.with_conn(d, false).with_occupied(occupied);
    assert forall|e: Dir| #[trigger] b.connected(e) implies a.connected(e) by {}
}

/// What holds of every move on a contained grid with the car inside it:
/// the grid keeps its shape and stays contained, segments only close, the
/// car stays inside the grid and keeps its colour, its cargo stays within
/// capacity, and a legal move in a direction closes at least one segment.
pub proof fn lemma_step(g: Grid, c: CarModel, dir: Option<Dir>)
    requires
        g.wf(),
        g.contained(),
        g.in_bounds(c.x, c.y),
    ensures
        only_closes(g, step(g, c, dir).grid),
        step(g, c, dir).grid.wf(),
        step(g, c, dir).grid.contained(),
        step(g, c, dir).grid.in_bounds(step(g, c, dir).car.x, step(g, c, dir).car.y),
        step(g, c, dir).car.color == c.color,
        c.within_capacity() ==> step(g, c, dir).car.within_capacity(),
        step(g, c, dir).grid.open_segments() <= g.open_segments(),
        dir is Some && step(g, c, dir).ok ==> step(g, c, dir).grid.open_segments()
            < g.open_segments(),
{
    assert forall|i: int| 0 <= i < g.cells.len() implies narrows(g.cells[i], #[trigger] g.cells[i]) by {}
    lemma_only_closes(g, g);
    match dir {
        None => {},
        Some(d) => {
            let from = g.at(c.x, c.y);
            if from.connected(d) {
                let left = from.with_conn(d, false).with_occupied(false);
                lemma_with_conn_narrows(from, d, false);
                lemma_narrows_count(from, left);
                lemma_put_narrows(g, c.x, c.y, left);
                let g1 = depart(g, c, d);
                lemma_only_closes(g, g1);
                assert(g1.open_segments() < g.open_segments());
                let c1 = c.rolled(d);
                assert(g.in_bounds(c1.x, c1.y));
                let to = g1.at(c1.x, c1.y);
                if !to.occupied {
                    let taken = to.with_conn(d.spec_rev(), false).with_occupied(true);
                    lemma_with_conn_narrows(to, d.spec_rev(), true);
                    lemma_narrows_count(to, taken);
                    lemma_put_narrows(g1, c1.x, c1.y, taken);
                    let g2 = enter(g1, c1, d);
                    lemma_only_closes(g1, g2);
                    lemma_only_closes_trans(g, g1, g2);
                    lemma_arrive(g2, c1);
                    let g3 = arrive(g2, c1).grid;
                    lemma_only_closes(g2, g3);
                    lemma_only_closes_trans(g, g2, g3);
                }
            }
        },
    }
}

/// Whether a move is legal depends on four things only: whether the
/// segment in its direction is open, whether the next cell is occupied,
/// what the next cell holds, and the car's cargo.
pub proof fn lemma_legality(g: Grid, c: CarModel, d: Dir)
    requires
        g.wf(),
        g.in_bounds(c.x, c.y),
        g.in_bounds(c.x + d.dx(), c.y + d.dy()),
    ensures
        step(g, c, Some(d)).ok == legal(
            g.at(c.x, c.y).connected(d),
            g.at(c.x + d.dx(), c.y + d.dy()).occupied,
            g.at(c.x + d.dx(), c.y + d.dy()).typ,
            c.cubes,
        ),
        step(g, c, None).ok,
{
    let from = g.at(c.x, c.y);
    if from.connected(d) {
        let left = from.with_conn(d, false).with_occupied(false);
        g.lemma_put(c.x, c.y, left);
        let g1 = depart(g, c, d);
        let c1 = c.rolled(d);
        let to = g1.at(c1.x, c1.y);
        assert(to == g.at(c1.x, c1.y));
        if !to.occupied {
            let taken = to.with_conn(d.spec_rev(), false).with_occupied(true);
            g1.lemma_put(c1.x, c1.y, taken);
            let g2 = enter(g1, c1, d);
            lemma_arrive(g2, c1);
        }
    }
}

/// The kinds that a button of colour `c` flips are the buttons and
/// bridges of colour `c`: an armed button becomes pushed and a pushed one
/// armed, an open bridge closes and a closed one opens. Every other kind,
/// and every button and bridge of another colour, stays as it is.
pub proof fn lemma_toggled_type(t: Type, c: Color)
    ensures
        t == Type::ArmedButton(c) ==> toggled_type(t, c) == Type::PushedButton(c),
        t == Type::PushedButton(c) ==> toggled_type(t, c) == Type::ArmedButton(c),
        t == Type::OpenBridge(c) ==> toggled_type(t, c) == Type::ClosedBridge(c),
        t == Type::ClosedBridge(c) ==> toggled_type(t, c) == Type::OpenBridge(c),
        t != Type::ArmedButton(c) && t != Type::PushedButton(c) && t != Type::OpenBridge(c) && t
            != Type::ClosedBridge(c) ==> toggled_type(t, c) == t,
        toggled_type(toggled_type(t, c), c) == t,
{
}

/// A car that enters an armed button of colour `k` flips exactly the
/// buttons and bridges of colour `k`, all over the grid: every cell keeps
/// its segments and its occupancy, and its kind changes as
/// [`toggled_type`] says.
pub proof fn lemma_button_press(g: Grid, c: CarModel, k: Color)
    requires
        g.wf(),
        g.in_bounds(c.x, c.y),
        g.at(c.x, c.y).typ == Type::ArmedButton(k),
    ensures
        arrive(g, c).ok,
        arrive(g, c).car == c,
        arrive(g, c).grid.width == g.width,
        arrive(g, c).grid.height == g.height,
        arrive(g, c).grid.cells.len() == g.cells.len(),
        forall|i: int|
            0 <= i < g.cells.len() ==> #[trigger] arrive(g, c).grid.cells[i] == g.cells[i].with_typ(
                toggled_type(g.cells[i].typ, k),
            ),
{
}

/// A move onto an armed button of colour `k`, along an open segment and
/// onto a free cell, is legal, takes the car there with its cargo as it
/// was, and changes the kinds of the grid as [`toggled_type`] says: the
/// buttons and bridges of colour `k` change state, everything else keeps
/// its kind.
pub proof fn lemma_button_move(g: Grid, c: CarModel, d: Dir, k: Color)
    requires
        g.wf(),
        g.in_bounds(c.x, c.y),
        g.in_bounds(c.x + d.dx(), c.y + d.dy()),
        g.at(c.x, c.y).connected(d),
        !g.at(c.x + d.dx(), c.y + d.dy()).occupied,
        g.at(c.x + d.dx(), c.y + d.dy()).typ == Type::ArmedButton(k),
    ensures
        step(g, c, Some(d)).ok,
        step(g, c, Some(d)).car == c.rolled(d),
        step(g, c, Some(d)).grid.cells.len() == g.cells.len(),
        forall|i: int|
            0 <= i < g.cells.len() ==> (#[trigger] step(g, c, Some(d)).grid.cells[i]).typ
                == toggled_type(g.cells[i].typ, k),
{
    let from = g.at(c.x, c.y);
    let left = from.with_conn(d, false).with_occupied(false);
    g.lemma_put(c.x, c.y, left);
    g.lemma_index(c.x, c.y);
    let g1 = depart(g, c, d);
    let c1 = c.rolled(d);
    let to = g1.at(c1.x, c1.y);
    assert(to == g.at(c1.x, c1.y));
    let taken = to.with_conn(d.spec_rev(), false).with_occupied(true);
    g1.lemma_put(c1.x, c1.y, taken);
    g1.lemma_index(c1.x, c1.y);
    let g2 = enter(g1, c1, d);
    lemma_button_press(g2, c1, k);
    assert forall|i: int| 0 <= i < g.cells.len() implies (#[trigger] step(g, c, Some(d)).grid.cells[i]).typ
        == toggled_type(g.cells[i].typ, k) by {
        assert(g2.cells[i].typ == g.cells[i].typ);
    }
}

} // verus!
