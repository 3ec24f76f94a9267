//! Where every car starts on a cell that is flagged occupied, no two cars
//! ever share a cell.

use vstd::prelude::*;
use crate::elem::{CarModel, Dir};
use crate::map::{arrive, depart, enter, step, Grid};
use crate::search::{advance, drive, follow, lemma_advance, lemma_drive, Node, Path};

verus! {

/// Every car stands on a cell of the grid that is flagged occupied, and
/// no two cars stand on the same cell.
pub open spec fn parked(g: Grid, cars: Seq<CarModel>) -> bool {
    &&& forall|i: int|
        0 <= i < cars.len() ==> g.in_bounds((#[trigger] cars[i]).x, cars[i].y) && g.at(
            cars[i].x,
            cars[i].y,
        ).occupied
    &&& forall|i: int, j: int|
        0 <= i < j < cars.len() ==> ((#[trigger] cars[i]).x, cars[i].y) != ((#[trigger] cars[j]).x, cars[j].y)
}

/// The rules of the entered cell change no flag.
pub proof fn lemma_arrive_flags(g: Grid, c: CarModel)
    requires
        g.wf(),
        g.in_bounds(c.x, c.y),
    ensures
        arrive(g, c).grid.width == g.width,
        arrive(g, c).grid.height == g.height,
        forall|x: int, y: int|
            g.in_bounds(x, y) ==> (#[trigger] arrive(g, c).grid.at(x, y)).occupied == g.at(
                x,
                y,
            ).occupied,
{
    let h = arrive(g, c).grid;
    assert forall|x: int, y: int| g.in_bounds(x, y) implies (#[trigger] h.at(x, y)).occupied == g.at(
        x,
        y,
    ).occupied by {
        g.lemma_index(x, y);
        g.lemma_index(c.x, c.y);
    }
}

/// A legal move of one parked car leaves the cars parked.
pub proof fn lemma_step_parked(g: Grid, cars: Seq<CarModel>, k: int, dir: Option<Dir>)
    requires
        g.wf(),
        g.contained(),
        parked(g, cars),
        0 <= k < cars.len(),
        step(g, cars[k], dir).ok,
    ensures
        parked(step(g, cars[k], dir).grid, cars.update(k, step(g, cars[k], dir).car)),
{
    let c = cars[k];
    let m = step(g, c, dir);
    let moved = cars.update(k, m.car);
    match dir {
        None => {
            assert(moved =~= cars);
        },
        Some(d) => {
            let from = g.at(c.x, c.y);
            let left = from.with_conn(d, false).with_occupied(false);
            g.lemma_put(c.x, c.y, left);
            let g1 = depart(g, c, d);
            let c1 = c.rolled(d);
            let to = g1.at(c1.x, c1.y);
            let taken = to.with_conn(d.spec_rev(), false).with_occupied(true);
            g1.lemma_put(c1.x, c1.y, taken);
            let g2 = enter(g1, c1, d);
            lemma_arrive_flags(g2, c1);
            assert forall|i: int| 0 <= i < moved.len() implies m.grid.in_bounds(
                (#[trigger] moved[i]).x,
                moved[i].y,
            ) && m.grid.at(moved[i].x, moved[i].y).occupied && (i != k ==> (moved[i].x, moved[i].y)
                != (c1.x, c1.y)) by {
                if i != k {
                    assert(moved[i] == cars[i]);
                    if i < k {
                        assert((cars[i].x, cars[i].y) != (cars[k].x, cars[k].y));
                    } else {
                        assert((cars[k].x, cars[k].y) != (cars[i].x, cars[i].y));
                    }
                    assert(g1.at(cars[i].x, cars[i].y).occupied);
                    assert(g2.at(cars[i].x, cars[i].y).occupied);
                } else {
                    assert(g2.at(c1.x, c1.y).occupied);
                }
            }
            assert forall|i: int, j: int| 0 <= i < j < moved.len() implies ((#[trigger] moved[i]).x, moved[i].y)
                != ((#[trigger] moved[j]).x, moved[j].y) by {
                if i != k && j != k {
                    assert(moved[i] == cars[i] && moved[j] == cars[j]);
                }
            }
        },
    }
}

/// An accepted joint move of parked cars leaves them parked.
pub proof fn lemma_drive_parked(g: Grid, cars: Seq<CarModel>, moves: Seq<Option<Dir>>, k: nat)
    requires
        g.wf(),
        g.contained(),
        parked(g, cars),
        k <= cars.len(),
        k <= moves.len(),
        drive(g, cars, moves, k).ok,
    ensures
        parked(drive(g, cars, moves, k).grid, drive(g, cars, moves, k).cars),
    decreases k,
{
    if k > 0 {
        let before = drive(g, cars, moves, (k - 1) as nat);
        lemma_drive(g, cars, moves, (k - 1) as nat);
        lemma_drive_parked(g, cars, moves, (k - 1) as nat);
        lemma_step_parked(before.grid, before.cars, k - 1, moves[k - 1]);
    }
}

/// No two cars ever share a cell: along every path that is accepted tick
/// by tick from a node whose cars are parked, the cars stay parked.
pub proof fn lemma_follow_parked(node: Node, path: Path)
    requires
        node.wf(),
        parked(node.grid, node.cars),
        forall|t: int| 0 <= t < path.len() ==> (#[trigger] path[t]).len() == node.cars.len(),
        follow(node, path) is Some,
    ensures
        parked(follow(node, path)->0.grid, follow(node, path)->0.cars),
    decreases path.len(),
{
    if path.len() > 0 {
        let m = path[0];
        let next = advance(node, m)->0;
        lemma_advance(node, m);
        lemma_drive_parked(node.grid, node.cars, m, node.cars.len());
        let rest = path.skip(1);
        assert forall|t: int| 0 <= t < rest.len() implies (#[trigger] rest[t]).len()
            == next.cars.len() by {
            assert(rest[t] == path[t + 1]);
        }
        lemma_follow_parked(next, rest);
    }
}

} // verus!
