//! A house that no road leads to from any car is never filled.

use vstd::prelude::*;
use crate::elem::{CarModel, Dir};
use crate::enumerate::{power, target_vector};
use crate::laws::lemma_search_sound;
use crate::map::{arrive, depart, enter, step, Grid};
use crate::rules::{lemma_only_closes, lemma_only_closes_trans, lemma_step, narrows, only_closes};
use crate::search::{advance, candidates, drive, follow, lemma_advance, lemma_drive, Node, Path};
use crate::solver::{
    attempt, configured, lemma_candidates_playable, lemma_configured, start, unsolvable, zones,
};

verus! {

/// An open road leads from the cell `a` to the cell `b` next to it.
pub open spec fn linked(g: Grid, a: (int, int), b: (int, int)) -> bool {
    g.in_bounds(a.0, a.1) && exists|d: Dir|
        #[trigger] g.at(a.0, a.1).connected(d) && b == (a.0 + d.dx(), a.1 + d.dy())
}

/// Each cell of the route is linked to the next.
pub open spec fn is_route(g: Grid, route: Seq<(int, int)>) -> bool {
    &&& route.len() >= 1
    &&& forall|i: int| 0 <= i < route.len() - 1 ==> linked(g, #[trigger] route[i], route[i + 1])
}

/// A chain of open roads leads from `a` to `b`.
pub open spec fn reaches(g: Grid, a: (int, int), b: (int, int)) -> bool {
    exists|route: Seq<(int, int)>| #[trigger]
        is_route(g, route) && route[0] == a && route.last() == b
}

/// On the grid `g`, no chain of open roads leads from any of the cars to
/// the cell at column `hx` of row `hy`.
pub open spec fn out_of_reach(g: Grid, cars: Seq<CarModel>, hx: int, hy: int) -> bool {
    forall|i: int|
        0 <= i < cars.len() ==> !reaches(g, ((#[trigger] cars[i]).x, cars[i].y), (hx, hy))
}

/// The house at `(hx, hy)` still stands on `now`, a grid that has only
/// closed roads of `first`, and was out of reach of the cars on `first`.
pub open spec fn apart(first: Grid, now: Grid, cars: Seq<CarModel>, hx: int, hy: int) -> bool {
    &&& first.wf()
    &&& first.in_bounds(hx, hy)
    &&& only_closes(first, now)
    &&& now.at(hx, hy).typ is House
    &&& out_of_reach(first, cars, hx, hy)
}

/// A cell reaches itself, and a cell that is linked to one that reaches
/// `b` reaches `b`.
pub proof fn lemma_reaches(g: Grid, a: (int, int), via: (int, int), b: (int, int))
    ensures
        reaches(g, a, a),
        linked(g, a, via) && reaches(g, via, b) ==> reaches(g, a, b),
{
    let alone = seq![a];
    assert(is_route(g, alone) && alone[0] == a && alone.last() == a);
    if linked(g, a, via) && reaches(g, via, b) {
        let rest = choose|route: Seq<(int, int)>| #[trigger]
            is_route(g, route) && route[0] == via && route.last() == b;
        let whole = seq![a] + rest;
        assert forall|i: int| 0 <= i < whole.len() - 1 implies linked(
            g,
            #[trigger] whole[i],
            whole[i + 1],
        ) by {
            if i > 0 {
                assert(whole[i] == rest[i - 1]);
                assert(whole[i + 1] == rest[i]);
            } else {
                assert(whole[1] == rest[0]);
            }
        }
        assert(is_route(g, whole) && whole[0] == a && whole.last() == b);
    }
}

/// A move of a car that cannot reach the house leaves the house standing
/// and the car unable to reach it.
pub proof fn lemma_step_apart(first: Grid, g: Grid, c: CarModel, dir: Option<Dir>, hx: int, hy: int)
    requires
        first.wf(),
        first.in_bounds(hx, hy),
        only_closes(first, g),
        g.contained(),
        g.in_bounds(c.x, c.y),
        g.at(hx, hy).typ is House,
        !reaches(first, (c.x, c.y), (hx, hy)),
    ensures
        step(g, c, dir).grid.at(hx, hy).typ is House,
        !reaches(first, (step(g, c, dir).car.x, step(g, c, dir).car.y), (hx, hy)),
        only_closes(first, step(g, c, dir).grid),
{
    lemma_only_closes(first, g);
    lemma_step(g, c, dir);
    lemma_only_closes_trans(first, g, step(g, c, dir).grid);
    lemma_reaches(first, (c.x, c.y), (c.x, c.y), (hx, hy));
    match dir {
        None => {},
        Some(d) => {
            let from = g.at(c.x, c.y);
            if from.connected(d) {
                let c1 = c.rolled(d);
                // The road that the car takes was open at first.
                g.lemma_index(c.x, c.y);
                assert(narrows(first.cells[g.index(c.x, c.y)], g.cells[g.index(c.x, c.y)]));
                assert(first.at(c.x, c.y).connected(d));
                assert(linked(first, (c.x, c.y), (c1.x, c1.y)));
                lemma_reaches(first, (c.x, c.y), (c1.x, c1.y), (hx, hy));
                lemma_reaches(first, (c1.x, c1.y), (c1.x, c1.y), (hx, hy));
                // So neither cell of the move is the house.
                let left = from.with_conn(d, false).with_occupied(false);
                g.lemma_put(c.x, c.y, left);
                let g1 = depart(g, c, d);
                assert(g1.at(hx, hy) == g.at(hx, hy));
                let to = g1.at(c1.x, c1.y);
                if !to.occupied {
                    let taken = to.with_conn(d.spec_rev(), false).with_occupied(true);
                    g1.lemma_put(c1.x, c1.y, taken);
                    let g2 = enter(g1, c1, d);
                    assert(g2.at(hx, hy) == g.at(hx, hy));
                    g2.lemma_index(hx, hy);
                    g2.lemma_index(c1.x, c1.y);
                    let g3 = arrive(g2, c1).grid;
                    assert(g3.at(hx, hy).typ is House);
                }
            }
        },
    }
}

/// A joint move of cars that cannot reach the house leaves the house
/// standing and the cars unable to reach it.
pub proof fn lemma_drive_apart(
    first: Grid,
    g: Grid,
    cars: Seq<CarModel>,
    moves: Seq<Option<Dir>>,
    k: nat,
    hx: int,
    hy: int,
)
    requires
        g.wf(),
        g.contained(),
        forall|i: int| 0 <= i < cars.len() ==> g.in_bounds((#[trigger] cars[i]).x, cars[i].y),
        k <= cars.len(),
        k <= moves.len(),
        apart(first, g, cars, hx, hy),
    ensures
        apart(first, drive(g, cars, moves, k).grid, drive(g, cars, moves, k).cars, hx, hy),
    decreases k,
{
    if k > 0 {
        let before = drive(g, cars, moves, (k - 1) as nat);
        lemma_drive_apart(first, g, cars, moves, (k - 1) as nat, hx, hy);
        lemma_drive(g, cars, moves, (k - 1) as nat);
        if before.ok {
            let car = before.cars[k - 1];
            assert(before.grid.in_bounds(car.x, car.y));
            lemma_step_apart(first, before.grid, car, moves[k - 1], hx, hy);
            let after = drive(g, cars, moves, k);
            assert forall|i: int| 0 <= i < after.cars.len() implies !reaches(
                first,
                ((#[trigger] after.cars[i]).x, after.cars[i].y),
                (hx, hy),
            ) by {
                if i != k - 1 {
                    assert(after.cars[i] == before.cars[i]);
                }
            }
        }
    }
}

/// A path that starts with the house out of reach ends with the house
/// standing.
pub proof fn lemma_follow_apart(first: Grid, node: Node, path: Path, hx: int, hy: int)
    requires
        node.wf(),
        forall|t: int| 0 <= t < path.len() ==> (#[trigger] path[t]).len() == node.cars.len(),
        follow(node, path) is Some,
        apart(first, node.grid, node.cars, hx, hy),
    ensures
        !follow(node, path)->0.solved(),
    decreases path.len(),
{
    if path.len() == 0 {
        node.grid.lemma_index(hx, hy);
        assert(node.grid.cells[node.grid.index(hx, hy)].typ is House);
    } else {
        let m = path[0];
        let next = advance(node, m)->0;
        lemma_advance(node, m);
        lemma_drive_apart(first, node.grid, node.cars, m, node.cars.len(), hx, hy);
        let rest = path.skip(1);
        assert forall|t: int| 0 <= t < rest.len() implies (#[trigger] rest[t]).len()
            == next.cars.len() by {
            assert(rest[t] == path[t + 1]);
        }
        lemma_follow_apart(first, next, rest, hx, hy);
    }
}

/// A house that no chain of open roads reaches from any car's cell is
/// never filled: the search finds no solution, whatever the assignment
/// of the delivery zones.
pub proof fn lemma_house_out_of_reach(root: Node, hx: int, hy: int)
    requires
        root.wf(),
        root.grid.in_bounds(hx, hy),
        root.grid.at(hx, hy).typ is House,
        out_of_reach(root.grid, root.cars, hx, hy),
    ensures
        unsolvable(root),
{
    let z = zones(root.grid.cells);
    let n = root.cars.len();
    let cands = candidates(n);
    lemma_candidates_playable(n);
    assert forall|k: nat| k < power(2, z) implies (#[trigger] attempt(
        root,
        target_vector(z, k),
    )) is None by {
        let targets = target_vector(z, k);
        let node = start(root, targets);
        lemma_configured(root.grid, targets);
        root.grid.lemma_index(hx, hy);
        assert(configured(root.grid, targets).at(hx, hy).typ is House);
        if attempt(root, targets) is Some {
            let path = attempt(root, targets)->0;
            lemma_search_sound(node, cands, 0);
            assert forall|t: int| 0 <= t < path.len() implies (#[trigger] path[t]).len() == n by {
                assert(cands.contains(path[t]));
                let j = choose|j: int| 0 <= j < cands.len() && cands[j] == path[t];
                assert(cands[j].len() == n);
            }
            lemma_follow_apart(root.grid, node, path, hx, hy);
        }
    }
}

} // verus!
