//! What holds of every path that the search returns, and of every search
//! that returns none.

use vstd::prelude::*;
use crate::elem::{CarModel, Dir};
use crate::enumerate::{
    all_idle, lemma_all_idle_is_last, lemma_move_vector_of_rank, lemma_target_vector_len,
    lemma_target_vector_of_rank, power, rank_of_moves, rank_of_targets, target_vector,
};
use crate::map::{arrive, depart, enter, step, Grid};
use crate::search::{
    advance, candidates, drive, follow, idle_locked, lemma_advance, lemma_drive,
    lemma_follow_rest, lemma_trace_follow, playable, search, search_from, trace, Node, Path,
};
use crate::solver::{
    attempt, first_solution, grown, lemma_candidates_playable, lemma_configured, start,
    unsolvable, zones, SolutionModel,
};
use crate::trail::{place, stays_inside};

verus! {

/// Every joint move of the path is one of the candidates.
pub open spec fn drawn_from(path: Path, cands: Path) -> bool {
    forall|t: int| 0 <= t < path.len() ==> cands.contains(#[trigger] path[t])
}

/// Every joint move of the path has one move per car, and in each some
/// car moves.
pub open spec fn proper(path: Path, n: nat) -> bool {
    forall|t: int| 0 <= t < path.len() ==> (#[trigger] path[t]).len() == n && !all_idle(path[t])
}

/// A car that waits at one tick waits at every later tick.
pub open spec fn stays_idle(path: Path) -> bool {
    forall|t: int, u: int, i: int|
        0 <= t <= u < path.len() && 0 <= i < path[t].len() && i < path[u].len() && (
        #[trigger] path[t][i]) is None ==> (#[trigger] path[u][i]) is None
}

/// `after` has a house only where `before` has one.
pub open spec fn builds_no_house(before: Grid, after: Grid) -> bool {
    &&& after.cells.len() == before.cells.len()
    &&& forall|i: int|
        0 <= i < before.cells.len() && (#[trigger] after.cells[i]).typ is House
            ==> before.cells[i].typ is House
}

/// No move of a car builds a house.
pub proof fn lemma_step_builds_no_house(g: Grid, c: CarModel, dir: Option<Dir>)
    requires
        g.wf(),
        g.contained(),
        g.in_bounds(c.x, c.y),
    ensures
        builds_no_house(g, step(g, c, dir).grid),
{
    match dir {
        None => {},
        Some(d) => {
            let from = g.at(c.x, c.y);
            if from.connected(d) {
                g.lemma_index(c.x, c.y);
                let g1 = depart(g, c, d);
                assert(builds_no_house(g, g1));
                let c1 = c.rolled(d);
                g1.lemma_index(c1.x, c1.y);
                if !g1.at(c1.x, c1.y).occupied {
                    let g2 = enter(g1, c1, d);
                    assert(builds_no_house(g1, g2));
                    g2.lemma_index(c1.x, c1.y);
                    let g3 = arrive(g2, c1).grid;
                    assert(builds_no_house(g2, g3)) by {
                        if g2.at(c1.x, c1.y).typ is DropOn && c1.cubes.len() > 0 {
                            assert(c1.cubes.last() is Cube ==> !(c1.cubes.last() is House));
                        }
                    }
                }
            }
        },
    }
}

/// No joint move builds a house.
pub proof fn lemma_drive_builds_no_house(
    g: Grid,
    cars: Seq<CarModel>,
    moves: Seq<Option<Dir>>,
    k: nat,
)
    requires
        g.wf(),
        g.contained(),
        forall|i: int| 0 <= i < cars.len() ==> g.in_bounds((#[trigger] cars[i]).x, cars[i].y),
        k <= cars.len(),
        k <= moves.len(),
    ensures
        builds_no_house(g, drive(g, cars, moves, k).grid),
    decreases k,
{
    if k > 0 {
        let before = drive(g, cars, moves, (k - 1) as nat);
        lemma_drive_builds_no_house(g, cars, moves, (k - 1) as nat);
        lemma_drive(g, cars, moves, (k - 1) as nat);
        if before.ok {
            let car = before.cars[k - 1];
            assert(before.grid.in_bounds(car.x, car.y));
            lemma_step_builds_no_house(before.grid, car, moves[k - 1]);
        }
    }
}

/// A node without houses stays without houses after an accepted joint
/// move.
pub proof fn lemma_advance_stays_solved(node: Node, moves: Seq<Option<Dir>>)
    requires
        node.wf(),
        moves.len() == node.cars.len(),
        node.solved(),
        advance(node, moves) is Some,
    ensures
        advance(node, moves)->0.solved(),
{
    lemma_drive_builds_no_house(node.grid, node.cars, moves, node.cars.len());
    let next = advance(node, moves)->0;
    if next.grid.has_house() {
        let i = choose|i: int| 0 <= i < next.grid.cells.len() && (#[trigger] next.grid.cells[i]).typ is House;
        assert(node.grid.cells[i].typ is House);
    }
}

/// On a grid without houses the search ends with the first joint move
/// that is accepted: it returns that one move as a path of one tick, and
/// returns nothing exactly if no candidate is accepted.
pub proof fn lemma_no_house_one_tick(node: Node, cands: Path, k: nat)
    requires
        node.wf(),
        playable(cands, node.cars.len()),
        node.solved(),
    ensures
        match search_from(node, cands, k) {
            Some(path) => exists|j: int|
                k <= j < cands.len() && path == seq![#[trigger] cands[j]] && advance(
                    node,
                    cands[j],
                ) is Some && forall|i: int|
                    k <= i < j ==> advance(node, #[trigger] cands[i]) is None,
            None => forall|j: int|
                k <= j < cands.len() ==> advance(node, #[trigger] cands[j]) is None,
        },
    decreases cands.len() - k,
{
    if k < cands.len() {
        match advance(node, cands[k as int]) {
            None => {
                lemma_no_house_one_tick(node, cands, k + 1);
                match search_from(node, cands, k) {
                    Some(path) => {
                        let j = choose|j: int|
                            k + 1 <= j < cands.len() && path == seq![#[trigger] cands[j]]
                                && advance(node, cands[j]) is Some && forall|i: int|
                                k + 1 <= i < j ==> advance(node, #[trigger] cands[i]) is None;
                        assert(k <= j < cands.len() && path == seq![cands[j]] && advance(
                            node,
                            cands[j],
                        ) is Some && forall|i: int|
                            k <= i < j ==> advance(node, #[trigger] cands[i]) is None);
                    },
                    None => {},
                }
            },
            Some(next) => {
                lemma_advance_stays_solved(node, cands[k as int]);
                let j = k as int;
                assert(search_from(node, cands, k) == Some(seq![cands[j]]));
            },
        }
    }
}

/// What holds of a path that the search returns: it has at least one
/// tick, each of its joint moves is a candidate and is accepted in turn,
/// the node it leads to has no house left, and no car that waited before
/// the search, or at a tick of the path, moves at the next.
pub proof fn lemma_search_sound(node: Node, cands: Path, k: nat)
    requires
        node.wf(),
        playable(cands, node.cars.len()),
        search_from(node, cands, k) is Some,
    ensures
        search_from(node, cands, k)->0.len() >= 1,
        drawn_from(search_from(node, cands, k)->0, cands),
        follow(node, search_from(node, cands, k)->0) is Some,
        follow(node, search_from(node, cands, k)->0)->0.solved(),
        idle_locked(node.from, search_from(node, cands, k)->0[0]),
        forall|t: int|
            0 <= t < search_from(node, cands, k)->0.len() - 1 ==> idle_locked(
                #[trigger] search_from(node, cands, k)->0[t],
                search_from(node, cands, k)->0[t + 1],
            ),
    decreases node.grid.open_segments(), cands.len() - k,
{
    let path = search_from(node, cands, k)->0;
    if k < cands.len() {
        let m = cands[k as int];
        match advance(node, m) {
            None => {
                lemma_search_sound(node, cands, k + 1);
            },
            Some(next) => {
                lemma_advance(node, m);
                if next.solved() {
                    assert(path == seq![m]);
                    assert(path.skip(1) =~= Seq::<Seq<Option<Dir>>>::empty());
                    assert(follow(next, path.skip(1)) == Some(next));
                    assert(cands.contains(m));
                } else {
                    match search_from(next, cands, 0) {
                        Some(rest) => {
                            lemma_search_sound(next, cands, 0);
                            assert(path == seq![m] + rest);
                            assert(path.skip(1) =~= rest);
                            assert(cands.contains(m));
                            assert forall|t: int| 0 <= t < path.len() implies cands.contains(
                                #[trigger] path[t],
                            ) by {
                                if t > 0 {
                                    assert(path[t] == rest[t - 1]);
                                }
                            }
                            assert forall|t: int| 0 <= t < path.len() - 1 implies idle_locked(
                                #[trigger] path[t],
                                path[t + 1],
                            ) by {
                                if t > 0 {
                                    assert(path[t] == rest[t - 1]);
                                    assert(path[t + 1] == rest[t]);
                                } else {
                                    assert(path[1] == rest[0]);
                                }
                            }
                        },
                        None => {
                            lemma_search_sound(node, cands, k + 1);
                        },
                    }
                }
            },
        }
    }
}

/// In a path whose joint moves all have `n` entries and lock tick by tick,
/// a car that waits at one tick waits at every later tick.
pub proof fn lemma_idle_lock_carries(path: Path, n: nat)
    requires
        forall|t: int| 0 <= t < path.len() ==> (#[trigger] path[t]).len() == n,
        forall|t: int| 0 <= t < path.len() - 1 ==> idle_locked(#[trigger] path[t], path[t + 1]),
    ensures
        stays_idle(path),
{
    assert forall|t: int, u: int, i: int|
        0 <= t <= u < path.len() && 0 <= i < path[t].len() && i < path[u].len() && (
        #[trigger] path[t][i]) is None implies (#[trigger] path[u][i]) is None by {
        lemma_idle_lock_reaches(path, n, t, u, i);
    }
}

/// One car, from one tick to a later one.
proof fn lemma_idle_lock_reaches(path: Path, n: nat, t: int, u: int, i: int)
    requires
        forall|t: int| 0 <= t < path.len() ==> (#[trigger] path[t]).len() == n,
        forall|t: int| 0 <= t < path.len() - 1 ==> idle_locked(#[trigger] path[t], path[t + 1]),
        0 <= t <= u < path.len(),
        0 <= i < n,
        path[t][i] is None,
    ensures
        path[u][i] is None,
    decreases u - t,
{
    if t < u {
        lemma_idle_lock_reaches(path, n, t, u - 1, i);
        assert(idle_locked(path[u - 1], path[u]));
        assert(path[u - 1][i] is None);
    }
}

/// The idle-lock holds in every path that the search returns: a car that
/// waits at one tick waits at every later tick.
pub proof fn lemma_search_stays_idle(node: Node, cands: Path)
    requires
        node.wf(),
        playable(cands, node.cars.len()),
        search(node, cands) is Some,
    ensures
        stays_idle(search(node, cands)->0),
        proper(search(node, cands)->0, node.cars.len()),
{
    lemma_search_sound(node, cands, 0);
    let path = search(node, cands)->0;
    assert forall|t: int| 0 <= t < path.len() implies (#[trigger] path[t]).len() == node.cars.len()
        && !all_idle(path[t]) by {
        assert(cands.contains(path[t]));
        let j = choose|j: int| 0 <= j < cands.len() && cands[j] == path[t];
        assert(cands[j].len() == node.cars.len());
    }
    lemma_idle_lock_carries(path, node.cars.len());
}

/// Where the search finds nothing, nothing is there: no path of
/// candidates, however long, is accepted tick by tick and leads to a grid
/// without houses.
pub proof fn lemma_search_complete(node: Node, cands: Path, path: Path)
    requires
        node.wf(),
        playable(cands, node.cars.len()),
        search(node, cands) is None,
        path.len() >= 1,
        drawn_from(path, cands),
        follow(node, path) is Some,
    ensures
        !follow(node, path)->0.solved(),
    decreases node.grid.open_segments(),
{
    let m = path[0];
    assert(cands.contains(m));
    let j = choose|j: int| 0 <= j < cands.len() && cands[j] == m;
    lemma_search_none_at(node, cands, 0, j as nat);
    let next = advance(node, m)->0;
    lemma_advance(node, m);
    let rest = path.skip(1);
    if rest.len() == 0 {
        assert(follow(next, rest) == Some(next));
    } else {
        assert forall|t: int| 0 <= t < rest.len() implies cands.contains(#[trigger] rest[t]) by {
            assert(rest[t] == path[t + 1]);
        }
        lemma_search_complete(next, cands, rest);
    }
}

/// A search that finds nothing from candidate `k` on found nothing at
/// candidate `j`: it was rejected, or led to a node that has a house and
/// from which nothing is found.
proof fn lemma_search_none_at(node: Node, cands: Path, k: nat, j: nat)
    requires
        node.wf(),
        playable(cands, node.cars.len()),
        search_from(node, cands, k) is None,
        k <= j < cands.len(),
    ensures
        advance(node, cands[j as int]) is Some ==> !advance(node, cands[j as int])->0.solved()
            && search(advance(node, cands[j as int])->0, cands) is None,
    decreases j - k,
{
    if advance(node, cands[k as int]) is Some {
        lemma_advance(node, cands[k as int]);
    }
    if k < j {
        lemma_search_none_at(node, cands, k + 1, j);
    }
}

/// The path leads to a grid without houses, and no shorter beginning of
/// it does.
pub open spec fn wins(node: Node, path: Path) -> bool {
    &&& path.len() >= 1
    &&& follow(node, path) is Some
    &&& follow(node, path)->0.solved()
    &&& forall|t: int|
        1 <= t < path.len() ==> !(#[trigger] follow(node, path.take(t)))->0.solved()
}

/// `p` comes no later than `q` in the order of the search: they are
/// equal, or at the first tick at which they differ the joint move of `p`
/// stands before that of `q` among the candidates.
pub open spec fn no_later(cands: Path, p: Path, q: Path) -> bool {
    p == q || exists|t: int, i: int, j: int|
        0 <= t < p.len() && t < q.len() && p.take(t) == q.take(t) && 0 <= i < j < cands.len()
            && #[trigger] cands[i] == #[trigger] p[t] && #[trigger] cands[j] == q[t]
}

/// A path that the search returns wins: it leads to a grid without
/// houses, and no shorter beginning of it does.
pub proof fn lemma_search_wins(node: Node, cands: Path, k: nat)
    requires
        node.wf(),
        playable(cands, node.cars.len()),
        search_from(node, cands, k) is Some,
    ensures
        wins(node, search_from(node, cands, k)->0),
    decreases node.grid.open_segments(), cands.len() - k,
{
    let path = search_from(node, cands, k)->0;
    lemma_search_sound(node, cands, k);
    if k < cands.len() {
        let m = cands[k as int];
        match advance(node, m) {
            None => {
                lemma_search_wins(node, cands, k + 1);
            },
            Some(next) => {
                lemma_advance(node, m);
                if !next.solved() {
                    match search_from(next, cands, 0) {
                        Some(rest) => {
                            lemma_search_wins(next, cands, 0);
                            assert(path == seq![m] + rest);
                            assert(path.skip(1) =~= rest);
                            assert forall|t: int| 1 <= t < path.len() implies !(#[trigger] follow(
                                node,
                                path.take(t),
                            ))->0.solved() by {
                                lemma_follow_rest(node, path, t);
                                if t == 1 {
                                    assert(rest.take(0) =~= Seq::<Seq<Option<Dir>>>::empty());
                                    assert(follow(next, rest.take(0)) == Some(next));
                                }
                            }
                        },
                        None => {
                            lemma_search_wins(node, cands, k + 1);
                        },
                    }
                }
            },
        }
    }
}

/// The search finds the first winning path: if any path of candidates
/// wins, the search returns one, and it returns the one that comes first
/// in the order in which the candidates are tried, tick by tick.
pub proof fn lemma_search_first(node: Node, cands: Path, q: Path)
    requires
        node.wf(),
        playable(cands, node.cars.len()),
        drawn_from(q, cands),
        wins(node, q),
    ensures
        search(node, cands) is Some,
        no_later(cands, search(node, cands)->0, q),
    decreases node.grid.open_segments(), cands.len(),
{
    assert(cands.contains(q[0]));
    let j = choose|j: int| 0 <= j < cands.len() && cands[j] == q[0];
    lemma_search_first_from(node, cands, q, 0, j as nat);
}

/// [`lemma_search_first`] for the search from candidate `k` on, where the
/// first joint move of `q` is candidate `j`.
proof fn lemma_search_first_from(node: Node, cands: Path, q: Path, k: nat, j: nat)
    requires
        node.wf(),
        playable(cands, node.cars.len()),
        drawn_from(q, cands),
        wins(node, q),
        k <= j < cands.len(),
        cands[j as int] == q[0],
    ensures
        search_from(node, cands, k) is Some,
        no_later(cands, search_from(node, cands, k)->0, q),
    decreases node.grid.open_segments(), j - k,
{
    let m = cands[k as int];
    if k < j {
        match advance(node, m) {
            None => {
                lemma_search_first_from(node, cands, q, k + 1, j);
            },
            Some(next) => {
                lemma_advance(node, m);
                if !next.solved() && search_from(next, cands, 0) is None {
                    lemma_search_first_from(node, cands, q, k + 1, j);
                } else {
                    let p = search_from(node, cands, k)->0;
                    assert(p[0] == m);
                    assert(p.take(0) =~= q.take(0));
                    assert(cands[k as int] == p[0] && cands[j as int] == q[0]);
                }
            },
        }
    } else {
        assert(q.take(q.len() as int) =~= q);
        assert(advance(node, m) is Some);
        let next = advance(node, m)->0;
        lemma_advance(node, m);
        let rest = q.skip(1);
        if next.solved() {
            if q.len() > 1 {
                lemma_follow_rest(node, q, 1);
                assert(rest.take(0) =~= Seq::<Seq<Option<Dir>>>::empty());
                assert(follow(node, q.take(1)) == Some(next));
            }
            assert(q =~= seq![m]);
        } else {
            lemma_follow_rest(node, q, q.len() as int);
            assert(rest.take(rest.len() as int) =~= rest);
            if rest.len() == 0 {
                assert(follow(next, rest) == Some(next));
            }
            assert forall|t: int| 0 <= t < rest.len() implies cands.contains(#[trigger] rest[t]) by {
                assert(rest[t] == q[t + 1]);
            }
            assert forall|t: int| 1 <= t < rest.len() implies !(#[trigger] follow(
                next,
                rest.take(t),
            ))->0.solved() by {
                lemma_follow_rest(node, q, t + 1);
                assert(!follow(node, q.take(t + 1))->0.solved());
            }
            lemma_search_first(next, cands, rest);
            let found = search(next, cands)->0;
            let p = search_from(node, cands, k)->0;
            assert(p == seq![m] + found);
            if found == rest {
                assert(p =~= q);
            } else {
                let (t, a, b) = choose|t: int, a: int, b: int|
                    0 <= t < found.len() && t < rest.len() && found.take(t) == rest.take(t) && 0
                        <= a < b < cands.len() && #[trigger] cands[a] == #[trigger] found[t]
                        && #[trigger] cands[b] == rest[t];
                assert(p.take(t + 1) =~= seq![m] + found.take(t));
                assert(q.take(t + 1) =~= seq![m] + rest.take(t));
                assert(p[t + 1] == found[t] && q[t + 1] == rest[t]);
                assert(0 <= t + 1 < p.len() && t + 1 < q.len() && p.take(t + 1) == q.take(t + 1)
                    && 0 <= a < b < cands.len() && cands[a] == p[t + 1] && cands[b] == q[t + 1]);
            }
        }
    }
}

/// Every joint move of `n` cars in which some car moves is a candidate.
pub proof fn lemma_candidates_cover(n: nat, moves: Seq<Option<Dir>>)
    requires
        moves.len() == n,
        !all_idle(moves),
    ensures
        candidates(n).contains(moves),
{
    lemma_move_vector_of_rank(moves);
    let k = rank_of_moves(moves);
    lemma_all_idle_is_last(n, k);
    assert(k < power(5, n) - 1);
    assert(candidates(n)[k as int] == moves);
}

/// A car whose move is legal ends one cell further in the direction of
/// the move, or where it was if it waited.
pub proof fn lemma_step_position(g: Grid, c: CarModel, dir: Option<Dir>)
    requires
        g.wf(),
        g.in_bounds(c.x, c.y),
        step(g, c, dir).ok,
    ensures
        step(g, c, dir).car.x == c.x + shift(dir).0,
        step(g, c, dir).car.y == c.y + shift(dir).1,
{
}

/// After an accepted joint move every car stands where its move leads.
pub proof fn lemma_drive_positions(g: Grid, cars: Seq<CarModel>, moves: Seq<Option<Dir>>, k: nat)
    requires
        g.wf(),
        g.contained(),
        forall|i: int| 0 <= i < cars.len() ==> g.in_bounds((#[trigger] cars[i]).x, cars[i].y),
        k <= cars.len(),
        k <= moves.len(),
        drive(g, cars, moves, k).ok,
    ensures
        forall|i: int|
            0 <= i < k ==> (#[trigger] drive(g, cars, moves, k).cars[i]).x == cars[i].x + shift(
                moves[i],
            ).0 && drive(g, cars, moves, k).cars[i].y == cars[i].y + shift(moves[i]).1,
    decreases k,
{
    if k > 0 {
        let before = drive(g, cars, moves, (k - 1) as nat);
        lemma_drive(g, cars, moves, (k - 1) as nat);
        lemma_drive_positions(g, cars, moves, (k - 1) as nat);
        let car = before.cars[k - 1];
        assert(car == cars[k - 1]);
        assert(before.grid.in_bounds(car.x, car.y));
        lemma_step_position(before.grid, car, moves[k - 1]);
    }
}

/// The change of position that a move makes.
pub open spec fn shift(m: Option<Dir>) -> (int, int) {
    match m {
        None => (0, 0),
        Some(d) => (d.dx(), d.dy()),
    }
}

/// Following a path and then one more joint move is following the longer
/// path.
pub proof fn lemma_follow_push(node: Node, path: Path, m: Seq<Option<Dir>>)
    ensures
        follow(node, path.push(m)) == match follow(node, path) {
            None => None,
            Some(n) => advance(n, m),
        },
    decreases path.len(),
{
    let longer = path.push(m);
    if path.len() == 0 {
        assert(longer.skip(1) =~= Seq::<Seq<Option<Dir>>>::empty());
        assert(longer[0] == m);
        match advance(node, m) {
            None => {},
            Some(next) => {
                assert(follow(next, longer.skip(1)) == Some(next));
            },
        }
    } else {
        assert(longer[0] == path[0]);
        assert(longer.skip(1) =~= path.skip(1).push(m));
        match advance(node, path[0]) {
            None => {},
            Some(next) => {
                lemma_follow_push(next, path.skip(1), m);
            },
        }
    }
}

/// What holds at every tick of a path that is accepted from a
/// well-formed node: the node reached is well formed and holds the same
/// cars, each car stands where its moves lead, and a car whose cargo was
/// within capacity at the start has it within capacity still.
pub proof fn lemma_follow_ticks(node: Node, path: Path, t: int)
    requires
        node.wf(),
        forall|k: int| 0 <= k < path.len() ==> (#[trigger] path[k]).len() == node.cars.len(),
        follow(node, path) is Some,
        0 <= t <= path.len(),
    ensures
        follow(node, path.take(t)) is Some,
        follow(node, path.take(t))->0.wf(),
        follow(node, path.take(t))->0.cars.len() == node.cars.len(),
        follow(node, path.take(t))->0.grid.width == node.grid.width,
        follow(node, path.take(t))->0.grid.height == node.grid.height,
        forall|i: int|
            0 <= i < node.cars.len() ==> ((#[trigger] follow(node, path.take(t))->0.cars[i]).x, follow(
                node,
                path.take(t),
            )->0.cars[i].y) == place(node.cars[i], path, i, t),
        forall|i: int|
            0 <= i < node.cars.len() && node.cars[i].within_capacity() ==> (#[trigger] follow(
                node,
                path.take(t),
            )->0.cars[i]).within_capacity(),
    decreases path.len() - t,
{
    if t == path.len() {
        assert(path.take(t) =~= path);
        if t > 0 {
            lemma_follow_ticks_step(node, path, t);
        } else {
            assert(follow(node, path) == Some(node));
        }
    } else {
        lemma_follow_ticks(node, path, t + 1);
        let shorter_path = path.take(t);
        let m = path[t];
        assert(path.take(t + 1) =~= shorter_path.push(m));
        lemma_follow_push(node, shorter_path, m);
        if t > 0 {
            lemma_follow_ticks_step(node, path, t);
        } else {
            assert(shorter_path =~= Seq::<Seq<Option<Dir>>>::empty());
            assert(follow(node, shorter_path) == Some(node));
        }
    }
}

/// One tick of [`lemma_follow_ticks`], given that the path is accepted up
/// to tick `t`.
proof fn lemma_follow_ticks_step(node: Node, path: Path, t: int)
    requires
        node.wf(),
        forall|k: int| 0 <= k < path.len() ==> (#[trigger] path[k]).len() == node.cars.len(),
        follow(node, path.take(t)) is Some,
        0 < t <= path.len(),
    ensures
        follow(node, path.take(t))->0.wf(),
        follow(node, path.take(t))->0.cars.len() == node.cars.len(),
        follow(node, path.take(t))->0.grid.width == node.grid.width,
        follow(node, path.take(t))->0.grid.height == node.grid.height,
        forall|i: int|
            0 <= i < node.cars.len() ==> ((#[trigger] follow(node, path.take(t))->0.cars[i]).x, follow(
                node,
                path.take(t),
            )->0.cars[i].y) == place(node.cars[i], path, i, t),
        forall|i: int|
            0 <= i < node.cars.len() && node.cars[i].within_capacity() ==> (#[trigger] follow(
                node,
                path.take(t),
            )->0.cars[i]).within_capacity(),
    decreases t,
{
    let before_path = path.take(t - 1);
    let m = path[t - 1];
    assert(path.take(t) =~= before_path.push(m));
    lemma_follow_push(node, before_path, m);
    let before = follow(node, before_path)->0;
    if t > 1 {
        lemma_follow_ticks_step(node, path, t - 1);
    } else {
        assert(before_path =~= Seq::<Seq<Option<Dir>>>::empty());
        assert(before == node);
        assert forall|i: int| 0 <= i < node.cars.len() implies (node.cars[i].x, node.cars[i].y)
            == place(node.cars[i], path, i, 0) by {}
    }
    lemma_advance(before, m);
    let n = before.cars.len();
    lemma_drive(before.grid, before.cars, m, n);
    lemma_drive_positions(before.grid, before.cars, m, n);
    let after = advance(before, m)->0;
    assert forall|i: int| 0 <= i < node.cars.len() implies ((#[trigger] after.cars[i]).x, after.cars[i].y)
        == place(node.cars[i], path, i, t) by {
        assert((before.cars[i].x, before.cars[i].y) == place(node.cars[i], path, i, t - 1));
        assert(path[t - 1][i] == m[i]);
    }
}

/// A solution keeps every car on the grid at every tick, and has a move
/// for every car in every joint move.
pub proof fn lemma_solution_stays_inside(root: Node, sol: SolutionModel)
    requires
        root.wf(),
        first_solution(root, sol),
    ensures
        stays_inside(root.grid, root.cars, sol.dirs),
{
    lemma_solution_sound(root, sol);
    lemma_start(root, sol.targets);
    let node = start(root, sol.targets);
    assert forall|i: int, t: int| 0 <= i < root.cars.len() && 0 <= t <= sol.dirs.len() implies root.grid.in_bounds(
        (#[trigger] place(root.cars[i], sol.dirs, i, t)).0,
        place(root.cars[i], sol.dirs, i, t).1,
    ) by {
        lemma_follow_ticks(node, sol.dirs, t);
        let reached = follow(node, sol.dirs.take(t))->0;
        assert(reached.grid.in_bounds(reached.cars[i].x, reached.cars[i].y));
    }
}

/// Cargo stays within capacity throughout: at every tick of a solution
/// every car that started with at most three items holds at most three.
pub proof fn lemma_solution_capacity(root: Node, sol: SolutionModel, t: int, i: int)
    requires
        root.wf(),
        first_solution(root, sol),
        0 <= t <= sol.dirs.len(),
        0 <= i < root.cars.len(),
        root.cars[i].within_capacity(),
    ensures
        follow(start(root, sol.targets), sol.dirs.take(t)) is Some,
        follow(start(root, sol.targets), sol.dirs.take(t))->0.cars[i].within_capacity(),
{
    lemma_solution_sound(root, sol);
    lemma_start(root, sol.targets);
    lemma_follow_ticks(start(root, sol.targets), sol.dirs, t);
}

/// The node at which the search under an assignment starts is well
/// formed, and a house stands there only where the root has one.
pub proof fn lemma_start(root: Node, targets: Seq<bool>)
    requires
        root.wf(),
    ensures
        start(root, targets).wf(),
        start(root, targets).cars == root.cars,
        builds_no_house(root.grid, start(root, targets).grid),
{
    lemma_configured(root.grid, targets);
}

/// What holds of a solution: under its assignment its joint moves are
/// accepted tick by tick from the root and lead to a grid without houses;
/// it has at least one tick; each joint move has one move per car, and in
/// each some car moves; and a car that waits at one tick waits at every
/// later tick.
pub proof fn lemma_solution_sound(root: Node, sol: SolutionModel)
    requires
        root.wf(),
        first_solution(root, sol),
    ensures
        sol.dirs.len() >= 1,
        sol.targets.len() == zones(root.grid.cells),
        follow(start(root, sol.targets), sol.dirs) is Some,
        follow(start(root, sol.targets), sol.dirs)->0.solved(),
        proper(sol.dirs, root.cars.len()),
        stays_idle(sol.dirs),
{
    let z = zones(root.grid.cells);
    let n = root.cars.len();
    lemma_start(root, sol.targets);
    lemma_candidates_playable(n);
    let node = start(root, sol.targets);
    assert(attempt(root, sol.targets) == Some(sol.dirs));
    lemma_search_sound(node, candidates(n), 0);
    lemma_search_stays_idle(node, candidates(n));
    let k = choose|k: nat| k < power(2, z) && sol.targets == #[trigger] target_vector(z, k);
    lemma_target_vector_len(z, k);
}

/// Where no solution is returned, none exists: under no assignment of the
/// delivery zones is there a path of joint moves, each with one move per
/// car and some car moving, that is accepted tick by tick from the root
/// and leads to a grid without houses.
pub proof fn lemma_no_solution_complete(root: Node, targets: Seq<bool>, path: Path)
    requires
        root.wf(),
        unsolvable(root),
        targets.len() == zones(root.grid.cells),
        path.len() >= 1,
        proper(path, root.cars.len()),
        follow(start(root, targets), path) is Some,
    ensures
        !follow(start(root, targets), path)->0.solved(),
{
    let z = zones(root.grid.cells);
    let n = root.cars.len();
    lemma_target_vector_of_rank(targets);
    let k = rank_of_targets(targets);
    assert(attempt(root, target_vector(z, k)) is None);
    lemma_start(root, targets);
    lemma_candidates_playable(n);
    assert forall|t: int| 0 <= t < path.len() implies candidates(n).contains(#[trigger] path[t]) by {
        lemma_candidates_cover(n, path[t]);
    }
    lemma_search_complete(start(root, targets), candidates(n), path);
}

/// What a successful search from the root leaves on the stack above the
/// root: the node it started from, then one node per tick of the
/// solution, each reached by that tick's joint move from the one below
/// it, each but the last with a house, and the last, where the solution
/// ends, without one.
pub proof fn lemma_grown(root: Node, sol: SolutionModel)
    requires
        root.wf(),
        first_solution(root, sol),
    ensures
        grown(seq![root], sol).len() == 1 + sol.dirs.len(),
        grown(seq![root], sol)[0] == start(root, sol.targets),
        forall|t: int|
            0 <= t < sol.dirs.len() ==> (#[trigger] grown(seq![root], sol)[1 + t]).from
                == sol.dirs[t],
        forall|t: int|
            0 <= t < sol.dirs.len() ==> advance(
                grown(seq![root], sol)[t],
                sol.dirs[t],
            ) == Some(#[trigger] grown(seq![root], sol)[1 + t]),
        forall|t: int|
            0 <= t < sol.dirs.len() - 1 ==> !(#[trigger] grown(seq![root], sol)[1 + t]).solved(),
        grown(seq![root], sol).last().solved(),
        follow(start(root, sol.targets), sol.dirs) == Some(grown(seq![root], sol).last()),
{
    let n = root.cars.len();
    let cands = candidates(n);
    let node = start(root, sol.targets);
    let stack = grown(seq![root], sol);
    let tr = trace(node, sol.dirs);
    lemma_start(root, sol.targets);
    lemma_candidates_playable(n);
    assert(attempt(root, sol.targets) == Some(sol.dirs));
    lemma_search_wins(node, cands, 0);
    lemma_trace_follow(node, sol.dirs);
    assert(stack =~= seq![node] + tr);
    assert forall|t: int| 0 <= t < sol.dirs.len() implies advance(stack[t], sol.dirs[t]) == Some(
        #[trigger] stack[1 + t],
    ) by {
        lemma_trace_steps(node, sol.dirs, t);
        assert(stack[1 + t] == tr[t]);
        if t > 0 {
            assert(stack[t] == tr[t - 1]);
        }
    }
    assert forall|t: int| 0 <= t < sol.dirs.len() - 1 implies !(#[trigger] stack[1 + t]).solved() by {
        assert(stack[1 + t] == tr[t]);
        assert(follow(node, sol.dirs.take(t + 1)) == Some(tr[t]));
    }
    assert forall|t: int| 0 <= t < sol.dirs.len() implies (#[trigger] stack[1 + t]).from
        == sol.dirs[t] by {
        assert(stack[1 + t] == tr[t]);
    }
}

/// In the trace of a path that is accepted tick by tick, each node is
/// reached by that tick's joint move from the node before it.
pub proof fn lemma_trace_steps(node: Node, path: Path, t: int)
    requires
        follow(node, path) is Some,
        0 <= t < path.len(),
    ensures
        trace(node, path).len() == path.len(),
        advance(if t == 0 { node } else { trace(node, path)[t - 1] }, path[t]) == Some(
            trace(node, path)[t],
        ),
    decreases path.len(),
{
    lemma_trace_follow(node, path);
    let next = advance(node, path[0])->0;
    let rest = path.skip(1);
    assert(trace(node, path) == seq![next] + trace(next, rest));
    if t > 0 {
        lemma_trace_follow(next, rest);
        lemma_trace_steps(next, rest, t - 1);
        assert(rest[t - 1] == path[t]);
        assert(trace(node, path)[t] == trace(next, rest)[t - 1]);
        if t > 1 {
            assert(trace(node, path)[t - 1] == trace(next, rest)[t - 2]);
        }
    }
}

/// A solution is the first there is: no assignment with a smaller number
/// has a winning path, and under the solution's own assignment no winning
/// path comes before the solution's in the order of the search.
pub proof fn lemma_solution_first(root: Node, sol: SolutionModel, j: nat, q: Path)
    requires
        root.wf(),
        first_solution(root, sol),
        j < power(2, zones(root.grid.cells)),
        proper(q, root.cars.len()),
        wins(start(root, target_vector(zones(root.grid.cells), j)), q),
    ensures
        exists|k: nat| k <= j && sol.targets == #[trigger] target_vector(zones(root.grid.cells), k),
        sol.targets == target_vector(zones(root.grid.cells), j) ==> no_later(
            candidates(root.cars.len()),
            sol.dirs,
            q,
        ),
{
    let z = zones(root.grid.cells);
    let n = root.cars.len();
    let cands = candidates(n);
    let node = start(root, target_vector(z, j));
    lemma_start(root, target_vector(z, j));
    lemma_candidates_playable(n);
    assert forall|t: int| 0 <= t < q.len() implies cands.contains(#[trigger] q[t]) by {
        lemma_candidates_cover(n, q[t]);
    }
    lemma_search_first(node, cands, q);
    assert(attempt(root, target_vector(z, j)) is Some);
    let k = choose|k: nat|
        k < power(2, z) && sol.targets == #[trigger] target_vector(z, k) && attempt(
            root,
            target_vector(z, k),
        ) == Some(sol.dirs) && forall|i: nat|
            i < k ==> (#[trigger] attempt(root, target_vector(z, i))) is None;
    assert(k <= j);
}

/// On a grid without houses a solution, if there is one, has exactly one
/// tick: the first joint move that is accepted ends the search.
pub proof fn lemma_no_house_solution(root: Node, sol: SolutionModel)
    requires
        root.wf(),
        root.solved(),
        first_solution(root, sol),
    ensures
        sol.dirs.len() == 1,
{
    let n = root.cars.len();
    lemma_start(root, sol.targets);
    lemma_candidates_playable(n);
    let node = start(root, sol.targets);
    if node.grid.has_house() {
        let i = choose|i: int| 0 <= i < node.grid.cells.len() && (#[trigger] node.grid.cells[i]).typ is House;
        assert(root.grid.cells[i].typ is House);
    }
    lemma_no_house_one_tick(node, candidates(n), 0);
    assert(attempt(root, sol.targets) == Some(sol.dirs));
}

} // verus!
