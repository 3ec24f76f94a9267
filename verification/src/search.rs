//! The mathematical model of the search: joint moves, the tree they
//! span, and the first path in it that fills every house.

use vstd::prelude::*;
use crate::elem::{CarModel, Dir};
use crate::enumerate::{all_idle, move_vector, power};
use crate::map::{coherent, step, Grid};
use crate::rules::{lemma_only_closes_trans, lemma_step, narrows, only_closes};

verus! {

/// One node of the search tree: the joint move that led to it, the cars,
/// and the grid.
pub struct Node {
    pub from: Seq<Option<Dir>>,
    pub cars: Seq<CarModel>,
    pub grid: Grid,
}

impl Node {
    /// The grid is well formed and contained, and every car stands on it.
    pub open spec fn wf(self) -> bool {
        &&& self.grid.wf()
        &&& self.grid.contained()
        &&& forall|i: int|
            0 <= i < self.cars.len() ==> self.grid.in_bounds(
                (#[trigger] self.cars[i]).x,
                self.cars[i].y,
            )
    }

    /// No house waits for a cube any more.
    pub open spec fn solved(self) -> bool {
        !self.grid.has_house()
    }
}

/// A sequence of joint moves, one per tick.
pub type Path = Seq<Seq<Option<Dir>>>;

/// What the moves of the first `k` cars leave behind.
pub struct Joint {
    pub grid: Grid,
    pub cars: Seq<CarModel>,
    pub ok: bool,
}

/// The cars `0..k` make their moves one after the other, each on the grid
/// that the one before left. The first illegal move ends it.
pub open spec fn drive(g: Grid, cars: Seq<CarModel>, moves: Seq<Option<Dir>>, k: nat) -> Joint
    decreases k,
{
    if k == 0 {
        Joint { grid: g, cars, ok: true }
    } else {
        let before = drive(g, cars, moves, (k - 1) as nat);
        if !before.ok {
            before
        } else {
            let m = step(before.grid, before.cars[k - 1], moves[k - 1]);
            Joint { grid: m.grid, cars: before.cars.update(k - 1, m.car), ok: m.ok }
        }
    }
}

/// A car that waited in `prev` waits in `next`.
pub open spec fn idle_locked(prev: Seq<Option<Dir>>, next: Seq<Option<Dir>>) -> bool {
    forall|i: int|
        0 <= i < prev.len() && i < next.len() && (#[trigger] prev[i]) is None ==> next[i] is None
}

/// The smaller of two lengths.
pub open spec fn shorter(a: nat, b: nat) -> nat {
    if a <= b {
        a
    } else {
        b
    }
}

/// The node that a joint move leads to, if the move is accepted: no car
/// that waited before moves again, every car's move is legal, and
/// afterwards no car stands on an open bridge.
pub open spec fn advance(node: Node, moves: Seq<Option<Dir>>) -> Option<Node> {
    if !idle_locked(node.from, moves) {
        None
    } else {
        let j = drive(node.grid, node.cars, moves, shorter(moves.len(), node.cars.len()));
        if j.ok && coherent(j.grid, j.cars) {
            Some(Node { from: moves, cars: j.cars, grid: j.grid })
        } else {
            None
        }
    }
}

/// Every candidate has one move per car, and in each some car moves.
pub open spec fn playable(cands: Path, n: nat) -> bool {
    forall|k: int|
        0 <= k < cands.len() ==> (#[trigger] cands[k]).len() == n && !all_idle(cands[k])
}

/// The joint moves of `n` cars in the order in which they are tried.
pub open spec fn candidates(n: nat) -> Path {
    Seq::new((power(5, n) - 1) as nat, |k: int| move_vector(n, k as nat))
}

/// Depth-first search from `node`, trying the candidates `k..` in order.
/// An accepted candidate that leaves no house ends the search with that
/// one move; otherwise the search goes on from the node it leads to, and
/// comes back to the next candidate if nothing is found there.
pub open spec fn search_from(node: Node, cands: Path, k: nat) -> Option<Path>
    decreases node.grid.open_segments(), cands.len() - k,
    when node.wf() && playable(cands, node.cars.len())
    via search_from_decreases
{
    if k >= cands.len() {
        None
    } else {
        match advance(node, cands[k as int]) {
            None => search_from(node, cands, k + 1),
            Some(next) => {
                if next.solved() {
                    Some(seq![cands[k as int]])
                } else {
                    match search_from(next, cands, 0) {
                        Some(rest) => Some(seq![cands[k as int]] + rest),
                        None => search_from(node, cands, k + 1),
                    }
                }
            },
        }
    }
}

#[via_fn]
proof fn search_from_decreases(node: Node, cands: Path, k: nat) {
    if k < cands.len() {
        match advance(node, cands[k as int]) {
            None => {},
            Some(next) => {
                lemma_advance(node, cands[k as int]);
            },
        }
    }
}

/// The first path that the search finds from `node`, if any.
pub open spec fn search(node: Node, cands: Path) -> Option<Path> {
    search_from(node, cands, 0)
}

/// The node that a path of joint moves leads to, if every one of them is
/// accepted in turn.
pub open spec fn follow(node: Node, path: Path) -> Option<Node>
    decreases path.len(),
{
    if path.len() == 0 {
        Some(node)
    } else {
        match advance(node, path[0]) {
            None => None,
            Some(next) => follow(next, path.skip(1)),
        }
    }
}

/// The nodes that a path leads through, one per tick, up to the first
/// joint move that is not accepted.
pub open spec fn trace(node: Node, path: Path) -> Seq<Node>
    decreases path.len(),
{
    if path.len() == 0 {
        Seq::empty()
    } else {
        match advance(node, path[0]) {
            None => Seq::empty(),
            Some(next) => seq![next] + trace(next, path.skip(1)),
        }
    }
}

/// Following a path from a node is making its first joint move and
/// following the rest from there, also for every beginning of the path.
pub proof fn lemma_follow_rest(node: Node, path: Path, t: int)
    requires
        path.len() >= 1,
        1 <= t <= path.len(),
        advance(node, path[0]) is Some,
    ensures
        follow(node, path.take(t)) == follow(advance(node, path[0])->0, path.skip(1).take(t - 1)),
{
    let begin = path.take(t);
    assert(begin[0] == path[0]);
    assert(begin.skip(1) =~= path.skip(1).take(t - 1));
}

/// The trace of a path that is accepted tick by tick holds, for every
/// tick, the node that the path leads to up to that tick, which came by
/// that tick's joint move; its last node is where the path ends.
pub proof fn lemma_trace_follow(node: Node, path: Path)
    requires
        follow(node, path) is Some,
    ensures
        trace(node, path).len() == path.len(),
        forall|t: int|
            0 <= t < path.len() ==> follow(node, path.take(t + 1)) == Some(
                #[trigger] trace(node, path)[t],
            ),
        forall|t: int| 0 <= t < path.len() ==> (#[trigger] trace(node, path)[t]).from == path[t],
        path.len() >= 1 ==> follow(node, path) == Some(trace(node, path).last()),
    decreases path.len(),
{
    if path.len() > 0 {
        let next = advance(node, path[0])->0;
        let rest = path.skip(1);
        lemma_trace_follow(next, rest);
        let tr = trace(node, path);
        assert(tr == seq![next] + trace(next, rest));
        assert forall|t: int| 0 <= t < path.len() implies follow(node, path.take(t + 1)) == Some(
            #[trigger] tr[t],
        ) && tr[t].from == path[t] by {
            lemma_follow_rest(node, path, t + 1);
            if t == 0 {
                assert(rest.take(0) =~= Seq::<Seq<Option<Dir>>>::empty());
                assert(follow(next, rest.take(0)) == Some(next));
            } else {
                assert(tr[t] == trace(next, rest)[t - 1]);
                assert(rest[t - 1] == path[t]);
            }
        }
        assert(path.take(path.len() as int) =~= path);
    }
}

/// What holds while the cars make their moves: the grid keeps its shape
/// and stays contained, segments only close, the cars stay on the grid
/// and keep count, the cars that have not moved yet are as they were, a
/// car that moved closed a segment, and cargo stays within capacity.
pub proof fn lemma_drive(g: Grid, cars: Seq<CarModel>, moves: Seq<Option<Dir>>, k: nat)
    requires
        g.wf(),
        g.contained(),
        forall|i: int| 0 <= i < cars.len() ==> g.in_bounds((#[trigger] cars[i]).x, cars[i].y),
        k <= cars.len(),
        k <= moves.len(),
    ensures
        only_closes(g, drive(g, cars, moves, k).grid),
        drive(g, cars, moves, k).grid.wf(),
        drive(g, cars, moves, k).grid.contained(),
        drive(g, cars, moves, k).cars.len() == cars.len(),
        forall|i: int|
            0 <= i < cars.len() ==> g.in_bounds(
                (#[trigger] drive(g, cars, moves, k).cars[i]).x,
                drive(g, cars, moves, k).cars[i].y,
            ),
        forall|i: int| k <= i < cars.len() ==> #[trigger] drive(g, cars, moves, k).cars[i] == cars[i],
        forall|i: int|
            0 <= i < cars.len() ==> (#[trigger] drive(g, cars, moves, k).cars[i]).color
                == cars[i].color,
        forall|i: int|
            0 <= i < cars.len() && cars[i].within_capacity() ==> (#[trigger] drive(
                g,
                cars,
                moves,
                k,
            ).cars[i]).within_capacity(),
        drive(g, cars, moves, k).grid.open_segments() <= g.open_segments(),
        drive(g, cars, moves, k).ok && (exists|i: int| 0 <= i < k && (#[trigger] moves[i]) is Some)
            ==> drive(g, cars, moves, k).grid.open_segments() < g.open_segments(),
    decreases k,
{
    if k == 0 {
        assert forall|i: int| 0 <= i < g.cells.len() implies narrows(g.cells[i], #[trigger] g.cells[i]) by {}
    } else {
        let before = drive(g, cars, moves, (k - 1) as nat);
        lemma_drive(g, cars, moves, (k - 1) as nat);
        if before.ok {
            let car = before.cars[k - 1];
            assert(before.grid.in_bounds(car.x, car.y));
            lemma_step(before.grid, car, moves[k - 1]);
            let m = step(before.grid, car, moves[k - 1]);
            lemma_only_closes_trans(g, before.grid, m.grid);
            let after = drive(g, cars, moves, k);
            assert(after.cars == before.cars.update(k - 1, m.car));
            if after.ok && (exists|i: int| 0 <= i < k && (#[trigger] moves[i]) is Some) {
                let i = choose|i: int| 0 <= i < k && (#[trigger] moves[i]) is Some;
                if i < k - 1 {
                    assert(moves[i] is Some);
                }
            }
        }
    }
}

/// Once a car's move was illegal, the joint move stays rejected.
pub proof fn lemma_drive_failed(g: Grid, cars: Seq<CarModel>, moves: Seq<Option<Dir>>, k: nat, n: nat)
    requires
        k <= n,
        !drive(g, cars, moves, k).ok,
    ensures
        drive(g, cars, moves, n) == drive(g, cars, moves, k),
    decreases n,
{
    if k < n {
        lemma_drive_failed(g, cars, moves, k, (n - 1) as nat);
    }
}

/// An accepted joint move in which some car moves leads to a well-formed
/// node with the same cars on a grid with fewer open segments.
pub proof fn lemma_advance(node: Node, moves: Seq<Option<Dir>>)
    requires
        node.wf(),
        moves.len() == node.cars.len(),
        advance(node, moves) is Some,
    ensures
        advance(node, moves)->0.wf(),
        advance(node, moves)->0.from == moves,
        advance(node, moves)->0.cars.len() == node.cars.len(),
        only_closes(node.grid, advance(node, moves)->0.grid),
        idle_locked(node.from, moves),
        advance(node, moves)->0.grid.open_segments() <= node.grid.open_segments(),
        !all_idle(moves) ==> advance(node, moves)->0.grid.open_segments()
            < node.grid.open_segments(),
        forall|i: int|
            0 <= i < node.cars.len() && node.cars[i].within_capacity() ==> (#[trigger] advance(
                node,
                moves,
            )->0.cars[i]).within_capacity(),
{
    let n = node.cars.len();
    lemma_drive(node.grid, node.cars, moves, n);
    if !all_idle(moves) {
        let i = choose|i: int| 0 <= i < moves.len() && !((#[trigger] moves[i]) is None);
        assert(moves[i] is Some);
    }
}

/// A path that the search returns has at least one tick, is accepted
/// tick by tick, and ends at the last node of its trace.
pub proof fn lemma_search_leads(node: Node, cands: Path, path: Path)
    requires
        node.wf(),
        playable(cands, node.cars.len()),
        search(node, cands) == Some(path),
    ensures
        path.len() >= 1,
        trace(node, path).len() == path.len(),
        follow(node, path) == Some(trace(node, path).last()),
{
    lemma_search_followed(node, cands, 0);
    lemma_trace_follow(node, path);
}

/// A path that the search returns from candidate `k` on has at least one
/// tick and is accepted tick by tick.
proof fn lemma_search_followed(node: Node, cands: Path, k: nat)
    requires
        node.wf(),
        playable(cands, node.cars.len()),
        search_from(node, cands, k) is Some,
    ensures
        search_from(node, cands, k)->0.len() >= 1,
        follow(node, search_from(node, cands, k)->0) is Some,
    decreases node.grid.open_segments(), cands.len() - k,
{
    let path = search_from(node, cands, k)->0;
    if k < cands.len() {
        let m = cands[k as int];
        match advance(node, m) {
            None => {
                lemma_search_followed(node, cands, k + 1);
            },
            Some(next) => {
                lemma_advance(node, m);
                if next.solved() {
                    assert(path == seq![m]);
                    assert(path.skip(1) =~= Seq::<Seq<Option<Dir>>>::empty());
                    assert(follow(next, path.skip(1)) == Some(next));
                } else {
                    match search_from(next, cands, 0) {
                        Some(rest) => {
                            lemma_search_followed(next, cands, 0);
                            assert(path == seq![m] + rest);
                            assert(path.skip(1) =~= rest);
                        },
                        None => {
                            lemma_search_followed(node, cands, k + 1);
                        },
                    }
                }
            },
        }
    }
}

} // verus!
