//! The backtracking search over joint moves and zone assignments.

use vstd::prelude::*;
use crate::elem::{Car, Cell, Dir, Elem, Type};
use crate::enumerate::{
    all_idle, copy_moves, copy_targets, gen_dirs, gen_onoff, lemma_all_idle_is_last,
    lemma_move_vector_len, lemma_power_positive, listed, power, target_vector,
};
use crate::map::{cars_view, Grid};
use crate::rules::{lemma_only_closes, lemma_with_typ_narrows, narrows, only_closes};
use crate::search::{
    advance, candidates, drive, follow, idle_locked, lemma_advance, lemma_drive,
    lemma_drive_failed, lemma_search_leads, playable, search, search_from, shorter, trace, Joint,
    Node, Path,
};
use crate::vec2d::Vec2D;

verus! {

/// The number of delivery zones that are switched off.
pub open spec fn zones(cells: Seq<Cell>) -> nat
    decreases cells.len(),
{
    if cells.len() == 0 {
        0
    } else {
        zones(cells.drop_last()) + if cells.last().typ is DropOff { 1nat } else { 0nat }
    }
}

/// The cells with an assignment applied: the `i`-th switched-off zone, in
/// row-major order, is switched on where `targets[i]` is true.
pub open spec fn configured_cells(cells: Seq<Cell>, targets: Seq<bool>) -> Seq<Cell> {
    Seq::new(
        cells.len(),
        |i: int|
            if cells[i].typ is DropOff && zones(cells.take(i)) < targets.len() && targets[zones(
                cells.take(i),
            ) as int] {
                cells[i].with_typ(Type::DropOn)
            } else {
                cells[i]
            },
    )
}

/// The grid with an assignment applied.
pub open spec fn configured(g: Grid, targets: Seq<bool>) -> Grid {
    Grid { cells: configured_cells(g.cells, targets), ..g }
}

/// The node at which the search under an assignment starts.
pub open spec fn start(root: Node, targets: Seq<bool>) -> Node {
    Node { from: Seq::empty(), cars: root.cars, grid: configured(root.grid, targets) }
}

/// The first path found under an assignment, if any.
pub open spec fn attempt(root: Node, targets: Seq<bool>) -> Option<Path> {
    search(start(root, targets), candidates(root.cars.len()))
}

/// Mathematical model of a solution.
pub struct SolutionModel {
    pub dirs: Path,
    pub targets: Seq<bool>,
}

/// `sol` is what the search returns for `root`: its assignment is the
/// first, in the order of the enumeration, under which a path is found,
/// and its moves are the first path found under it.
pub open spec fn first_solution(root: Node, sol: SolutionModel) -> bool {
    let z = zones(root.grid.cells);
    exists|k: nat|
        k < power(2, z) && sol.targets == #[trigger] target_vector(z, k) && attempt(
            root,
            target_vector(z, k),
        ) == Some(sol.dirs) && forall|j: nat|
            j < k ==> (#[trigger] attempt(root, target_vector(z, j))) is None
}

/// No assignment has a path.
pub open spec fn unsolvable(root: Node) -> bool {
    let z = zones(root.grid.cells);
    forall|k: nat| k < power(2, z) ==> (#[trigger] attempt(root, target_vector(z, k))) is None
}

/// A winning sequence of joint moves, one per tick, and the assignment of
/// the delivery zones under which it was found.
pub struct Solution {
    pub dirs: Vec<Vec<Option<Dir>>>,
    pub targets: Vec<bool>,
}

impl View for Solution {
    type V = SolutionModel;

    open spec fn view(&self) -> SolutionModel {
        SolutionModel { dirs: listed(self.dirs@), targets: self.targets@ }
    }
}

/// One node of the search: the joint move that led to it, the cars and
/// the grid.
pub struct State {
    from: Vec<Option<Dir>>,
    cars: Vec<Car>,
    map: Vec2D<Elem>,
}

impl View for State {
    type V = Node;

    closed spec fn view(&self) -> Node {
        Node { from: self.from@, cars: cars_view(self.cars@), grid: self.map@ }
    }
}

impl State {
    /// The grid's storage fits its size, and the node is well formed.
    pub closed spec fn wf(&self) -> bool {
        self.map.wf() && self@.wf()
    }
}

impl Clone for State {
    fn clone(&self) -> (r: State)
        ensures
            r@ == self@,
            self.wf() ==> r.wf(),
    {
        let from = copy_moves(&self.from);
        let mut cars: Vec<Car> = Vec::new();
        let mut i: usize = 0;
        while i < self.cars.len()
            invariant
                i <= self.cars.len(),
                cars@.len() == i,
                forall|k: int| 0 <= k < i ==> (#[trigger] cars@[k])@ == self.cars@[k]@,
            decreases self.cars.len() - i,
        {
            cars.push(self.cars[i].clone());
            i += 1;
        }
        let map = self.map.clone();
        assert(map@.cells =~= self.map@.cells);
        assert(cars_view(cars@) =~= cars_view(self.cars@));
        State { from, cars, map }
    }
}

/// Why a grid and its cars cannot be searched.
#[derive(Copy, Clone, Debug, PartialEq, Eq, Structural)]
pub enum Misfit {
    /// The grid's storage does not fit its size, or a road leaves the
    /// grid.
    Grid,
    /// The car with this index stands at column `x` of row `y`, outside
    /// the grid.
    Car { index: usize, x: usize, y: usize },
}

/// The grid is well formed and contained, and every car stands on it.
pub open spec fn searchable(m: Vec2D<Elem>, cars: Seq<Car>) -> bool {
    &&& m.wf()
    &&& m@.contained()
    &&& forall|i: int| 0 <= i < cars.len() ==> m@.in_bounds(#[trigger] cars[i]@.x, cars[i]@.y)
}

/// The search engine: a stack of nodes, the root at the bottom, and the
/// two enumerations it draws from.
pub struct Solver {
    states: Vec<State>,
    targets: Vec<Vec<bool>>,
    dirs: Vec<Vec<Option<Dir>>>,
}

/// Counts the delivery zones that are switched off.
pub fn count_zones(map: &Vec2D<Elem>) -> (z: usize)
    ensures
        z == zones(map@.cells),
{
    let n = map.undl.len();
    let mut z: usize = 0;
    let mut i: usize = 0;
    while i < n
        invariant
            i <= n,
            n == map.undl.len(),
            z <= i,
            z == zones(map@.cells.take(i as int)),
        decreases n - i,
    {
        proof {
            let cells = map@.cells;
            assert(cells.take(i + 1).drop_last() =~= cells.take(i as int));
            assert(cells.take(i + 1).last() == cells[i as int]);
        }
        if let Type::DropOff = map.undl[i].typ {
            z += 1;
        }
        i += 1;
    }
    assert(map@.cells.take(n as int) =~= map@.cells);
    z
}

/// Applies an assignment to the grid: the `i`-th switched-off zone is
/// switched on where `targets[i]` is true.
pub fn configure(map: &mut Vec2D<Elem>, targets: &Vec<bool>)
    requires
        old(map).wf(),
    ensures
        final(map).wf(),
        final(map)@ == configured(old(map)@, targets@),
{
    let n = map.undl.len();
    let mut z: usize = 0;
    let mut i: usize = 0;
    let ghost before = map@.cells;
    while i < n
        invariant
            i <= n,
            n == map.undl.len(),
            n == before.len(),
            before == old(map)@.cells,
            map.width == old(map).width,
            map.height == old(map).height,
            z <= i,
            z == zones(before.take(i as int)),
            forall|j: int| 0 <= j < i ==> (#[trigger] map.undl@[j])@ == configured_cells(before, targets@)[j],
            forall|j: int| i <= j < n ==> (#[trigger] map.undl@[j])@ == before[j],
        decreases n - i,
    {
        proof {
            assert(before.take(i + 1).drop_last() =~= before.take(i as int));
            assert(before.take(i + 1).last() == before[i as int]);
        }
        let mut e = map.undl[i];
        if let Type::DropOff = e.typ {
            if z < targets.len() && targets[z] {
                e.typ = Type::DropOn;
                map.undl[i] = e;
            }
            z += 1;
        }
        i += 1;
    }
    assert(map@.cells =~= configured(old(map)@, targets@).cells);
}

/// An assignment changes kinds only: the grid keeps its shape and every
/// segment.
pub proof fn lemma_configured(g: Grid, targets: Seq<bool>)
    requires
        g.wf(),
    ensures
        only_closes(g, configured(g, targets)),
        configured(g, targets).wf(),
        g.contained() ==> configured(g, targets).contained(),
        forall|x: int, y: int| configured(g, targets).in_bounds(x, y) == g.in_bounds(x, y),
{
    let h = configured(g, targets);
    assert forall|i: int| 0 <= i < g.cells.len() implies narrows(g.cells[i], #[trigger] h.cells[i]) by {
        lemma_with_typ_narrows(g.cells[i], Type::DropOn);
        assert forall|d: Dir| #[trigger] g.cells[i].connected(d) implies g.cells[i].connected(d) by {}
    }
    lemma_only_closes(g, h);
}

/// The enumeration of joint moves is playable: each has one move per car,
/// and in each some car moves.
pub proof fn lemma_candidates_playable(n: nat)
    ensures
        playable(candidates(n), n),
{
    assert forall|k: int| 0 <= k < candidates(n).len() implies (#[trigger] candidates(n)[k]).len()
        == n && !all_idle(candidates(n)[k]) by {
        lemma_power_positive(5, n);
        lemma_move_vector_len(n, k as nat);
        lemma_all_idle_is_last(n, k as nat);
    }
}

/// The nodes that a stack of states holds, the bottom first.
pub closed spec fn nodes_of(states: Seq<State>) -> Seq<Node> {
    Seq::new(states.len(), |i: int| states[i]@)
}

/// The node from which a search starts on a solver whose stack holds
/// `stack`: the root with the assignment applied where only the root is
/// there, else the node on top as it is.
pub open spec fn base(stack: Seq<Node>, targets: Seq<bool>) -> Node {
    if stack.len() == 1 {
        start(stack[0], targets)
    } else {
        stack.last()
    }
}

/// `sol` is what a search returns on a solver whose stack holds `stack`.
/// Where only the root is there, it is the first solution of the root.
/// Where the stack holds more, the assignments change nothing: the search
/// goes on from the node on top, and the solution names the first
/// assignment.
pub open spec fn found(stack: Seq<Node>, sol: SolutionModel) -> bool {
    if stack.len() == 1 {
        first_solution(stack[0], sol)
    } else {
        &&& sol.targets == target_vector(zones(stack[0].grid.cells), 0)
        &&& search(stack.last(), candidates(stack[0].cars.len())) == Some(sol.dirs)
    }
}

/// A search on a solver whose stack holds `stack` finds nothing.
pub open spec fn stuck(stack: Seq<Node>) -> bool {
    if stack.len() == 1 {
        unsolvable(stack[0])
    } else {
        search(stack.last(), candidates(stack[0].cars.len())) is None
    }
}

/// The nodes that a successful search leaves on the stack above those
/// that were there: the node it started from, where that is not the node
/// on top, and the nodes that the solution leads through, tick by tick.
pub open spec fn grown(stack: Seq<Node>, sol: SolutionModel) -> Seq<Node> {
    if stack.len() == 1 {
        seq![start(stack[0], sol.targets)] + trace(start(stack[0], sol.targets), sol.dirs)
    } else {
        trace(stack.last(), sol.dirs)
    }
}

impl Solver {
    /// The nodes on the stack, the root first.
    pub closed spec fn nodes(&self) -> Seq<Node> {
        nodes_of(self.states@)
    }

    /// The node at the bottom of the stack, which holds the grid and the
    /// cars that the solver was made for.
    pub open spec fn root(&self) -> Node {
        self.nodes()[0]
    }

    /// The node on top of the stack.
    pub open spec fn top(&self) -> Node {
        self.nodes().last()
    }

    /// The stack is not empty, its nodes are well formed and hold the same
    /// number of cars, no move led to the root, and the two enumerations
    /// are those of the root's cars and zones.
    pub closed spec fn inv(&self) -> bool {
        &&& self.states@.len() >= 1
        &&& forall|i: int|
            0 <= i < self.states@.len() ==> (#[trigger] self.states@[i]).wf()
                && self.states@[i]@.cars.len() == self.states@[0]@.cars.len()
        &&& self.states@[0]@.from.len() == 0
        &&& listed(self.dirs@) == candidates(self.states@[0]@.cars.len())
        &&& listed(self.targets@) == Seq::new(
            power(2, zones(self.states@[0]@.grid.cells)),
            |k: int| target_vector(zones(self.states@[0]@.grid.cells), k as nat),
        )
    }

    /// Only the root is on the stack: no search has found anything yet.
    pub open spec fn ready(&self) -> bool {
        self.inv() && self.nodes().len() == 1
    }

    /// What the invariant says of the stack.
    pub proof fn lemma_inv(&self)
        requires
            self.inv(),
        ensures
            self.nodes().len() >= 1,
            self.root().from.len() == 0,
            forall|i: int|
                0 <= i < self.nodes().len() ==> (#[trigger] self.nodes()[i]).wf()
                    && self.nodes()[i].cars.len() == self.root().cars.len(),
    {
        assert forall|i: int| 0 <= i < self.nodes().len() implies (#[trigger] self.nodes()[i]).wf()
            && self.nodes()[i].cars.len() == self.root().cars.len() by {
            assert(self.states@[i].wf());
        }
    }

    /// Whether the grid on top of the stack has no house left to fill.
    fn is_solved(&self) -> (r: bool)
        requires
            self.inv(),
        ensures
            r == self.top().solved(),
    {
        let last = self.states.len() - 1;
        let map = &self.states[last].map;
        let n = map.undl.len();
        let mut i: usize = 0;
        while i < n
            invariant
                i <= n,
                n == map.undl.len(),
                self.top().grid == map@,
                forall|k: int| 0 <= k < i ==> !((#[trigger] map@.cells[k]).typ is House),
            decreases n - i,
        {
            if let Type::House(_) = map.undl[i].typ {
                assert(self.top().grid.cells[i as int].typ is House);
                return false;
            }
            i += 1;
        }
        true
    }

    /// Tries a joint move from the node on top of the stack. If the move
    /// is accepted, the node it leads to is pushed; if not, the stack
    /// stays as it is. A move in which a car that waited before moves
    /// again is never accepted.
    fn push(&mut self, moves: &Vec<Option<Dir>>) -> (ok: bool)
        requires
            old(self).inv(),
            moves@.len() == old(self).top().cars.len(),
        ensures
            final(self).inv(),
            final(self).dirs == old(self).dirs,
            final(self).targets == old(self).targets,
            ok == advance(old(self).top(), moves@) is Some,
            !idle_locked(old(self).top().from, moves@) ==> !ok,
            ok ==> final(self).states@.len() == old(self).states@.len() + 1,
            ok ==> final(self).states@.drop_last() == old(self).states@,
            ok ==> final(self).nodes() == old(self).nodes().push(
                advance(old(self).top(), moves@)->0,
            ),
            !ok ==> final(self).states@ == old(self).states@,
    {
        let last = self.states.len() - 1;
        let ghost node = self.top();
        // A car that has stopped stays where it is.
        let mut i: usize = 0;
        while i < self.states[last].from.len() && i < moves.len()
            invariant
                last == self.states@.len() - 1,
                *self == *old(self),
                self.inv(),
                node == self.top(),
                i <= node.from.len(),
                i <= moves@.len(),
                forall|k: int|
                    0 <= k < i && (#[trigger] node.from[k]) is None ==> moves@[k] is None,
            decreases moves.len() - i,
        {
            if self.states[last].from[i].is_none() && moves[i].is_some() {
                assert(node.from[i as int] is None && !(moves@[i as int] is None));
                return false;
            }
            i += 1;
        }
        assert(idle_locked(node.from, moves@));
        // Work on a copy of the last state.
        let mut state = self.states[last].clone();
        state.from = copy_moves(moves);
        let n = if moves.len() < state.cars.len() { moves.len() } else { state.cars.len() };
        assert(n == shorter(moves@.len(), node.cars.len()));
        let mut c: usize = 0;
        while c < n
            invariant
                c <= n,
                n == node.cars.len(),
                n == moves@.len(),
                *self == *old(self),
                self.inv(),
                node == self.top(),
                idle_locked(node.from, moves@),
                node.wf(),
                state.map.wf(),
                state.from@ == moves@,
                state.cars@.len() == n,
                drive(node.grid, node.cars, moves@, c as nat) == (Joint {
                    grid: state.map@,
                    cars: cars_view(state.cars@),
                    ok: true,
                }),
            decreases n - c,
        {
            proof {
                lemma_drive(node.grid, node.cars, moves@, c as nat);
                assert(cars_view(state.cars@)[c as int] == state.cars@[c as int]@);
            }
            let ghost before = cars_view(state.cars@);
            let moved = state.map.move_car(&mut state.cars[c], moves[c]);
            assert(cars_view(state.cars@) =~= before.update(c as int, state.cars@[c as int]@));
            if !moved {
                proof {
                    lemma_drive_failed(node.grid, node.cars, moves@, (c + 1) as nat, n as nat);
                }
                return false;
            }
            c += 1;
        }
        proof {
            lemma_drive(node.grid, node.cars, moves@, n as nat);
            assert forall|k: int| 0 <= k < state.cars@.len() implies state.map@.in_bounds(
                #[trigger] state.cars@[k]@.x,
                state.cars@[k]@.y,
            ) by {
                assert(cars_view(state.cars@)[k] == state.cars@[k]@);
            }
        }
        // No car may stand on a bridge that opened under it.
        if !state.map.check(&state.cars) {
            return false;
        }
        proof {
            lemma_advance(node, moves@);
        }
        self.states.push(state);
        assert(self.states@.drop_last() =~= old(self).states@);
        assert(self.nodes() =~= old(self).nodes().push(advance(node, moves@)->0));
        true
    }

    /// Takes the node on top of the stack off.
    fn pop(&mut self)
        requires
            old(self).inv(),
            old(self).states@.len() >= 2,
        ensures
            final(self).inv(),
            final(self).dirs == old(self).dirs,
            final(self).targets == old(self).targets,
            final(self).states@ == old(self).states@.drop_last(),
    {
        self.states.pop();
    }

    /// Depth-first search from the node on top of the stack: the first
    /// path of joint moves, in the order of the enumeration, that fills
    /// every house. A state is taken off the stack only where the search
    /// below it failed: after a failed search the stack is as it was, and
    /// after a successful one it holds, above the states that were there,
    /// one state per tick of the path, each reached by that tick's joint
    /// move, the last without a house and each before it with one.
    fn solve_inner(&mut self) -> (r: Option<Vec<Vec<Option<Dir>>>>)
        requires
            old(self).inv(),
        ensures
            final(self).inv(),
            final(self).dirs == old(self).dirs,
            final(self).targets == old(self).targets,
            match r {
                Some(path) => {
                    &&& search(old(self).top(), listed(old(self).dirs@)) == Some(listed(path@))
                    &&& path@.len() >= 1
                    &&& final(self).states@.len() == old(self).states@.len() + path@.len()
                    &&& final(self).states@.take(old(self).states@.len() as int) == old(
                        self,
                    ).states@
                    &&& final(self).nodes() == old(self).nodes() + trace(
                        old(self).top(),
                        listed(path@),
                    )
                    &&& forall|j: int|
                        0 <= j < path@.len() ==> (#[trigger] final(self).nodes()[old(
                            self,
                        ).states@.len() + j]).from == path@[j]@
                    &&& forall|j: int|
                        0 <= j < path@.len() - 1 ==> !(#[trigger] final(self).nodes()[old(
                            self,
                        ).states@.len() + j]).solved()
                    &&& final(self).top().solved()
                    &&& forall|j: int|
                        0 <= j < path@.len() ==> listed(old(self).dirs@).contains(
                            (#[trigger] path@[j])@,
                        )
                },
                None => {
                    &&& search(old(self).top(), listed(old(self).dirs@)) is None
                    &&& final(self).states@ == old(self).states@
                },
            },
        decreases old(self).top().grid.open_segments(),
    {
        let ghost node = self.top();
        let ghost cands = listed(self.dirs@);
        let ghost depth = self.states@.len() as int;
        proof {
            lemma_candidates_playable(node.cars.len());
            assert(node == self.states@.last()@);
            assert(self.nodes().len() == depth);
        }
        let total = self.dirs.len();
        let mut k: usize = 0;
        while k < total
            invariant
                k <= total,
                total == self.dirs@.len(),
                self.inv(),
                self.dirs == old(self).dirs,
                self.targets == old(self).targets,
                self.states@ == old(self).states@,
                depth == self.states@.len(),
                depth == self.nodes().len(),
                node == self.top(),
                cands == listed(self.dirs@),
                node.wf(),
                playable(cands, node.cars.len()),
                search_from(node, cands, k as nat) == search(node, cands),
            decreases total - k,
        {
            let moves = copy_moves(&self.dirs[k]);
            assert(moves@ == cands[k as int]);
            // Try to move; on success the new state is on the stack.
            if self.push(&moves) {
                let ghost next = advance(node, moves@)->0;
                let ghost pushed = self.states@;
                proof {
                    lemma_advance(node, moves@);
                    assert(self.nodes().last() == next);
                }
                if self.is_solved() {
                    let mut s: Vec<Vec<Option<Dir>>> = Vec::new();
                    s.push(moves);
                    proof {
                        let path = listed(s@);
                        assert(path =~= seq![cands[k as int]]);
                        assert(path[0] == moves@);
                        assert(path.skip(1) =~= Seq::<Seq<Option<Dir>>>::empty());
                        assert(trace(next, path.skip(1)) =~= Seq::<Node>::empty());
                        assert(trace(node, path) == seq![next] + trace(next, path.skip(1)));
                        assert(trace(node, path) =~= seq![next]);
                        assert(self.nodes() =~= old(self).nodes() + trace(node, path));
                        assert(self.states@.take(depth) =~= self.states@.drop_last());
                        assert(self.nodes()[depth + 0] == next);
                        assert(cands.contains(cands[k as int]));
                        assert(s@[0]@ == cands[k as int]);
                    }
                    return Some(s);
                }
                // Go on from there.
                let res = self.solve_inner();
                if let Some(mut rest) = res {
                    let ghost tail = listed(rest@);
                    let ghost below = rest@;
                    let mut s: Vec<Vec<Option<Dir>>> = Vec::new();
                    s.push(moves);
                    s.append(&mut rest);
                    proof {
                        let path = listed(s@);
                        assert(path =~= seq![cands[k as int]] + tail);
                        assert(path[0] == moves@);
                        assert(path.skip(1) =~= tail);
                        assert(trace(node, path) == seq![next] + trace(next, tail));
                        assert(self.nodes() =~= old(self).nodes() + trace(node, path));
                        assert(self.states@.take(depth) =~= pushed.take(depth));
                        assert(pushed.take(depth) =~= pushed.drop_last());
                        assert(self.nodes().len() == depth + 1 + below.len());
                        assert forall|j: int| 0 <= j < s@.len() implies (#[trigger] self.nodes()[depth
                            + j]).from == s@[j]@ by {
                            if j > 0 {
                                assert(self.nodes()[(depth + 1) + (j - 1)].from == below[j - 1]@);
                                assert(s@[j] == below[j - 1]);
                            } else {
                                assert(self.nodes()[depth] == next);
                            }
                        }
                        assert forall|j: int| 0 <= j < s@.len() - 1 implies !(
                        #[trigger] self.nodes()[depth + j]).solved() by {
                            if j > 0 {
                                assert(!self.nodes()[(depth + 1) + (j - 1)].solved());
                            } else {
                                assert(self.nodes()[depth] == next);
                            }
                        }
                        assert forall|j: int| 0 <= j < s@.len() implies cands.contains(
                            (#[trigger] s@[j])@,
                        ) by {
                            if j > 0 {
                                assert(s@[j] == below[j - 1]);
                                assert(cands.contains(below[j - 1]@));
                            } else {
                                assert(cands.contains(cands[k as int]));
                                assert(s@[0]@ == cands[k as int]);
                            }
                        }
                    }
                    return Some(s);
                }
                // Nothing was found below: take the state off again.
                self.pop();
                assert(self.states@ =~= old(self).states@);
            }
            k += 1;
        }
        None
    }

    /// A solver for the grid `m` with the cars `cars` on it.
    pub fn new(m: Vec2D<Elem>, cars: Vec<Car>) -> (s: Solver)
        requires
            m.wf(),
            m@.contained(),
            forall|i: int| 0 <= i < cars@.len() ==> m@.in_bounds(#[trigger] cars@[i]@.x, cars@[i]@.y),
        ensures
            s.ready(),
            s.nodes() == seq![(Node { from: Seq::empty(), cars: cars_view(cars@), grid: m@ })],
    {
        let targets = gen_onoff(count_zones(&m));
        let dirs = gen_dirs(cars.len());
        let ghost n = cars@.len();
        let ghost z = zones(m@.cells);
        let mut states: Vec<State> = Vec::new();
        let state = State { from: Vec::new(), cars, map: m };
        proof {
            assert forall|i: int| 0 <= i < state@.cars.len() implies state@.grid.in_bounds(
                (#[trigger] state@.cars[i]).x,
                state@.cars[i].y,
            ) by {
                assert(state@.cars[i] == state.cars@[i]@);
            }
            assert(listed(dirs@) =~= candidates(n));
            assert(listed(targets@) =~= Seq::new(
                power(2, z),
                |k: int| target_vector(z, k as nat),
            ));
        }
        states.push(state);
        let s = Solver { states, targets, dirs };
        assert(s.nodes() =~= seq![(Node { from: Seq::empty(), cars: cars_view(cars@), grid: m@ })]) by {
            assert(s.states@[0]@.from =~= Seq::<Option<Dir>>::empty());
        }
        s
    }

    /// A solver for the grid `m` with the cars `cars` on it, or the reason
    /// why there is none: the grid is malformed, or a car stands outside
    /// it. Of several such cars the first is named.
    pub fn try_new(m: Vec2D<Elem>, cars: Vec<Car>) -> (r: Result<Solver, Misfit>)
        ensures
            match r {
                Ok(s) => searchable(m, cars@) && s.ready() && s.nodes() == seq![(Node {
                    from: Seq::empty(),
                    cars: cars_view(cars@),
                    grid: m@,
                })],
                Err(Misfit::Grid) => !(m.wf() && m@.contained()),
                Err(Misfit::Car { index, x, y }) => {
                    &&& m.wf()
                    &&& m@.contained()
                    &&& index < cars@.len()
                    &&& cars@[index as int].coord == (x, y)
                    &&& !m@.in_bounds(x as int, y as int)
                    &&& forall|i: int|
                        0 <= i < index ==> m@.in_bounds(#[trigger] cars@[i]@.x, cars@[i]@.y)
                },
            },
    {
        if !m.is_wf() || !m.is_contained() {
            return Err(Misfit::Grid);
        }
        let mut i: usize = 0;
        while i < cars.len()
            invariant
                i <= cars.len(),
                m.wf(),
                m@.contained(),
                forall|k: int| 0 <= k < i ==> m@.in_bounds(#[trigger] cars@[k]@.x, cars@[k]@.y),
            decreases cars.len() - i,
        {
            let (x, y) = cars[i].coord;
            if x >= m.width || y >= m.height {
                return Err(Misfit::Car { index: i, x, y });
            }
            i += 1;
        }
        Ok(Solver::new(m, cars))
    }

    /// Searches for a solution. Where only the root is on the stack, the
    /// assignments of the delivery zones are tried in the order of their
    /// enumeration, each on a fresh copy of the root, and under each the
    /// joint moves depth first in the order of theirs: the first path
    /// found wins. `None` means that no assignment has a path, and leaves
    /// the stack as it was.
    ///
    /// A solution stays on the stack: above the root stand the node that
    /// the search started from and the nodes that the solution leads
    /// through, the last of them without a house. A later call goes on
    /// from that last node, whatever the assignment: it returns the first
    /// path found from there, under the first assignment, or `None`.
    pub fn solve(&mut self) -> (r: Option<Solution>)
        requires
            old(self).inv(),
        ensures
            final(self).inv(),
            final(self).root() == old(self).root(),
            match r {
                Some(sol) => {
                    &&& found(old(self).nodes(), sol@)
                    &&& final(self).nodes() == old(self).nodes() + grown(old(self).nodes(), sol@)
                    &&& follow(base(old(self).nodes(), sol@.targets), sol@.dirs) == Some(
                        final(self).top(),
                    )
                    &&& final(self).top().solved()
                },
                None => stuck(old(self).nodes()) && final(self).nodes() == old(self).nodes(),
            },
    {
        let ghost stack = self.nodes();
        let ghost root = self.root();
        let ghost z = zones(root.grid.cells);
        let ghost n = root.cars.len();
        let total = self.targets.len();
        proof {
            self.lemma_inv();
            lemma_power_positive(2, z);
            lemma_candidates_playable(n);
            assert(listed(self.targets@).len() == total);
            assert(listed(self.targets@)[0] == self.targets@[0]@);
        }
        if self.states.len() > 1 {
            // A solution is on the stack: go on from its last state.
            let ghost top = self.top();
            let targets = copy_targets(&self.targets[0]);
            let res = self.solve_inner();
            return match res {
                Some(dirs) => {
                    let sol = Solution { dirs, targets };
                    proof {
                        lemma_search_leads(top, candidates(n), sol@.dirs);
                        assert(self.nodes()[0] == stack[0]);
                    }
                    Some(sol)
                },
                None => {
                    assert(self.nodes() =~= stack);
                    None
                },
            };
        }
        let mut k: usize = 0;
        while k < total
            invariant
                k <= total,
                total == power(2, z),
                total == self.targets@.len(),
                self.states@ == old(self).states@,
                self.inv(),
                self.states@.len() == 1,
                stack == self.nodes(),
                stack.len() == 1,
                root == stack[0],
                root.wf(),
                n == root.cars.len(),
                playable(candidates(n), n),
                z == zones(root.grid.cells),
                forall|j: nat| j < k ==> (#[trigger] attempt(root, target_vector(z, j))) is None,
            decreases total - k,
        {
            let targets = copy_targets(&self.targets[k]);
            assert(targets@ == target_vector(z, k as nat)) by {
                assert(listed(self.targets@)[k as int] == self.targets@[k as int]@);
            }
            // Start from the root with this assignment applied.
            let mut state = self.states[0].clone();
            configure(&mut state.map, &targets);
            let ghost from = start(root, targets@);
            proof {
                lemma_configured(root.grid, targets@);
                assert(state@ == from) by {
                    assert(state@.from =~= Seq::<Option<Dir>>::empty());
                }
            }
            self.states.push(state);
            assert(self.nodes() =~= stack.push(from));
            let res = self.solve_inner();
            if let Some(dirs) = res {
                let sol = Solution { dirs, targets };
                proof {
                    let w = k as nat;
                    assert(sol@.targets == target_vector(z, w));
                    assert(attempt(root, target_vector(z, w)) == Some(sol@.dirs));
                    assert(first_solution(root, sol@));
                    lemma_search_leads(from, candidates(n), sol@.dirs);
                    assert(self.nodes() =~= stack + grown(stack, sol@));
                    assert(self.nodes()[0] == stack[0]);
                }
                return Some(sol);
            }
            // Nothing was found under this assignment: take its start off.
            self.states.pop();
            assert(self.states@ =~= old(self).states@);
            k += 1;
        }
        None
    }
}

} // verus!
