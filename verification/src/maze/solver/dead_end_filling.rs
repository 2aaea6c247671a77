//! Dead-end filling: wall off every dead end in turn, on a board of the
//! solver's own, until none is left; then search what remains. No dead end
//! lies on a shortest way from the start to the end, so nothing is lost.

use crate::maze::djikstra::Solver;
use crate::maze::solver::{slot_of, Pathfinder};
use crate::maze::{lemma_index_bounds, Board, MazeError, State};
use vstd::prelude::*;

verus! {

pub struct DeadEndFilling {
    pub start: (usize, usize),
    pub end: (usize, usize),
    pub board_size: usize,
    pub reduced: Board,
    pub filled: Vec<bool>,
    pub filling: bool,
    pub search: Solver,
}

impl DeadEndFilling {
    /// The slot of the start cell.
    pub open spec fn start_slot(&self) -> int {
        self.start.0 * self.board_size + self.start.1
    }

    /// Whether the cell `d` has exactly one passage, and that to `q`.
    pub open spec fn only_way(board: &Board, d: int, q: int) -> bool {
        board.linked(d, q) && forall|other: int| #[trigger] board.linked(d, other) ==> other == q
    }

    /// Whether `d` is a dead end: a cell with exactly one passage that is
    /// neither the start nor the end.
    pub open spec fn is_dead_end(&self, d: int) -> bool {
        d != self.source() && d != self.target() && exists|q: int| #[trigger]
            Self::only_way(&self.reduced, d, q)
    }

    /// Whether `other` has the passages of `board` or fewer, on the same
    /// grid.
    pub open spec fn thinned(board: &Board, other: &Board) -> bool {
        &&& other.board_size == board.board_size
        &&& other.cells@.len() == board.cells@.len()
        &&& forall|p: int, q: int| #[trigger] other.linked(p, q) ==> board.linked(p, q)
    }

    /// Whether a shortest way from `s` to `e` on `board`, if there is a
    /// way, is a way on `other` too.
    pub open spec fn keeps_way(board: &Board, other: &Board, s: int, e: int) -> bool {
        forall|steps: nat| #[trigger]
            board.is_distance(s, e, steps) ==> other.reach_in(s, e, steps)
    }

    /// A walk on a board with fewer passages is a walk on the board with
    /// more.
    pub proof fn lemma_thinned_walk(board: &Board, other: &Board, w: Seq<int>)
        requires
            Self::thinned(board, other),
            other.is_walk(w),
        ensures
            board.is_walk(w),
    {
        assert forall|k: int| 0 <= k < w.len() - 1 implies board.linked(#[trigger] w[k], w[k + 1]) by {
            assert(other.linked(w[k], w[k + 1]));
        }
    }

    /// A walk that passes a dead end on its way leaves it the way it came,
    /// and is two steps shorter without the detour.
    pub proof fn lemma_detour(
        board: &Board,
        reduced: &Board,
        s: int,
        e: int,
        d: int,
        q: int,
        w: Seq<int>,
        i: int,
    )
        requires
            reduced.wf(),
            Self::thinned(board, reduced),
            reduced.walk_between(s, e, w),
            d != s,
            d != e,
            Self::only_way(reduced, d, q),
            0 <= i < w.len(),
            w[i] == d,
        ensures
            w.len() >= 3,
            board.reach_in(s, e, (w.len() - 3) as nat),
    {
        assert(0 < i < w.len() - 1);
        assert(reduced.linked(w[i - 1], w[i - 1 + 1]));
        assert(reduced.linked(w[i], w[i + 1]));
        reduced.lemma_linked_sym(w[i - 1], d);
        assert(w[i - 1] == q && w[i + 1] == q);
        let short = w.take(i) + w.subrange(i + 2, w.len() as int);
        assert(short.len() == w.len() - 2);
        assert forall|k: int| 0 <= k < short.len() - 1 implies reduced.linked(
            #[trigger] short[k],
            short[k + 1],
        ) by {
            if k < i - 1 {
                assert(short[k] == w[k] && short[k + 1] == w[k + 1]);
                assert(reduced.linked(w[k], w[k + 1]));
            } else if k == i - 1 {
                assert(short[k] == w[i - 1]);
                assert(short[k + 1] == w[i + 2]);
                assert(reduced.linked(w[i + 1], w[i + 1 + 1]));
            } else {
                assert(short[k] == w[k + 2]);
                assert(short[k + 1] == w[k + 3]);
                assert(reduced.linked(w[k + 2], w[k + 2 + 1]));
            }
        }
        assert(short[0] == w[0]);
        assert(short.last() == e) by {
            if i + 2 < w.len() {
                assert(short.last() == w.last());
            } else {
                assert(short.last() == w[i - 1]);
            }
        }
        assert(reduced.is_walk(short));
        Self::lemma_thinned_walk(board, reduced, short);
        assert(board.walk_between(s, e, short));
    }

    /// Walling off a dead end keeps a shortest way from the start to the
    /// end: a shortest way does not pass a dead end.
    pub proof fn lemma_fill_keeps_way(
        board: &Board,
        reduced: &Board,
        after: &Board,
        s: int,
        e: int,
        d: int,
        q: int,
    )
        requires
            board.wf(),
            reduced.wf(),
            Self::thinned(board, reduced),
            Self::keeps_way(board, reduced, s, e),
            d != s,
            d != e,
            Self::only_way(reduced, d, q),
            reduced.fenced_into(d, q, after),
        ensures
            after.wf(),
            Self::thinned(board, after),
            Self::keeps_way(board, after, s, e),
    {
        reduced.lemma_fenced(d, q, after);
        assert forall|steps: nat| #[trigger] board.is_distance(s, e, steps) implies after.reach_in(
            s,
            e,
            steps,
        ) by {
            assert(reduced.reach_in(s, e, steps));
            let w = choose|w: Seq<int>|
                #[trigger] reduced.walk_between(s, e, w) && w.len() == steps + 1;
            // The walk does not pass the dead end.
            assert forall|i: int| 0 <= i < w.len() implies w[i] != d by {
                if w[i] == d {
                    Self::lemma_detour(board, reduced, s, e, d, q, w, i);
                }
            }
            assert forall|k: int| 0 <= k < w.len() - 1 implies after.linked(
                #[trigger] w[k],
                w[k + 1],
            ) by {
                assert(reduced.linked(w[k], w[k + 1]));
            }
            assert(after.walk_between(s, e, w));
        }
    }

    /// The solver is at its beginning: its own board is a copy of `board`,
    /// no cell is filled, the filling is under
    /// way, and the search that will follow has not begun.
    pub open spec fn is_new(&self, board: &Board) -> bool {
        &&& self.reduced.cells@ == board.cells@
        &&& self.reduced.path@ == board.path@
        &&& self.reduced.board_size == board.board_size
        &&& self.reduced.finish == board.finish
        &&& board.same_place(&self.reduced)
        &&& self.filled@ == Seq::new(board.cells@.len(), |i: int| false)
        &&& self.filling
        &&& self.search.start == self.start
        &&& self.search.end == self.end
        &&& self.search.board_size == self.board_size
        &&& self.search.is_new()
    }

    /// A solver that takes a board of its own with the cells of `board` and
    /// searches it from `start` for `end`, both given as column and row, at
    /// the beginning of its work.
    pub fn new(board: &Board, start: (usize, usize), end: (usize, usize)) -> (solver: Self)
        requires
            board.wf(),
            start.0 < board.board_size,
            start.1 < board.board_size,
        ensures
            solver.inv(board),
            solver.start == start,
            solver.end == end,
            solver.board_size == board.board_size,
            solver.is_new(board),
            !solver.solved(),
    {
        let n: usize = board.board_size as usize;
        assert(n * n <= i32::MAX) by (nonlinear_arith)
            requires
                n == board.board_size,
                board.board_size * board.board_size <= i32::MAX,
        ;
        let reduced = board.duplicate();
        let filled: Vec<bool> = vec![false; board.cells.len()];
        let search = Solver::new(start, end, n);
        let solver = Self { start, end, board_size: n, reduced, filled, filling: true, search };
        proof {
            board.lemma_same_grid(&solver.reduced);
            assert(solver.filled@ =~= Seq::new(board.cells@.len(), |i: int| false));
            assert forall|steps: nat| #[trigger]
                board.is_distance(solver.source(), solver.target(), steps) implies solver.reduced.reach_in(
                solver.source(),
                solver.target(),
                steps,
            ) by {
                let w = choose|w: Seq<int>|
                    #[trigger] board.walk_between(solver.source(), solver.target(), w) && w.len()
                        == steps + 1;
                Self::lemma_same_walk(board, &solver.reduced, w);
                assert(solver.reduced.walk_between(solver.source(), solver.target(), w));
            }
        }
        solver
    }

    /// Boards with the same passages have the same walks.
    pub proof fn lemma_same_walk(board: &Board, other: &Board, w: Seq<int>)
        requires
            other.cells@.len() == board.cells@.len(),
            forall|p: int, q: int| board.linked(p, q) == #[trigger] other.linked(p, q),
            board.is_walk(w),
        ensures
            other.is_walk(w),
    {
        assert forall|k: int| 0 <= k < w.len() - 1 implies other.linked(#[trigger] w[k], w[k + 1]) by {
            assert(board.linked(w[k], w[k + 1]));
        }
    }

    /// The one cell behind an open wall of `cell`, if there is exactly
    /// one.
    pub fn single_way(&self, cell: usize) -> (way: Option<usize>)
        requires
            self.reduced.wf(),
            self.reduced.in_grid(cell as int),
        ensures
            match way {
                Some(q) => Self::only_way(&self.reduced, cell as int, q as int),
                None => forall|q: int| !#[trigger] Self::only_way(&self.reduced, cell as int, q),
            },
    {
        let neighbours = self.reduced.neighbors(cell as i32);
        let ghost c = cell as int;
        let mut found: Option<usize> = None;
        let mut many: bool = false;
        let ghost mut first: int = -1;
        let ghost mut second: int = -1;
        let mut d: usize = 0;
        while d < 4
            invariant
                d <= 4,
                c == cell,
                self.reduced.wf(),
                self.reduced.in_grid(c),
                neighbours@ == self.reduced.neighbor_seq(c),
                match found {
                    Some(q) => 0 <= first < d && neighbours@[first] == Some(q)
                        && Solver::open_towards(&self.reduced, c, first),
                    None => !many && forall|k: int|
                        0 <= k < d ==> !(#[trigger] neighbours@[k] is Some && Solver::open_towards(
                            &self.reduced,
                            c,
                            k,
                        )),
                },
                many ==> found is Some && first < second < d && neighbours@[second] is Some
                    && Solver::open_towards(&self.reduced, c, second),
                !many && found is Some ==> forall|k: int|
                    0 <= k < d && k != first ==> !(#[trigger] neighbours@[k] is Some
                        && Solver::open_towards(&self.reduced, c, k)),
            decreases 4 - d,
        {
            match neighbours[d] {
                Some(j) => {
                    let free: bool = (d == 0 && !self.reduced.cells[cell].walls.top) || (d == 1
                        && !self.reduced.cells[cell].walls.bottom) || (d == 2
                        && !self.reduced.cells[cell].walls.left) || (d == 3
                        && !self.reduced.cells[cell].walls.right);
                    if free {
                        if found.is_some() {
                            if !many {
                                proof {
                                    second = d as int;
                                }
                            }
                            many = true;
                        } else {
                            found = Some(j);
                            proof {
                                first = d as int;
                            }
                        }
                    }
                },
                None => {},
            }
            d += 1;
        }
        proof {
            self.reduced.lemma_neighbor_seq(c);
            Solver::lemma_open_towards(&self.reduced, c, 0);
            if found is Some && !many {
                let q = found->0 as int;
                Solver::lemma_open_towards(&self.reduced, c, first);
                assert(self.reduced.adjacent(c, q));
                assert forall|other: int| #[trigger]
                    self.reduced.linked(c, other) implies other == q by {
                    let k = choose|k: int|
                        0 <= k < 4 && #[trigger] self.reduced.neighbor_seq(c)[k] == Some(
                            other as usize,
                        ) && Solver::open_towards(&self.reduced, c, k);
                    self.reduced.lemma_adjacent_offsets(c, other);
                    assert(k == first);
                }
            } else {
                assert forall|q: int| !#[trigger] Self::only_way(&self.reduced, c, q) by {
                    if Self::only_way(&self.reduced, c, q) {
                        let k = choose|k: int|
                            0 <= k < 4 && #[trigger] self.reduced.neighbor_seq(c)[k] == Some(
                                q as usize,
                            ) && Solver::open_towards(&self.reduced, c, k);
                        if many {
                            Solver::lemma_open_towards(&self.reduced, c, first);
                            Solver::lemma_open_towards(&self.reduced, c, second);
                            let a = neighbours@[first]->0 as int;
                            let b = neighbours@[second]->0 as int;
                            assert(self.reduced.adjacent(c, a));
                            assert(self.reduced.adjacent(c, b));
                            self.reduced.lemma_neighbors_distinct(c, first, second);
                            assert(self.reduced.linked(c, a));
                            assert(self.reduced.linked(c, b));
                        }
                    }
                }
            }
        }
        if many {
            None
        } else {
            found
        }
    }

    /// The first dead end in the order of the slots, with the cell behind
    /// its one open wall; `None` if there is no dead end.
    pub fn find_dead_end(&self, board: &Board) -> (found: Option<(usize, usize)>)
        requires
            self.inv(board),
        ensures
            match found {
                Some((d, q)) => self.reduced.in_grid(d as int) && self.is_dead_end(d as int)
                    && Self::only_way(&self.reduced, d as int, q as int) && forall|i: int|
                    0 <= i < d ==> !#[trigger] self.is_dead_end(i),
                None => forall|i: int| self.reduced.in_grid(i) ==> !#[trigger] self.is_dead_end(i),
            },
    {
        let ghost s = self.source();
        let ghost e = self.target();
        proof {
            self.reduced.lemma_slot(self.start.0 as int, self.start.1 as int);
            if self.end.0 < self.board_size && self.end.1 < self.board_size {
                self.reduced.lemma_slot(self.end.0 as int, self.end.1 as int);
            }
        }
        let mut i: usize = 0;
        while i < self.reduced.cells.len()
            invariant
                i <= self.reduced.cells@.len(),
                self.inv(board),
                s == self.source(),
                e == self.target(),
                self.reduced.in_grid(s),
                self.reduced.cells@[s].x == self.start.0,
                self.reduced.cells@[s].y == self.start.1,
                0 <= e ==> self.reduced.in_grid(e) && self.reduced.cells@[e].x == self.end.0
                    && self.reduced.cells@[e].y == self.end.1,
                forall|k: int| 0 <= k < i ==> !#[trigger] self.is_dead_end(k),
            decreases self.reduced.cells@.len() - i,
        {
            let cell = self.reduced.cells[i];
            let at_start: bool = cell.x as usize == self.start.0 && cell.y as usize == self.start.1;
            let at_end: bool = cell.x as usize == self.end.0 && cell.y as usize == self.end.1;
            proof {
                if at_start {
                    self.reduced.lemma_same_place(i as int, s);
                }
                if at_end {
                    assert(0 <= e);
                    self.reduced.lemma_same_place(i as int, e);
                }
            }
            if !at_start && !at_end {
                match self.single_way(i) {
                    Some(q) => {
                        return Some((i, q));
                    },
                    None => {},
                }
            }
            i += 1;
        }
        None
    }

    /// What a step leaves behind. While filling, the first dead end is
    /// walled off and marked as filled; when there is none, the filling is
    /// over and the search begins anew on what is left. After that every
    /// step is one of the search.
    pub open spec fn stepped(&self, then: &DeadEndFilling) -> bool {
        &&& then.start == self.start
        &&& then.end == self.end
        &&& then.board_size == self.board_size
        &&& if !self.filling {
            &&& !then.filling
            &&& then.reduced == self.reduced
            &&& then.filled@ == self.filled@
        } else if exists|d: int| self.reduced.in_grid(d) && #[trigger] self.is_dead_end(d) {
            exists|d: int, q: int|
                #![trigger Self::only_way(&self.reduced, d, q)]
                {
                    &&& self.reduced.in_grid(d)
                    &&& self.is_dead_end(d)
                    &&& Self::only_way(&self.reduced, d, q)
                    &&& forall|i: int| 0 <= i < d ==> !#[trigger] self.is_dead_end(i)
                    &&& self.reduced.fenced_into(d, q, &then.reduced)
                    &&& then.filled@ == self.filled@.update(d, true)
                    &&& then.filling
                }
        } else {
            &&& !then.filling
            &&& then.reduced == self.reduced
            &&& then.filled@ == self.filled@
            &&& then.search.positions@ == seq![self.start_slot() as usize]
            &&& then.search.layer == 1
        }
    }
}

impl Pathfinder for DeadEndFilling {
    open spec fn inv(&self, board: &Board) -> bool {
        &&& board.wf()
        &&& self.reduced.wf()
        &&& self.board_size == board.board_size
        &&& self.start.0 < self.board_size
        &&& self.start.1 < self.board_size
        &&& self.filled@.len() == board.cells@.len()
        &&& Self::thinned(board, &self.reduced)
        &&& Self::keeps_way(board, &self.reduced, self.source(), self.target())
        &&& self.search.start == self.start
        &&& self.search.end == self.end
        &&& self.search.board_size == self.board_size
        &&& !self.filling ==> self.search.wf(&self.reduced)
    }

    open spec fn solved(&self) -> bool {
        !self.filling && self.search.solved
    }

    open spec fn source(&self) -> int {
        self.start_slot()
    }

    open spec fn target(&self) -> int {
        slot_of(self.end, self.board_size as int)
    }

    open spec fn route(&self) -> Seq<usize> {
        self.search.path@
    }

    open spec fn advanced(&self, board: &Board, then: &Self) -> bool {
        &&& self.stepped(then)
        &&& !self.filling ==> self.search.advanced(&self.reduced, &then.search)
    }

    fn advance(&mut self, board: &Board) -> (outcome: Result<State, MazeError>)
        ensures
            old(self).filling ==> outcome is Ok,
    {
        if self.filling {
            match self.find_dead_end(board) {
                Some((d, q)) => {
                    let ghost before = self.reduced;
                    proof {
                        self.reduced.lemma_adjacent_offsets(d as int, q as int);
                    }
                    self.reduced.add_wall(d, q);
                    self.filled.set(d, true);
                    proof {
                        Self::lemma_fill_keeps_way(
                            board,
                            &before,
                            &self.reduced,
                            self.source(),
                            self.target(),
                            d as int,
                            q as int,
                        );
                        assert(old(self).stepped(self));
                    }
                    Ok(State::Solve)
                },
                None => {
                    self.filling = false;
                    proof {
                        lemma_index_bounds(
                            self.board_size as int,
                            self.start.0 as int,
                            self.start.1 as int,
                        );
                    }
                    self.search = Solver::new(self.start, self.end, self.board_size);
                    proof {
                        self.search.lemma_ready(&self.reduced);
                        if self.search.solved {
                            self.lemma_route(board);
                        }
                    }
                    if self.search.solved {
                        Ok(State::Done)
                    } else {
                        Ok(State::Solve)
                    }
                },
            }
        } else {
            let outcome = Pathfinder::advance(&mut self.search, &self.reduced);
            proof {
                if outcome is Err {
                    Self::lemma_no_way(board, self);
                }
                if self.search.solved {
                    self.lemma_route(board);
                }
            }
            outcome
        }
    }

    fn get_path(&self) -> (path: &Vec<usize>) {
        &self.search.path
    }

    fn is_solved(&self) -> (solved: bool) {
        !self.filling && self.search.solved
    }

    proof fn lemma_route(&self, board: &Board) {
        self.search.lemma_shortest_path(&self.reduced);
        let path = self.search.path@;
        assert(self.search.reached_end);
        assert forall|k: int| 0 <= k < path.len() - 1 implies board.linked(
            #[trigger] path[k] as int,
            path[k + 1] as int,
        ) by {
            assert(self.reduced.linked(path[k] as int, path[k + 1] as int));
        }
    }
}

impl DeadEndFilling {
    /// The route of a search that has solved what is left is as short as
    /// any way from the start to the end on the whole board.
    pub proof fn lemma_shortest(board: &Board, solver: &DeadEndFilling)
        requires
            solver.inv(board),
            !solver.filling,
            solver.search.solved,
        ensures
            board.is_distance(
                solver.source(),
                solver.target(),
                (solver.route().len() - 1) as nat,
            ),
    {
        let s = solver.source();
        let e = solver.target();
        let reduced = &solver.reduced;
        solver.search.lemma_shortest_path(reduced);
        assert(solver.search.reached_end);
        board.lemma_slot(solver.end.0 as int, solver.end.1 as int);
        let steps = (solver.route().len() - 1) as nat;
        assert(reduced.is_distance(s, e, steps));
        let w = choose|w: Seq<int>| #[trigger] reduced.walk_between(s, e, w) && w.len() == steps + 1;
        Self::lemma_thinned_walk(board, reduced, w);
        assert(board.walk_between(s, e, w));
        assert forall|fewer: nat| fewer < steps implies !#[trigger] board.reach_in(s, e, fewer) by {
            if board.reach_in(s, e, fewer) {
                board.lemma_distance_exists(s, e, fewer);
                let least = choose|least: nat|
                    least <= fewer && #[trigger] board.is_distance(s, e, least);
                assert(reduced.reach_in(s, e, least));
            }
        }
    }

    /// If no walk leads from the start to the end on what is left, none
    /// does on the whole board.
    pub proof fn lemma_no_way(board: &Board, solver: &DeadEndFilling)
        requires
            solver.inv(board),
            !solver.reduced.connected(solver.source(), solver.target()),
        ensures
            !board.connected(solver.source(), solver.target()),
    {
        let s = solver.source();
        let e = solver.target();
        if board.connected(s, e) {
            board.lemma_reach_connected(s, e);
            let steps = choose|steps: nat| #[trigger] board.reach_in(s, e, steps);
            board.lemma_distance_exists(s, e, steps);
            let least = choose|least: nat|
                least <= steps && #[trigger] board.is_distance(s, e, least);
            assert(solver.reduced.reach_in(s, e, least));
            solver.reduced.lemma_reach_connected(s, e);
        }
    }
}

} // verus!
