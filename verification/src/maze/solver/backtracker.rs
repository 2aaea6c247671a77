//! The recursive backtracker as a solver: a depth-first walk from the start
//! that retraces its steps from each dead end until it stands on the end.

use crate::maze::djikstra::Solver;
use crate::maze::generator::{lemma_drop_last_contains, lemma_push_contains};
use crate::maze::solver::{slot_of, Pathfinder};
use crate::maze::{lemma_index_bounds, Board, MazeError, State};
use vstd::prelude::*;

verus! {

pub struct Backtracker {
    pub start: (usize, usize),
    pub end: (usize, usize),
    pub board_size: usize,
    pub stack: Vec<usize>,
    pub visited: Vec<bool>,
    pub path: Vec<usize>,
    pub solved: bool,
}

impl Backtracker {
    /// The slot of the start cell.
    pub open spec fn start_slot(&self) -> int {
        self.start.0 * self.board_size + self.start.1
    }

    /// The stack is a walk from the start, every cell of which is visited
    /// and none of which occurs twice.
    pub open spec fn stack_ok(&self, board: &Board) -> bool {
        &&& self.stack@.no_duplicates()
        &&& forall|k: int|
            0 <= k < self.stack@.len() ==> board.in_grid(#[trigger] self.stack@[k] as int)
                && self.visited@[self.stack@[k] as int]
        &&& self.stack@.len() > 0 ==> self.stack@[0] == self.start_slot()
        &&& forall|k: int|
            0 <= k < self.stack@.len() - 1 ==> #[trigger] board.linked(
                self.stack@[k] as int,
                self.stack@[k + 1] as int,
            )
    }

    /// Every visited cell that is no longer on the stack has visited cells
    /// only behind its open walls.
    pub open spec fn settled(&self, board: &Board) -> bool {
        forall|v: int, j: int|
            #[trigger] board.linked(v, j) && self.visited@[v] && !self.stack@.contains(v as usize)
                ==> self.visited@[j]
    }

    /// A solver for a board of side `board_size` that walks from `start`
    /// in search of `end`, both given as column and row, at the beginning
    /// of its walk.
    pub fn new(start: (usize, usize), end: (usize, usize), board_size: usize) -> (solver: Self)
        requires
            1 <= board_size,
            board_size * board_size <= i32::MAX,
            start.0 < board_size,
            start.1 < board_size,
        ensures
            solver.start == start,
            solver.end == end,
            solver.board_size == board_size,
            solver.is_new(),
    {
        proof {
            lemma_index_bounds(board_size as int, start.0 as int, start.1 as int);
        }
        let slot: usize = start.0 * board_size + start.1;
        let mut visited: Vec<bool> = vec![false; board_size * board_size];
        visited.set(slot, true);
        let mut stack: Vec<usize> = Vec::new();
        stack.push(slot);
        let solver = Self {
            start,
            end,
            board_size,
            stack,
            visited,
            path: Vec::new(),
            solved: false,
        };
        proof {
            assert(solver.stack@ =~= seq![solver.start_slot() as usize]);
            assert(solver.visited@ =~= Seq::new(
                (board_size * board_size) as nat,
                |i: int| i == solver.start_slot(),
            ));
        }
        solver
    }

    /// A new solver fits every well-formed board of its size.
    pub proof fn lemma_ready(&self, board: &Board)
        requires
            board.wf(),
            board.board_size == self.board_size,
            self.start.0 < self.board_size,
            self.start.1 < self.board_size,
            self.stack@ == seq![self.start_slot() as usize],
            self.visited@ == Seq::new(
                (self.board_size * self.board_size) as nat,
                |i: int| i == self.start_slot(),
            ),
            self.path@.len() == 0,
            !self.solved,
        ensures
            self.inv(board),
    {
        let s = self.start_slot();
        board.lemma_slot(self.start.0 as int, self.start.1 as int);
        assert(s == board.slot(self.start.0 as int, self.start.1 as int));
        assert(self.stack@[0] == s);
        assert forall|v: int, j: int|
            #[trigger] board.linked(v, j) && self.visited@[v] && !self.stack@.contains(
                v as usize,
            ) implies self.visited@[j] by {
            board.lemma_adjacent_offsets(v, j);
            assert(v == s);
            assert(self.stack@.contains(s as usize));
        }
        assert forall|v: int| 0 <= v < self.visited@.len() && self.visited@[v] implies board.connected(
            s,
            v,
        ) by {
            board.lemma_connected_refl(s);
        }
    }

    /// Whether the neighbour of the top of the stack in direction `d` of
    /// the neighbour order is a way on: the wall towards it is down and it
    /// has not been visited.
    pub open spec fn way_on(&self, board: &Board, d: int) -> bool {
        let top = self.stack@.last() as int;
        board.neighbor_seq(top)[d] matches Some(j) && Solver::open_towards(board, top, d)
            && !self.visited@[j as int]
    }

    /// What a step leaves behind. On the end the walk is over: the maze is
    /// solved and the path is the stack from the top down. With a way on,
    /// the first in the neighbour order, the cell behind it is visited and
    /// on top of the stack. At a dead end the top of the stack is gone.
    pub open spec fn stepped(&self, board: &Board, then: &Backtracker) -> bool {
        let top = self.stack@.last() as int;
        &&& then.start == self.start
        &&& then.end == self.end
        &&& then.board_size == self.board_size
        &&& if top == slot_of(self.end, self.board_size as int) {
            &&& then.solved
            &&& then.path@ == self.stack@.reverse()
            &&& then.stack@ == self.stack@
            &&& then.visited@ == self.visited@
        } else if exists|d: int| 0 <= d < 4 && #[trigger] self.way_on(board, d) {
            exists|d: int|
                #![trigger self.way_on(board, d)]
                {
                    let next = board.neighbor_seq(top)[d]->0;
                    &&& 0 <= d < 4
                    &&& self.way_on(board, d)
                    &&& forall|k: int| 0 <= k < d ==> !#[trigger] self.way_on(board, k)
                    &&& then.stack@ == self.stack@.push(next)
                    &&& then.visited@ == self.visited@.update(next as int, true)
                    &&& then.path@ == self.path@
                    &&& !then.solved
                }
        } else {
            &&& then.stack@ == self.stack@.drop_last()
            &&& then.visited@ == self.visited@
            &&& then.path@ == self.path@
            &&& !then.solved
        }
    }

    /// The first direction of the neighbour order in which the top of the
    /// stack has a way on, if it has one.
    pub fn first_way_on(&self, board: &Board) -> (found: Option<usize>)
        requires
            self.inv(board),
            self.stack@.len() > 0,
        ensures
            match found {
                Some(d) => d < 4 && self.way_on(board, d as int) && forall|k: int|
                    0 <= k < d ==> !#[trigger] self.way_on(board, k),
                None => forall|k: int| 0 <= k < 4 ==> !#[trigger] self.way_on(board, k),
            },
    {
        let top: usize = self.stack[self.stack.len() - 1];
        let neighbours = board.neighbors(top as i32);
        let mut d: usize = 0;
        while d < 4
            invariant
                d <= 4,
                board.wf(),
                board.in_grid(top as int),
                self.visited@.len() == board.cells@.len(),
                self.stack@.len() > 0,
                top == self.stack@.last(),
                neighbours@ == board.neighbor_seq(top as int),
                forall|k: int| 0 <= k < d ==> !#[trigger] self.way_on(board, k),
            decreases 4 - d,
        {
            proof {
                board.lemma_neighbor_seq(top as int);
            }
            match neighbours[d] {
                Some(j) => {
                    let free: bool = (d == 0 && !board.cells[top].walls.top) || (d == 1
                        && !board.cells[top].walls.bottom) || (d == 2
                        && !board.cells[top].walls.left) || (d == 3
                        && !board.cells[top].walls.right);
                    assert(board.adjacent(top as int, j as int));
                    if free && !self.visited[j] {
                        return Some(d);
                    }
                },
                None => {},
            }
            d += 1;
        }
        None
    }

    /// Goes on from the top of the stack through the open wall in
    /// direction `d` to a cell that has not been visited.
    fn go_on(&mut self, board: &Board, d: usize)
        requires
            old(self).inv(board),
            !old(self).solved,
            old(self).stack@.len() > 0,
            old(self).stack@.last() != old(self).target(),
            d < 4,
            old(self).way_on(board, d as int),
        ensures
            final(self).inv(board),
            final(self).start == old(self).start,
            final(self).end == old(self).end,
            final(self).board_size == old(self).board_size,
            final(self).stack@ == old(self).stack@.push(
                board.neighbor_seq(old(self).stack@.last() as int)[d as int]->0,
            ),
            final(self).visited@ == old(self).visited@.update(
                board.neighbor_seq(old(self).stack@.last() as int)[d as int]->0 as int,
                true,
            ),
            final(self).path@ == old(self).path@,
            !final(self).solved,
    {
        let ghost s = self.start_slot();
        let ghost pile = self.stack@;
        let ghost seen = self.visited@;
        let top: usize = self.stack[self.stack.len() - 1];
        let neighbours = board.neighbors(top as i32);
        proof {
            board.lemma_neighbor_seq(top as int);
            Solver::lemma_open_towards(board, top as int, d as int);
        }
        match neighbours[d] {
            Some(j) => {
                proof {
                    assert(board.adjacent(top as int, j as int));
                    assert(board.linked(top as int, j as int));
                    lemma_push_contains(pile, j);
                    assert(!pile.contains(j)) by {
                        if pile.contains(j) {
                            let at = choose|at: int| 0 <= at < pile.len() && pile[at] == j;
                            assert(board.in_grid(pile[at] as int) && seen[pile[at] as int]);
                        }
                    }
                    board.lemma_connected_step(top as int, j as int);
                    assert(seen[top as int]);
                    assert(board.connected(s, top as int));
                    board.lemma_connected_trans(s, top as int, j as int);
                }
                self.visited.set(j, true);
                self.stack.push(j);
                proof {
                    assert forall|v: int, i: int|
                        #[trigger] board.linked(v, i) && self.visited@[v] && !self.stack@.contains(
                            v as usize,
                        ) implies self.visited@[i] by {
                        board.lemma_adjacent_offsets(v, i);
                        assert(!pile.contains(v as usize));
                        assert(seen[v]);
                    }
                    assert forall|k: int| 0 <= k < self.stack@.len() - 1 implies #[trigger] board.linked(
                        self.stack@[k] as int,
                        self.stack@[k + 1] as int,
                    ) by {
                        if k < pile.len() - 1 {
                            assert(board.linked(pile[k] as int, pile[k + 1] as int));
                        }
                    }
                    assert forall|k: int| 0 <= k < self.stack@.len() implies board.in_grid(
                        #[trigger] self.stack@[k] as int,
                    ) && self.visited@[self.stack@[k] as int] by {
                        if k < pile.len() {
                            assert(board.in_grid(pile[k] as int) && seen[pile[k] as int]);
                        }
                    }
                    assert forall|v: int|
                        0 <= v < self.visited@.len()
                            && self.visited@[v] implies #[trigger] board.connected(s, v) by {
                        if v != j {
                            assert(seen[v]);
                        }
                    }
                    assert(self.stack@[0] == pile[0]);
                }
            },
            None => {},
        }
    }

    /// Goes back from a dead end: the top of the stack is taken off.
    fn go_back(&mut self, board: &Board)
        requires
            old(self).inv(board),
            !old(self).solved,
            old(self).stack@.len() > 0,
            old(self).stack@.last() != old(self).target(),
            forall|k: int| 0 <= k < 4 ==> !#[trigger] old(self).way_on(board, k),
        ensures
            final(self).inv(board),
            final(self).start == old(self).start,
            final(self).end == old(self).end,
            final(self).board_size == old(self).board_size,
            final(self).stack@ == old(self).stack@.drop_last(),
            final(self).visited@ == old(self).visited@,
            final(self).path@ == old(self).path@,
            !final(self).solved,
    {
        let ghost pile = self.stack@;
        let ghost seen = self.visited@;
        let ghost top = pile.last() as int;
        proof {
            lemma_drop_last_contains(pile);
        }
        let _ = self.stack.pop();
        proof {
            assert forall|v: int, i: int|
                #[trigger] board.linked(v, i) && self.visited@[v] && !self.stack@.contains(
                    v as usize,
                ) implies self.visited@[i] by {
                board.lemma_adjacent_offsets(v, i);
                if pile.contains(v as usize) {
                    assert(v == top);
                    Solver::lemma_open_towards(board, top, 0);
                    let dir = choose|dir: int|
                        0 <= dir < 4 && #[trigger] board.neighbor_seq(top)[dir] == Some(i as usize)
                            && Solver::open_towards(board, top, dir);
                    assert(!old(self).way_on(board, dir));
                }
            }
            assert forall|k: int| 0 <= k < self.stack@.len() - 1 implies #[trigger] board.linked(
                self.stack@[k] as int,
                self.stack@[k + 1] as int,
            ) by {
                assert(board.linked(pile[k] as int, pile[k + 1] as int));
            }
            assert forall|k: int| 0 <= k < self.stack@.len() implies board.in_grid(
                #[trigger] self.stack@[k] as int,
            ) && self.visited@[self.stack@[k] as int] by {
                assert(board.in_grid(pile[k] as int) && seen[pile[k] as int]);
            }
            if self.stack@.len() > 0 {
                assert(self.stack@[0] == pile[0]);
            }
        }
    }

    /// With the stack empty, the walk has been wherever a walk from the
    /// start can get, and the end is not among those places.
    pub proof fn lemma_walked_out(&self, board: &Board)
        requires
            self.inv(board),
            !self.solved,
            self.stack@.len() == 0,
        ensures
            !board.connected(self.source(), self.target()),
    {
        let s = self.source();
        let e = self.target();
        if board.connected(s, e) {
            board.lemma_connected_in_grid(s, e);
            assert forall|p: int, q: int| #[trigger]
                board.linked(p, q) && self.visited@[p] implies self.visited@[q] by {
                assert(!self.stack@.contains(p as usize));
            }
            board.lemma_closed_under_walks(self.visited@, s, e);
        }
    }

    /// The cells of the stack from the top down: the way from where the
    /// walk stands back to the start.
    fn way_back(&self) -> (path: Vec<usize>)
        ensures
            path@ == self.stack@.reverse(),
    {
        let mut path: Vec<usize> = Vec::new();
        let mut k: usize = self.stack.len();
        while k > 0
            invariant
                k <= self.stack@.len(),
                path@.len() == self.stack@.len() - k,
                forall|i: int|
                    0 <= i < path@.len() ==> path@[i] == self.stack@[self.stack@.len() - 1 - i],
            decreases k,
        {
            k -= 1;
            path.push(self.stack[k]);
        }
        proof {
            assert(path@ =~= self.stack@.reverse());
        }
        path
    }

    /// The walk is at its beginning: it stands on the start, the only cell
    /// that it has visited, and there is no path yet.
    pub open spec fn is_new(&self) -> bool {
        &&& self.stack@ == seq![self.start_slot() as usize]
        &&& self.visited@ == Seq::new(
            (self.board_size * self.board_size) as nat,
            |i: int| i == self.start_slot(),
        )
        &&& self.path@.len() == 0
        &&& !self.solved
    }
}

impl Pathfinder for Backtracker {
    open spec fn inv(&self, board: &Board) -> bool {
        &&& board.wf()
        &&& self.board_size == board.board_size
        &&& self.start.0 < self.board_size
        &&& self.start.1 < self.board_size
        &&& self.visited@.len() == board.cells@.len()
        &&& self.visited@[self.start_slot()]
        &&& self.stack_ok(board)
        &&& self.settled(board)
        &&& forall|v: int|
            0 <= v < self.visited@.len() && self.visited@[v] ==> #[trigger] board.connected(
                self.start_slot(),
                v,
            )
        &&& if self.solved {
            self.stack@.len() > 0 && self.stack@.last() == self.target() && self.path@
                == self.stack@.reverse()
        } else {
            0 <= self.target() < self.visited@.len() && self.visited@[self.target()]
                ==> self.stack@.len() > 0 && self.stack@.last() == self.target()
        }
    }

    open spec fn solved(&self) -> bool {
        self.solved
    }

    open spec fn source(&self) -> int {
        self.start_slot()
    }

    open spec fn target(&self) -> int {
        slot_of(self.end, self.board_size as int)
    }

    open spec fn route(&self) -> Seq<usize> {
        self.path@
    }

    open spec fn advanced(&self, board: &Board, then: &Self) -> bool {
        self.stepped(board, then)
    }

    fn advance(&mut self, board: &Board) -> (outcome: Result<State, MazeError>)
        ensures
            !old(self).solved ==> (outcome is Err <==> old(self).stack@.len() == 0),
    {
        if self.solved {
            proof {
                self.lemma_route(board);
            }
            return Ok(State::Done);
        }
        if self.stack.len() == 0 {
            proof {
                self.lemma_walked_out(board);
            }
            return Err(MazeError::Unreachable);
        }
        let ghost s = self.start_slot();
        let ghost pile = self.stack@;
        let ghost seen = self.visited@;
        let top: usize = self.stack[self.stack.len() - 1];
        proof {
            board.lemma_slot(self.start.0 as int, self.start.1 as int);
            if self.end.0 < self.board_size && self.end.1 < self.board_size {
                board.lemma_slot(self.end.0 as int, self.end.1 as int);
            }
        }
        if board.cells[top].x as usize == self.end.0 && board.cells[top].y as usize == self.end.1 {
            proof {
                board.lemma_same_place(top as int, self.target());
            }
            self.path = self.way_back();
            self.solved = true;
            proof {
                assert forall|k: int| 0 <= k < self.path@.len() - 1 implies board.linked(
                    #[trigger] self.path@[k] as int,
                    self.path@[k + 1] as int,
                ) by {
                    let j = pile.len() - 2 - k;
                    assert(board.linked(pile[j] as int, pile[j + 1] as int));
                    board.lemma_linked_sym(pile[j] as int, pile[j + 1] as int);
                }
            }
            return Ok(State::Done);
        }
        proof {
            if self.target() == top {
                board.lemma_same_place(top as int, self.target());
            }
        }
        match self.first_way_on(board) {
            Some(d) => {
                self.go_on(board, d);
            },
            None => {
                self.go_back(board);
            },
        }
        Ok(State::Solve)
    }

    fn get_path(&self) -> (path: &Vec<usize>) {
        &self.path
    }

    fn is_solved(&self) -> (solved: bool) {
        self.solved
    }

    proof fn lemma_route(&self, board: &Board) {
        let pile = self.stack@;
        assert(self.path@ =~= pile.reverse());
        assert forall|k: int| 0 <= k < self.path@.len() - 1 implies board.linked(
            #[trigger] self.path@[k] as int,
            self.path@[k + 1] as int,
        ) by {
            let j = pile.len() - 2 - k;
            assert(board.linked(pile[j] as int, pile[j + 1] as int));
            board.lemma_linked_sym(pile[j] as int, pile[j + 1] as int);
        }
    }
}

} // verus!
