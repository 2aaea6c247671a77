//! A*: of the cells found but not yet searched, the one that promises the
//! shortest way to the end is searched next. The promise of a cell is the
//! number of steps to it plus its distance from the end as the crow flies
//! along the grid.

use crate::maze::djikstra::Solver;
use crate::maze::generator::lemma_push_contains;
use crate::maze::graph::{count_down, lemma_count_down_raise};
use crate::maze::solver::{slot_of, Pathfinder};
use crate::maze::{lemma_index_bounds, Board, MazeError, State};
use vstd::prelude::*;

verus! {

pub struct AStar {
    pub start: (usize, usize),
    pub end: (usize, usize),
    pub board_size: usize,
    pub open: Vec<usize>,
    pub costs: Vec<Option<usize>>,
    pub parents: Vec<Option<usize>>,
    pub closed: Vec<bool>,
    pub path: Vec<usize>,
    pub reached_end: bool,
    pub solved: bool,
}

/// The distance between two numbers.
pub open spec fn apart(a: int, b: int) -> int {
    if a > b {
        a - b
    } else {
        b - a
    }
}

impl AStar {
    /// The slot of the start cell.
    pub open spec fn start_slot(&self) -> int {
        self.start.0 * self.board_size + self.start.1
    }

    /// Which cells have been found.
    pub open spec fn found(&self) -> Seq<bool> {
        Seq::new(self.costs@.len(), |i: int| self.costs@[i] is Some)
    }

    /// What the cell `cell`, which has been found, promises: the steps to
    /// it plus its distance from the end along the grid.
    pub open spec fn promise(&self, board: &Board, cell: int) -> int {
        self.costs@[cell]->0 + apart(board.cells@[cell].x as int, self.end.0 as int) + apart(
            board.cells@[cell].y as int,
            self.end.1 as int,
        )
    }

    /// Whether the open wall in one of the first `d` directions of the
    /// neighbour order leads from `cell` to `j`.
    pub open spec fn seen_by(board: &Board, cell: int, d: int, j: int) -> bool {
        board.in_grid(j) && exists|k: int|
            0 <= k < d && #[trigger] board.neighbor_seq(cell)[k] == Some(j as usize)
                && Solver::open_towards(board, cell, k)
    }

    /// Whether a way to `j` in `steps` steps is news: `j` has not been
    /// found, or has been found by a longer way and not been searched yet.
    pub open spec fn improves(&self, j: int, steps: int) -> bool {
        self.costs@[j] is None || (!self.closed@[j] && self.costs@[j]->0 > steps)
    }

    /// The cells behind the open walls in the first `d` directions around
    /// `cell` that have not been found, in the neighbour order.
    pub open spec fn fresh_seq(&self, board: &Board, cell: int, d: int) -> Seq<usize>
        decreases d,
    {
        if d <= 0 {
            Seq::empty()
        } else {
            let rest = self.fresh_seq(board, cell, d - 1);
            match board.neighbor_seq(cell)[d - 1] {
                Some(j) => if Solver::open_towards(board, cell, d - 1)
                    && self.costs@[j as int] is None {
                    rest.push(j)
                } else {
                    rest
                },
                None => rest,
            }
        }
    }

    /// What holds of the search, with the cell `busy` half searched: the
    /// first `dirs` directions around it have been looked at. With no cell
    /// half searched, `busy` is `-1`.
    pub open spec fn sound(&self, board: &Board, busy: int, dirs: int) -> bool {
        let s = self.start_slot();
        let total = board.cells@.len();
        &&& board.wf()
        &&& self.board_size == board.board_size
        &&& self.start.0 < self.board_size
        &&& self.start.1 < self.board_size
        &&& self.costs@.len() == total
        &&& self.parents@.len() == total
        &&& self.closed@.len() == total
        &&& self.costs@[s] == Some(0usize)
        &&& self.parents@[s] is None
        // Every cell found but the start hangs on a searched cell that is
        // one step nearer to the start.
        &&& forall|j: int|
            0 <= j < total && j != s && self.costs@[j] is Some ==> (
            #[trigger] self.parents@[j] matches Some(p) && board.linked(p as int, j)
                && self.closed@[p as int] && self.costs@[p as int] is Some && self.costs@[j]->0
                == self.costs@[p as int]->0 + 1)
        // The open list holds, once each, the cells found and not searched.
        &&& self.open@.no_duplicates()
        &&& forall|k: int|
            0 <= k < self.open@.len() ==> 0 <= #[trigger] self.open@[k] < total
                && self.costs@[self.open@[k] as int] is Some && !self.closed@[self.open@[k] as int]
        &&& forall|j: int|
            0 <= j < total && self.costs@[j] is Some && !(#[trigger] self.closed@[j])
                ==> self.open@.contains(j as usize)
        &&& forall|j: int| 0 <= j < total && #[trigger] self.closed@[j] ==> self.costs@[j] is Some
        // Behind the open walls of a searched cell, every cell is found.
        &&& forall|p: int, q: int|
            #[trigger] board.linked(p, q) && self.closed@[p] && p != busy ==> self.costs@[q] is Some
        &&& forall|q: int|
            0 <= busy < total && Self::seen_by(board, busy, dirs, q) ==> (
            #[trigger] self.costs@[q]) is Some
        // No way found is longer than the number of cells found.
        &&& forall|j: int|
            0 <= j < total && (#[trigger] self.costs@[j]) is Some ==> self.costs@[j]->0 + 1
                + count_down(self.found()) <= total
    }

    /// The path leads from the end towards the start, from each cell to the
    /// one through which it was found.
    pub open spec fn path_ok(&self) -> bool {
        let e = slot_of(self.end, self.board_size as int);
        &&& self.reached_end == (0 <= e < self.closed@.len() && self.closed@[e])
        &&& self.reached_end == (self.path@.len() > 0)
        &&& self.path@.len() > 0 ==> self.path@[0] == e
        &&& forall|k: int|
            0 <= k < self.path@.len() ==> 0 <= #[trigger] self.path@[k] < self.closed@.len()
                && self.closed@[self.path@[k] as int]
        &&& forall|k: int|
            0 <= k < self.path@.len() - 1 ==> self.parents@[#[trigger] self.path@[k] as int]
                == Some(self.path@[k + 1])
        &&& self.solved == (self.path@.len() > 0 && self.path@.last() == self.start_slot())
    }

    /// The search is at its beginning: only the start has been found, in
    /// no steps, and waits to be looked at; no cell has been dealt with or
    /// has a cell before it, and there is no path yet.
    pub open spec fn is_new(&self) -> bool {
        &&& self.open@ == seq![self.start_slot() as usize]
        &&& self.costs@ == Seq::new(
            (self.board_size * self.board_size) as nat,
            |i: int|
                if i == self.start_slot() {
                    Some(0usize)
                } else {
                    None
                },
        )
        &&& self.parents@ == Seq::new(
            (self.board_size * self.board_size) as nat,
            |i: int| None::<usize>,
        )
        &&& self.closed@ == Seq::new((self.board_size * self.board_size) as nat, |i: int| false)
        &&& self.path@.len() == 0
        &&& !self.reached_end
        &&& !self.solved
    }

    /// A solver for a board of side `board_size` that searches from `start`
    /// for `end`, both given as column and row, at the beginning of its
    /// search.
    pub fn new(start: (usize, usize), end: (usize, usize), board_size: usize) -> (solver: Self)
        requires
            1 <= board_size,
            board_size * board_size <= i32::MAX,
            start.0 < board_size,
            start.1 < board_size,
        ensures
            solver.start == start,
            solver.end == end,
            solver.board_size == board_size,
            solver.is_new(),
    {
        proof {
            lemma_index_bounds(board_size as int, start.0 as int, start.1 as int);
        }
        let slot: usize = start.0 * board_size + start.1;
        let mut costs: Vec<Option<usize>> = vec![None; board_size * board_size];
        costs.set(slot, Some(0));
        let parents: Vec<Option<usize>> = vec![None; board_size * board_size];
        let closed: Vec<bool> = vec![false; board_size * board_size];
        let mut open: Vec<usize> = Vec::new();
        open.push(slot);
        let solver = Self {
            start,
            end,
            board_size,
            open,
            costs,
            parents,
            closed,
            path: Vec::new(),
            reached_end: false,
            solved: false,
        };
        proof {
            assert(solver.open@ =~= seq![solver.start_slot() as usize]);
            assert(solver.costs@ =~= Seq::new(
                (board_size * board_size) as nat,
                |i: int|
                    if i == solver.start_slot() {
                        Some(0usize)
                    } else {
                        None
                    },
            ));
            assert(solver.parents@ =~= Seq::new(
                (board_size * board_size) as nat,
                |i: int| None::<usize>,
            ));
            assert(solver.closed@ =~= Seq::new((board_size * board_size) as nat, |i: int| false));
        }
        solver
    }

    /// A new solver fits every well-formed board of its size.
    pub proof fn lemma_ready(&self, board: &Board)
        requires
            board.wf(),
            board.board_size == self.board_size,
            self.start.0 < self.board_size,
            self.start.1 < self.board_size,
            self.open@ == seq![self.start_slot() as usize],
            self.costs@ == Seq::new(
                (self.board_size * self.board_size) as nat,
                |i: int|
                    if i == self.start_slot() {
                        Some(0usize)
                    } else {
                        None
                    },
            ),
            self.parents@ == Seq::new(
                (self.board_size * self.board_size) as nat,
                |i: int| None::<usize>,
            ),
            self.closed@ == Seq::new((self.board_size * self.board_size) as nat, |i: int| false),
            self.path@.len() == 0,
            !self.reached_end,
            !self.solved,
        ensures
            self.inv(board),
    {
        let s = self.start_slot();
        board.lemma_slot(self.start.0 as int, self.start.1 as int);
        assert(s == board.slot(self.start.0 as int, self.start.1 as int));
        assert(self.open@[0] == s);
        assert(self.open@.contains(s as usize));
        crate::maze::graph::lemma_count_down_single(self.costs@.len(), s);
        assert(self.found() =~= Seq::new(self.costs@.len(), |i: int| i == s));
        assert forall|p: int, q: int|
            #[trigger] board.linked(p, q) && self.closed@[p] && p
                != -1 implies self.costs@[q] is Some by {
            board.lemma_adjacent_offsets(p, q);
        }
    }

    /// The promise of a cell that has been found.
    fn rank(&self, board: &Board, cell: usize) -> (promise: u128)
        requires
            board.shaped(),
            self.costs@.len() == board.cells@.len(),
            board.in_grid(cell as int),
            self.costs@[cell as int] is Some,
        ensures
            promise == self.promise(board, cell as int),
    {
        let steps: usize = self.costs[cell].unwrap();
        let x: usize = board.cells[cell].x as usize;
        let y: usize = board.cells[cell].y as usize;
        let dx: usize = if x > self.end.0 {
            x - self.end.0
        } else {
            self.end.0 - x
        };
        let dy: usize = if y > self.end.1 {
            y - self.end.1
        } else {
            self.end.1 - y
        };
        steps as u128 + dx as u128 + dy as u128
    }

    /// Whether the open cell at `i` is the one to search next: none
    /// promises less, and none before it as little.
    pub open spec fn is_best(&self, board: &Board, i: int) -> bool {
        &&& 0 <= i < self.open@.len()
        &&& forall|k: int|
            0 <= k < self.open@.len() ==> self.promise(board, self.open@[i] as int)
                <= self.promise(board, #[trigger] self.open@[k] as int) && (k < i ==> self.promise(
                board,
                self.open@[i] as int,
            ) < self.promise(board, self.open@[k] as int))
    }

    /// The place in the open list of the cell to search next.
    pub fn best(&self, board: &Board) -> (i: usize)
        requires
            self.inv(board),
            self.open@.len() > 0,
        ensures
            self.is_best(board, i as int),
    {
        let mut i: usize = 0;
        let mut least: u128 = self.rank(board, self.open[0]);
        let mut k: usize = 1;
        while k < self.open.len()
            invariant
                1 <= k <= self.open@.len(),
                self.inv(board),
                i < k,
                least == self.promise(board, self.open@[i as int] as int),
                forall|m: int|
                    0 <= m < k ==> least <= self.promise(board, #[trigger] self.open@[m] as int)
                        && (m < i ==> least < self.promise(board, self.open@[m] as int)),
            decreases self.open@.len() - k,
        {
            let promise: u128 = self.rank(board, self.open[k]);
            if promise < least {
                i = k;
                least = promise;
            }
            k += 1;
        }
        i
    }

    /// What holds while the cell `cell`, found in `steps` steps, is being
    /// searched and the first `d` directions around it have been looked at,
    /// of the search as it was when `cell` had just been taken off the open
    /// list: every cell behind an open wall looked at, the way to which is
    /// news, hangs on `cell` now, one step further; and those not found
    /// before are on the open list.
    pub open spec fn searching(
        &self,
        board: &Board,
        before: &AStar,
        cell: int,
        steps: int,
        d: int,
    ) -> bool {
        &&& self.start == before.start
        &&& self.end == before.end
        &&& self.board_size == before.board_size
        &&& self.closed@ == before.closed@
        &&& self.path@ == before.path@
        &&& self.reached_end == before.reached_end
        &&& self.solved == before.solved
        &&& self.costs@.len() == before.costs@.len()
        &&& self.parents@.len() == before.parents@.len()
        &&& forall|j: int|
            0 <= j < self.costs@.len() ==> #[trigger] self.costs@[j] == (if Self::seen_by(
                board,
                cell,
                d,
                j,
            ) && before.improves(j, steps + 1) {
                Some((steps + 1) as usize)
            } else {
                before.costs@[j]
            })
        &&& forall|j: int|
            0 <= j < self.parents@.len() ==> #[trigger] self.parents@[j] == (if Self::seen_by(
                board,
                cell,
                d,
                j,
            ) && before.improves(j, steps + 1) {
                Some(cell as usize)
            } else {
                before.parents@[j]
            })
        &&& self.open@ == before.open@ + before.fresh_seq(board, cell, d)
    }

    /// What has been looked at after one more direction is what had been,
    /// and the cell behind the open wall in that direction.
    pub proof fn lemma_seen_more(board: &Board, cell: int, d: int)
        requires
            board.wf(),
            board.in_grid(cell),
            0 <= d < 4,
        ensures
            forall|q: int|
                #[trigger] Self::seen_by(board, cell, d + 1, q) <==> Self::seen_by(
                    board,
                    cell,
                    d,
                    q,
                ) || (board.in_grid(q) && board.neighbor_seq(cell)[d] == Some(q as usize)
                    && Solver::open_towards(board, cell, d)),
            forall|q: int| Self::seen_by(board, cell, d, q) ==> #[trigger] board.linked(cell, q),
            forall|q: int| #[trigger]
                Self::seen_by(board, cell, d, q) ==> board.neighbor_seq(cell)[d] != Some(
                    q as usize,
                ),
    {
        board.lemma_neighbor_seq(cell);
        assert forall|q: int|
            #[trigger] Self::seen_by(board, cell, d + 1, q) <==> Self::seen_by(board, cell, d, q)
                || (board.in_grid(q) && board.neighbor_seq(cell)[d] == Some(q as usize)
                && Solver::open_towards(board, cell, d)) by {
            if Self::seen_by(board, cell, d + 1, q) {
                let k = choose|k: int|
                    0 <= k < d + 1 && #[trigger] board.neighbor_seq(cell)[k] == Some(q as usize)
                        && Solver::open_towards(board, cell, k);
                if k < d {
                    assert(Self::seen_by(board, cell, d, q));
                }
            }
            if Self::seen_by(board, cell, d, q) {
                let k = choose|k: int|
                    0 <= k < d && #[trigger] board.neighbor_seq(cell)[k] == Some(q as usize)
                        && Solver::open_towards(board, cell, k);
                assert(0 <= k < d + 1);
            }
            if board.in_grid(q) && board.neighbor_seq(cell)[d] == Some(q as usize)
                && Solver::open_towards(board, cell, d) {
                assert(0 <= d < d + 1);
            }
        }
        assert forall|q: int| Self::seen_by(board, cell, d, q) implies #[trigger] board.linked(
            cell,
            q,
        ) by {
            let k = choose|k: int|
                0 <= k < d && #[trigger] board.neighbor_seq(cell)[k] == Some(q as usize)
                    && Solver::open_towards(board, cell, k);
            Solver::lemma_open_towards(board, cell, k);
        }
        assert forall|q: int| #[trigger]
            Self::seen_by(board, cell, d, q) implies board.neighbor_seq(cell)[d] != Some(
            q as usize,
        ) by {
            let k = choose|k: int|
                0 <= k < d && #[trigger] board.neighbor_seq(cell)[k] == Some(q as usize)
                    && Solver::open_towards(board, cell, k);
            board.lemma_neighbors_distinct(cell, k, d);
        }
    }

    /// Whether `now` is `self` after the way to `j` through `cell`, in one
    /// step more than `steps`, has been noted.
    pub open spec fn noted(&self, now: &AStar, cell: int, steps: int, j: int) -> bool {
        &&& now.start == self.start
        &&& now.end == self.end
        &&& now.board_size == self.board_size
        &&& now.closed@ == self.closed@
        &&& now.path@ == self.path@
        &&& now.reached_end == self.reached_end
        &&& now.solved == self.solved
        &&& now.costs@ == self.costs@.update(j, Some((steps + 1) as usize))
        &&& now.parents@ == self.parents@.update(j, Some(cell as usize))
        &&& now.open@ == (if self.costs@[j] is None {
            self.open@.push(j as usize)
        } else {
            self.open@
        })
    }

    /// Noting news keeps the search sound.
    #[verifier::rlimit(40)]
    pub proof fn lemma_noted_sound(
        &self,
        now: &AStar,
        board: &Board,
        cell: int,
        steps: int,
        d: int,
        j: int,
    )
        requires
            self.sound(board, cell, d),
            board.in_grid(cell),
            0 <= d < 4,
            self.closed@[cell],
            self.costs@[cell] is Some,
            steps == self.costs@[cell]->0,
            board.neighbor_seq(cell)[d] == Some(j as usize),
            board.in_grid(j),
            Solver::open_towards(board, cell, d),
            self.improves(j, steps + 1),
            self.noted(now, cell, steps, j),
        ensures
            now.sound(board, cell, d + 1),
    {
        let total = board.cells@.len();
        let s = self.start_slot();
        board.lemma_slot(self.start.0 as int, self.start.1 as int);
        Self::lemma_seen_more(board, cell, d);
        Solver::lemma_open_towards(board, cell, d);
        board.lemma_adjacent_offsets(cell, j);
        assert(board.linked(cell, j));
        assert(self.costs@[cell]->0 + 1 + count_down(self.found()) <= total);
        if self.costs@[j] is None {
            lemma_count_down_raise(self.found(), j);
            assert(now.found() =~= self.found().update(j, true));
            lemma_push_contains(self.open@, j as usize);
            assert(!self.open@.contains(j as usize)) by {
                if self.open@.contains(j as usize) {
                    let at = choose|at: int| 0 <= at < self.open@.len() && self.open@[at] == j;
                    assert(self.costs@[self.open@[at] as int] is Some);
                }
            }
        } else {
            assert(now.found() =~= self.found());
            assert(self.costs@[j]->0 + 1 + count_down(self.found()) <= total);
        }
        assert(!self.closed@[j]);
        assert(cell != j);
        assert(now.costs@[cell] == self.costs@[cell]);
        assert(j != s) by {
            if j == s {
                assert(self.costs@[s] == Some(0usize));
            }
        }
        assert forall|i: int| 0 <= i < total && i != s && now.costs@[i] is Some implies (
        #[trigger] now.parents@[i] matches Some(p) && board.linked(p as int, i)
            && now.closed@[p as int] && now.costs@[p as int] is Some && now.costs@[i]->0
            == now.costs@[p as int]->0 + 1) by {
            if i != j {
                assert(self.costs@[i] is Some);
                let p = self.parents@[i]->0;
                assert(self.parents@[i] matches Some(pp) && self.closed@[pp as int]);
                assert(p != j);
                assert(now.costs@[p as int] == self.costs@[p as int]);
            }
        }
        assert forall|k: int| 0 <= k < now.open@.len() implies 0 <= #[trigger] now.open@[k] < total
            && now.costs@[now.open@[k] as int] is Some && !now.closed@[now.open@[k] as int] by {
            if k < self.open@.len() {
                assert(now.open@[k] == self.open@[k]);
                assert(self.costs@[self.open@[k] as int] is Some);
            }
        }
        assert forall|i: int|
            0 <= i < total && now.costs@[i] is Some && !(
            #[trigger] now.closed@[i]) implies now.open@.contains(i as usize) by {
            if self.costs@[i] is Some {
                assert(!self.closed@[i]);
                assert(self.open@.contains(i as usize));
                let at = choose|at: int| 0 <= at < self.open@.len() && self.open@[at] == i;
                assert(now.open@[at] == i);
            } else {
                assert(now.open@[now.open@.len() - 1] == i);
            }
        }
        assert forall|i: int| 0 <= i < total && #[trigger] now.closed@[i] implies now.costs@[i] is Some by {
            assert(self.closed@[i]);
            assert(self.costs@[i] is Some);
        }
        assert forall|p: int, q: int|
            #[trigger] board.linked(p, q) && now.closed@[p] && p
                != cell implies now.costs@[q] is Some by {
            board.lemma_adjacent_offsets(p, q);
            assert(self.costs@[q] is Some);
        }
        assert forall|q: int| 0 <= cell < total && Self::seen_by(board, cell, d + 1, q) implies (
        #[trigger] now.costs@[q]) is Some by {
            if Self::seen_by(board, cell, d, q) {
                assert(self.costs@[q] is Some);
            }
        }
        assert forall|i: int| 0 <= i < total && (
        #[trigger] now.costs@[i]) is Some implies now.costs@[i]->0 + 1 + count_down(now.found())
            <= total by {
            if i != j {
                assert(self.costs@[i] is Some);
                assert(self.costs@[i]->0 + 1 + count_down(self.found()) <= total);
            }
        }
    }

    /// Looks through the open wall in direction `d` around the cell that is
    /// being searched.
    fn look(
        &mut self,
        board: &Board,
        cell: usize,
        steps: usize,
        d: usize,
        Ghost(before): Ghost<AStar>,
    )
        requires
            old(self).sound(board, cell as int, d as int),
            old(self).searching(board, &before, cell as int, steps as int, d as int),
            before.closed@[cell as int],
            before.costs@[cell as int] == Some(steps),
            before.costs@.len() == board.cells@.len(),
            board.in_grid(cell as int),
            d < 4,
        ensures
            final(self).sound(board, cell as int, d + 1),
            final(self).searching(board, &before, cell as int, steps as int, d + 1),
    {
        let ghost then = *self;
        let ghost c = cell as int;
        let neighbours = board.neighbors(cell as i32);
        proof {
            board.lemma_neighbor_seq(c);
            Self::lemma_seen_more(board, c, d as int);
            assert(!Self::seen_by(board, c, d as int, c)) by {
                if Self::seen_by(board, c, d as int, c) {
                    assert(board.linked(c, c));
                    board.lemma_adjacent_offsets(c, c);
                }
            }
            assert(self.costs@[c] == before.costs@[c]);
            assert(self.costs@[c]->0 + 1 + count_down(self.found()) <= board.cells@.len());
        }
        let mut noted: bool = false;
        match neighbours[d] {
            Some(j) => {
                let free: bool = (d == 0 && !board.cells[cell].walls.top) || (d == 1
                    && !board.cells[cell].walls.bottom) || (d == 2
                    && !board.cells[cell].walls.left) || (d == 3
                    && !board.cells[cell].walls.right);
                proof {
                    assert(board.adjacent(c, j as int));
                    assert(!Self::seen_by(board, c, d as int, j as int));
                    assert(self.costs@[j as int] == before.costs@[j as int]);
                    assert(self.parents@[j as int] == before.parents@[j as int]);
                }
                if free {
                    match self.costs[j] {
                        None => {
                            self.costs.set(j, Some(steps + 1));
                            self.parents.set(j, Some(cell));
                            self.open.push(j);
                            noted = true;
                        },
                        Some(known) => {
                            if !self.closed[j] && known > steps + 1 {
                                self.costs.set(j, Some(steps + 1));
                                self.parents.set(j, Some(cell));
                                noted = true;
                            }
                        },
                    }
                    proof {
                        if noted {
                            assert(then.noted(self, c, steps as int, j as int));
                            then.lemma_noted_sound(self, board, c, steps as int, d as int, j as int);
                        }
                    }
                }
            },
            None => {},
        }
        proof {
            Self::lemma_looked(&then, self, board, &before, c, steps as int, d as int, noted);
        }
    }

    /// After a look in direction `d`, the search stands as it should with
    /// one direction more looked at.
    #[verifier::rlimit(40)]
    pub proof fn lemma_looked(
        then: &AStar,
        now: &AStar,
        board: &Board,
        before: &AStar,
        cell: int,
        steps: int,
        d: int,
        noted: bool,
    )
        requires
            board.wf(),
            board.in_grid(cell),
            0 <= d < 4,
            0 <= steps,
            then.costs@.len() == board.cells@.len(),
            before.costs@.len() == board.cells@.len(),
            then.sound(board, cell, d),
            then.searching(board, before, cell, steps, d),
            noted ==> now.sound(board, cell, d + 1),
            match board.neighbor_seq(cell)[d] {
                Some(j) => if Solver::open_towards(board, cell, d) && then.improves(
                    j as int,
                    steps + 1,
                ) {
                    noted && then.noted(now, cell, steps, j as int)
                } else {
                    !noted && *now == *then
                },
                None => !noted && *now == *then,
            },
        ensures
            now.sound(board, cell, d + 1),
            now.searching(board, before, cell, steps, d + 1),
    {
        let total = board.cells@.len();
        board.lemma_neighbor_seq(cell);
        Self::lemma_seen_more(board, cell, d);
        let around = board.neighbor_seq(cell)[d];
        if around is Some {
            let j = around->0 as int;
            assert(around == Some(j as usize));
            assert(board.adjacent(cell, j));
            assert(!Self::seen_by(board, cell, d, j));
            assert(then.costs@[j] == before.costs@[j]);
            assert(then.parents@[j] == before.parents@[j]);
            assert(then.improves(j, steps + 1) == before.improves(j, steps + 1));
        }
        assert forall|i: int| 0 <= i < now.costs@.len() implies #[trigger] now.costs@[i] == (
        if Self::seen_by(board, cell, d + 1, i) && before.improves(i, steps + 1) {
            Some((steps + 1) as usize)
        } else {
            before.costs@[i]
        }) by {
            assert(then.costs@[i] == (if Self::seen_by(board, cell, d, i) && before.improves(
                i,
                steps + 1,
            ) {
                Some((steps + 1) as usize)
            } else {
                before.costs@[i]
            }));
        }
        assert forall|i: int| 0 <= i < now.parents@.len() implies #[trigger] now.parents@[i] == (
        if Self::seen_by(board, cell, d + 1, i) && before.improves(i, steps + 1) {
            Some(cell as usize)
        } else {
            before.parents@[i]
        }) by {
            assert(then.parents@[i] == (if Self::seen_by(board, cell, d, i) && before.improves(
                i,
                steps + 1,
            ) {
                Some(cell as usize)
            } else {
                before.parents@[i]
            }));
        }
        assert(now.open@ =~= before.open@ + before.fresh_seq(board, cell, d + 1));
        if !noted {
            assert forall|q: int| 0 <= cell < total && Self::seen_by(board, cell, d + 1, q) implies (
            #[trigger] now.costs@[q]) is Some by {
                if !Self::seen_by(board, cell, d, q) {
                    assert(!then.improves(q, steps + 1));
                }
            }
        }
    }

    /// What searching the open cell at `i` leaves behind: the cell is off
    /// the open list and searched; every cell behind one of its open walls,
    /// the way to which is news, hangs on it, one step further; and those
    /// not found before are on the open list, in the neighbour order. If
    /// the cell is the end, the end is reached and begins the path.
    pub open spec fn after_search(&self, board: &Board, i: int, then: &AStar) -> bool {
        let cell = self.open@[i] as int;
        let steps = self.costs@[cell]->0 as int;
        let e = slot_of(self.end, self.board_size as int);
        &&& then.start == self.start
        &&& then.end == self.end
        &&& then.board_size == self.board_size
        &&& then.closed@ == self.closed@.update(cell, true)
        &&& then.costs@.len() == self.costs@.len()
        &&& then.parents@.len() == self.parents@.len()
        &&& forall|j: int|
            0 <= j < self.costs@.len() ==> #[trigger] then.costs@[j] == (if board.linked(cell, j)
                && self.improves(j, steps + 1) {
                Some((steps + 1) as usize)
            } else {
                self.costs@[j]
            })
        &&& forall|j: int|
            0 <= j < self.parents@.len() ==> #[trigger] then.parents@[j] == (if board.linked(
                cell,
                j,
            ) && self.improves(j, steps + 1) {
                Some(cell as usize)
            } else {
                self.parents@[j]
            })
        &&& then.open@ == self.open@.remove(i) + self.fresh_seq(board, cell, 4)
        &&& then.reached_end == (cell == e)
        &&& then.path@ == (if cell == e {
            seq![cell as usize]
        } else {
            self.path@
        })
        &&& then.solved == (cell == e && cell == self.start_slot())
    }

    /// Searches the open cell at `i`.
    pub fn search(&mut self, board: &Board, i: usize)
        requires
            old(self).inv(board),
            !old(self).reached_end,
            i < old(self).open@.len(),
        ensures
            final(self).inv(board),
            old(self).after_search(board, i as int, final(self)),
    {
        let ghost total = board.cells@.len();
        let ghost s = self.start_slot();
        let ghost e = slot_of(self.end, self.board_size as int);
        let ghost listed = self.open@;
        let cell: usize = self.open.remove(i);
        assert(old(self).costs@[old(self).open@[i as int] as int] is Some);
        let steps: usize = self.costs[cell].unwrap();
        self.closed.set(cell, true);
        let ghost before = *self;
        proof {
            let c = cell as int;
            assert forall|k: int| 0 <= k < self.open@.len() implies 0 <= #[trigger] self.open@[k]
                < total && self.costs@[self.open@[k] as int] is Some
                && !self.closed@[self.open@[k] as int] by {
                let at = if k < i {
                    k
                } else {
                    k + 1
                };
                assert(self.open@[k] == listed[at]);
                assert(listed[at] != listed[i as int]);
            }
            assert forall|j: int|
                0 <= j < total && self.costs@[j] is Some && !(
                #[trigger] self.closed@[j]) implies self.open@.contains(j as usize) by {
                assert(!old(self).closed@[j]);
                assert(listed.contains(j as usize));
                let at = choose|at: int| 0 <= at < listed.len() && listed[at] == j;
                let k = if at < i {
                    at
                } else {
                    at - 1
                };
                assert(self.open@[k] == j);
            }
            assert forall|j: int| 0 <= j < total && #[trigger] self.closed@[j] implies self.costs@[j] is Some by {
                if j != c {
                    assert(old(self).closed@[j]);
                }
            }
            assert forall|j: int| 0 <= j < total && j != s && self.costs@[j] is Some implies (
            #[trigger] self.parents@[j] matches Some(p) && board.linked(p as int, j)
                && self.closed@[p as int] && self.costs@[p as int] is Some && self.costs@[j]->0
                == self.costs@[p as int]->0 + 1) by {
                assert(old(self).costs@[j] is Some);
                let p = old(self).parents@[j]->0;
                assert(old(self).closed@[p as int]);
            }
            assert forall|p: int, q: int|
                #[trigger] board.linked(p, q) && self.closed@[p] && p
                    != c implies self.costs@[q] is Some by {
                board.lemma_adjacent_offsets(p, q);
                assert(old(self).closed@[p]);
            }
            assert(self.found() =~= old(self).found());
            assert(self.open@ =~= before.open@ + before.fresh_seq(board, c, 0));
            assert(self.sound(board, c, 0));
            assert(self.searching(board, &before, c, steps as int, 0));
        }
        let mut d: usize = 0;
        while d < 4
            invariant
                d <= 4,
                board.in_grid(cell as int),
                before.closed@[cell as int],
                before.costs@[cell as int] == Some(steps),
                before.costs@.len() == board.cells@.len(),
                self.sound(board, cell as int, d as int),
                self.searching(board, &before, cell as int, steps as int, d as int),
            decreases 4 - d,
        {
            self.look(board, cell, steps, d, Ghost(before));
            d += 1;
        }
        proof {
            let c = cell as int;
            board.lemma_neighbor_seq(c);
            assert forall|j: int| Self::seen_by(board, c, 4, j) <==> board.linked(c, j) by {
                if board.linked(c, j) {
                    board.lemma_adjacent_offsets(c, j);
                    Solver::lemma_open_towards(board, c, 0);
                    let k = choose|k: int|
                        0 <= k < 4 && #[trigger] board.neighbor_seq(c)[k] == Some(j as usize)
                            && Solver::open_towards(board, c, k);
                    assert(Self::seen_by(board, c, 4, j));
                }
                if Self::seen_by(board, c, 4, j) {
                    let k = choose|k: int|
                        0 <= k < 4 && #[trigger] board.neighbor_seq(c)[k] == Some(j as usize)
                            && Solver::open_towards(board, c, k);
                    Solver::lemma_open_towards(board, c, k);
                }
            }
            assert forall|j: int| 0 <= j < total implies before.improves(j, steps + 1) == old(
                self,
            ).improves(j, steps + 1) || !board.linked(c, j) by {
                if board.linked(c, j) {
                    board.lemma_adjacent_offsets(c, j);
                }
            }
            assert forall|p: int, q: int|
                #[trigger] board.linked(p, q) && self.closed@[p] && p
                    != -1 implies self.costs@[q] is Some by {
                if p == c {
                    assert(Self::seen_by(board, c, 4, q));
                }
            }
            Self::lemma_fresh_same(old(self), &before, board, c, 4);
            assert(self.sound(board, -1, 0));
        }
        if board.cells[cell].x as usize == self.end.0 && board.cells[cell].y as usize == self.end.1 {
            proof {
                board.lemma_slot(self.end.0 as int, self.end.1 as int);
                board.lemma_same_place(cell as int, e);
            }
            self.reached_end = true;
            let mut path: Vec<usize> = Vec::new();
            path.push(cell);
            self.path = path;
            proof {
                assert(self.path@ =~= seq![cell]);
                board.lemma_slot(self.start.0 as int, self.start.1 as int);
            }
            if board.cells[cell].x as usize == self.start.0 && board.cells[cell].y as usize
                == self.start.1 {
                proof {
                    board.lemma_same_place(cell as int, s);
                }
                self.solved = true;
            }
        } else {
            proof {
                if 0 <= e < total {
                    board.lemma_slot(self.end.0 as int, self.end.1 as int);
                }
            }
        }
    }

    /// Solvers that agree on what has been found list the same fresh
    /// cells.
    proof fn lemma_fresh_same(one: &AStar, other: &AStar, board: &Board, cell: int, d: int)
        requires
            one.costs@ == other.costs@,
        ensures
            one.fresh_seq(board, cell, d) == other.fresh_seq(board, cell, d),
        decreases d,
    {
        if d > 0 {
            Self::lemma_fresh_same(one, other, board, cell, d - 1);
        }
    }

    /// What a step back leaves behind: the path is longer by the cell
    /// through which its last cell was found; the maze is solved if that
    /// cell is the start. Nothing else has changed.
    pub open spec fn stepped_back(&self, then: &AStar) -> bool {
        let next = self.parents@[self.path@.last() as int]->0;
        &&& then.path@ == self.path@.push(next)
        &&& then.solved == (next == self.start_slot())
        &&& then.start == self.start
        &&& then.end == self.end
        &&& then.board_size == self.board_size
        &&& then.open@ == self.open@
        &&& then.costs@ == self.costs@
        &&& then.parents@ == self.parents@
        &&& then.closed@ == self.closed@
        &&& then.reached_end == self.reached_end
    }

    /// Takes the path one cell back towards the start.
    pub fn trace(&mut self, board: &Board)
        requires
            old(self).inv(board),
            old(self).reached_end,
            !old(self).solved,
        ensures
            final(self).inv(board),
            old(self).stepped_back(final(self)),
    {
        let ghost trail = self.path@;
        let last: usize = self.path[self.path.len() - 1];
        assert(0 <= trail[trail.len() - 1] < self.closed@.len());
        assert(self.costs@[last as int] is Some);
        proof {
            lemma_index_bounds(self.board_size as int, self.start.0 as int, self.start.1 as int);
        }
        match self.parents[last] {
            Some(next) => {
                self.path.push(next);
                if next == self.start.0 * self.board_size + self.start.1 {
                    self.solved = true;
                }
                proof {
                    assert forall|k: int| 0 <= k < self.path@.len() implies 0
                        <= #[trigger] self.path@[k] < self.closed@.len()
                        && self.closed@[self.path@[k] as int] by {
                        if k < trail.len() {
                            assert(0 <= trail[k] < self.closed@.len());
                        }
                    }
                    assert forall|k: int|
                        0 <= k < self.path@.len() - 1 implies self.parents@[
                    #[trigger] self.path@[k] as int] == Some(self.path@[k + 1]) by {
                        if k < trail.len() - 1 {
                            assert(self.parents@[trail[k] as int] == Some(trail[k + 1]));
                        }
                    }
                    assert(self.path@[0] == trail[0]);
                }
            },
            None => {
                proof {
                    lemma_index_bounds(
                        self.board_size as int,
                        self.start.0 as int,
                        self.start.1 as int,
                    );
                }
            },
        }
    }

    /// With the open list empty, the search has been wherever a walk from
    /// the start can get, and the end is not among those places.
    pub proof fn lemma_searched_out(&self, board: &Board)
        requires
            self.inv(board),
            !self.reached_end,
            self.open@.len() == 0,
        ensures
            !board.connected(self.source(), self.target()),
    {
        let s = self.source();
        let e = self.target();
        if board.connected(s, e) {
            board.lemma_connected_in_grid(s, e);
            let flags = self.found();
            assert forall|p: int, q: int| #[trigger]
                board.linked(p, q) && flags[p] implies flags[q] by {
                board.lemma_adjacent_offsets(p, q);
                if !self.closed@[p] {
                    assert(self.open@.contains(p as usize));
                }
            }
            board.lemma_closed_under_walks(flags, s, e);
            assert(self.costs@[e] is Some);
            if !self.closed@[e] {
                assert(self.open@.contains(e as usize));
            }
        }
    }

    /// The path follows passages.
    pub proof fn lemma_path_linked(&self, board: &Board)
        requires
            self.inv(board),
        ensures
            forall|k: int|
                0 <= k < self.path@.len() - 1 ==> board.linked(
                    #[trigger] self.path@[k] as int,
                    self.path@[k + 1] as int,
                ),
    {
        let s = self.start_slot();
        assert forall|k: int| 0 <= k < self.path@.len() - 1 implies board.linked(
            #[trigger] self.path@[k] as int,
            self.path@[k + 1] as int,
        ) by {
            let j = self.path@[k] as int;
            assert(0 <= self.path@[k] < self.closed@.len() && self.closed@[j]);
            assert(self.parents@[j] == Some(self.path@[k + 1]));
            assert(self.costs@[j] is Some);
            assert(j != s);
            board.lemma_linked_sym(self.path@[k + 1] as int, j);
        }
    }
}

impl Pathfinder for AStar {
    open spec fn inv(&self, board: &Board) -> bool {
        self.sound(board, -1, 0) && self.path_ok()
    }

    open spec fn solved(&self) -> bool {
        self.solved
    }

    open spec fn source(&self) -> int {
        self.start_slot()
    }

    open spec fn target(&self) -> int {
        slot_of(self.end, self.board_size as int)
    }

    open spec fn route(&self) -> Seq<usize> {
        self.path@
    }

    open spec fn advanced(&self, board: &Board, then: &Self) -> bool {
        if self.reached_end {
            self.stepped_back(then)
        } else {
            exists|i: int| self.is_best(board, i) && #[trigger] self.after_search(board, i, then)
        }
    }

    fn advance(&mut self, board: &Board) -> (outcome: Result<State, MazeError>)
        ensures
            !old(self).solved ==> (outcome is Err <==> !old(self).reached_end
                && old(self).open@.len() == 0),
    {
        if self.solved {
            proof {
                self.lemma_path_linked(board);
            }
            return Ok(State::Done);
        }
        if self.reached_end {
            self.trace(board);
        } else if self.open.len() == 0 {
            proof {
                self.lemma_searched_out(board);
            }
            return Err(MazeError::Unreachable);
        } else {
            let i: usize = self.best(board);
            self.search(board, i);
            proof {
                assert(old(self).after_search(board, i as int, self));
            }
        }
        proof {
            self.lemma_path_linked(board);
        }
        if self.solved {
            Ok(State::Done)
        } else {
            Ok(State::Solve)
        }
    }

    fn get_path(&self) -> (path: &Vec<usize>) {
        &self.path
    }

    fn is_solved(&self) -> (solved: bool) {
        self.solved
    }

    proof fn lemma_route(&self, board: &Board) {
        self.lemma_path_linked(board);
    }
}

} // verus!
