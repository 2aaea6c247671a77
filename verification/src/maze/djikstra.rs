//! The solver: a frontier that spreads from the start one layer per step and
//! gives every cell its distance, and a walk back from the end along falling
//! distances.

use crate::maze::graph::{count_down, lemma_count_down_raise};
use crate::maze::{Board, MazeError, State};
use vstd::prelude::*;

verus! {

/// The distance label of a cell: its coordinates, and one more than the
/// number of steps of a shortest walk to it from the start.
#[derive(Clone, Copy, Debug)]
pub struct Weight {
    pub x: usize,
    pub y: usize,
    pub weight: usize,
}

impl Default for Weight {
    fn default() -> (weight: Self)
        ensures
            weight == (Weight { x: 0, y: 0, weight: 0 }),
    {
        Weight { x: 0, y: 0, weight: 0 }
    }
}

pub struct Solver {
    pub start: (usize, usize),
    pub end: (usize, usize),
    pub board_size: usize,
    pub positions: Vec<usize>,
    pub layer: usize,
    pub path: Vec<usize>,
    pub weights: Vec<Option<Weight>>,
    pub reached_end: bool,
    pub solved: bool,
}

impl Solver {
    /// The slot of the start cell.
    pub open spec fn start_slot(&self) -> int {
        self.start.0 * self.board_size + self.start.1
    }

    /// The slot of the end cell.
    pub open spec fn end_slot(&self) -> int {
        self.end.0 * self.board_size + self.end.1
    }

    /// Whether the end lies on the grid.
    pub open spec fn end_on_grid(&self) -> bool {
        self.end.0 < self.board_size && self.end.1 < self.board_size
    }

    /// Which cells have a weight.
    pub open spec fn weighted(&self) -> Seq<bool> {
        Seq::new(self.weights@.len(), |i: int| self.weights@[i] is Some)
    }

    /// The weight of cell `i` is right: it names the cell and is one more
    /// than its distance from the start; and a cell without a weight is
    /// farther from the start than the frontier has come.
    pub open spec fn slot_ok(&self, board: &Board, i: int) -> bool {
        match self.weights@[i] {
            Some(w) => {
                &&& w.x == board.cells@[i].x
                &&& w.y == board.cells@[i].y
                &&& 1 <= w.weight <= self.layer
                &&& board.is_distance(self.start_slot(), i, (w.weight - 1) as nat)
            },
            None => forall|steps: nat|
                steps < self.layer ==> !#[trigger] board.reach_in(self.start_slot(), i, steps),
        }
    }

    /// The frontier holds, once each, exactly the cells of the outermost
    /// layer.
    pub open spec fn frontier_ok(&self) -> bool {
        &&& self.positions@.no_duplicates()
        &&& forall|k: int|
            0 <= k < self.positions@.len() ==> 0 <= #[trigger] self.positions@[k]
                < self.weights@.len() && (self.weights@[self.positions@[k] as int] matches Some(w)
                && w.weight == self.layer)
        &&& forall|i: int|
            0 <= i < self.weights@.len() && (#[trigger] self.weights@[i] matches Some(w)
                && w.weight == self.layer) ==> self.positions@.contains(i as usize)
    }

    /// The path leads from the end towards the start through passages, and
    /// the weight falls by one with every step.
    pub open spec fn path_ok(&self, board: &Board) -> bool {
        &&& self.reached_end == (self.end_on_grid() && self.weights@[self.end_slot()] is Some)
        &&& self.reached_end == (self.path@.len() > 0)
        &&& self.path@.len() > 0 ==> self.path@[0] == self.end_slot()
        &&& forall|k: int|
            0 <= k < self.path@.len() ==> 0 <= #[trigger] self.path@[k] < self.weights@.len() && (
            self.weights@[self.path@[k] as int] matches Some(w) && w.weight + k
                == self.weights@[self.path@[0] as int]->0.weight)
        &&& forall|k: int|
            0 <= k < self.path@.len() - 1 ==> board.linked(
                #[trigger] self.path@[k] as int,
                self.path@[k + 1] as int,
            )
        &&& self.solved == (self.path@.len() > 0 && self.path@.last() == self.start_slot())
    }

    /// The solver fits the board: every weight is the distance from the
    /// start plus one, the frontier is the outermost layer, and the path
    /// descends towards the start.
    pub open spec fn wf(&self, board: &Board) -> bool {
        &&& board.wf()
        &&& self.board_size == board.board_size
        &&& self.start.0 < self.board_size
        &&& self.start.1 < self.board_size
        &&& self.weights@.len() == board.cells@.len()
        &&& 1 <= self.layer
        &&& self.layer + count_down(self.weighted()) <= self.weights@.len() + (
        if self.positions@.len() == 0 {
            1int
        } else {
            0int
        })
        &&& forall|i: int| 0 <= i < self.weights@.len() ==> #[trigger] self.slot_ok(board, i)
        &&& self.frontier_ok()
        &&& self.path_ok(board)
    }

    /// The search is at its beginning: only the start has a weight, which is
    /// one, and the frontier holds the start alone. Where the start is the
    /// end, the path is that one cell and the maze is solved; else there is
    /// no path yet.
    pub open spec fn is_new(&self) -> bool {
        &&& self.layer == 1
        &&& self.positions@ == seq![self.start_slot() as usize]
        &&& self.weights@ == Seq::new(
            (self.board_size * self.board_size) as nat,
            |i: int|
                if i == self.start_slot() {
                    Some(Weight { x: self.start.0, y: self.start.1, weight: 1 })
                } else {
                    None
                },
        )
        &&& self.reached_end == (self.start == self.end)
        &&& self.solved == (self.start == self.end)
        &&& self.path@ == (if self.start == self.end {
            seq![self.start_slot() as usize]
        } else {
            Seq::empty()
        })
    }

    /// A solver for a board of side `board_size` that searches from `start`
    /// for `end`, both given as column and row, at the beginning of its
    /// search.
    pub fn new(start: (usize, usize), end: (usize, usize), board_size: usize) -> (solver: Self)
        requires
            1 <= board_size,
            board_size * board_size <= i32::MAX,
            start.0 < board_size,
            start.1 < board_size,
        ensures
            solver.start == start,
            solver.end == end,
            solver.board_size == board_size,
            solver.is_new(),
    {
        proof {
            crate::maze::lemma_index_bounds(board_size as int, start.0 as int, start.1 as int);
        }
        let slot: usize = start.0 * board_size + start.1;
        let mut weights: Vec<Option<Weight>> = vec![None; board_size * board_size];
        weights.set(slot, Some(Weight { x: start.0, y: start.1, weight: 1 }));
        let mut positions: Vec<usize> = Vec::new();
        positions.push(slot);
        let mut path: Vec<usize> = Vec::new();
        let same: bool = start.0 == end.0 && start.1 == end.1;
        if same {
            path.push(slot);
        }
        let solver = Self {
            start,
            end,
            board_size,
            positions,
            layer: 1,
            path,
            weights,
            reached_end: same,
            solved: same,
        };
        proof {
            assert(solver.positions@ =~= seq![solver.start_slot() as usize]);
            assert(solver.weights@ =~= Seq::new(
                (board_size * board_size) as nat,
                |i: int|
                    if i == solver.start_slot() {
                        Some(Weight { x: start.0, y: start.1, weight: 1 })
                    } else {
                        None
                    },
            ));
            if same {
                assert(solver.path@ =~= seq![solver.start_slot() as usize]);
            }
        }
        solver
    }

    /// A new solver fits every well-formed board of its size.
    pub proof fn lemma_ready(&self, board: &Board)
        requires
            board.wf(),
            board.board_size == self.board_size,
            self.start.0 < self.board_size,
            self.start.1 < self.board_size,
            self.layer == 1,
            self.positions@ == seq![self.start_slot() as usize],
            self.weights@ == Seq::new(
                (self.board_size * self.board_size) as nat,
                |i: int|
                    if i == self.start_slot() {
                        Some(Weight { x: self.start.0, y: self.start.1, weight: 1 })
                    } else {
                        None
                    },
            ),
            self.reached_end == (self.start == self.end),
            self.solved == (self.start == self.end),
            self.path@ == (if self.start == self.end {
                seq![self.start_slot() as usize]
            } else {
                Seq::empty()
            }),
        ensures
            self.wf(board),
    {
        let n = self.board_size as int;
        let s = self.start_slot();
        board.lemma_slot(self.start.0 as int, self.start.1 as int);
        assert(s == board.slot(self.start.0 as int, self.start.1 as int));
        crate::maze::graph::lemma_count_down_single(self.weights@.len(), s);
        assert(self.weighted() =~= Seq::new(self.weights@.len(), |i: int| i == s));
        assert forall|i: int| 0 <= i < self.weights@.len() implies #[trigger] self.slot_ok(
            board,
            i,
        ) by {
            board.lemma_reach_zero(s, i);
            if i == s {
                assert(board.is_distance(s, i, 0));
            } else {
                assert forall|steps: nat| steps < self.layer implies !#[trigger] board.reach_in(
                    s,
                    i,
                    steps,
                ) by {
                    assert(steps == 0);
                }
            }
        }
        assert(self.positions@[0] == s);
        if self.end_on_grid() {
            board.lemma_slot(self.end.0 as int, self.end.1 as int);
            assert(self.end_slot() == board.slot(self.end.0 as int, self.end.1 as int));
            if self.end_slot() == s {
                board.lemma_same_place(s, self.end_slot());
            }
        }
        if self.start == self.end {
            assert(self.path@[0] == s);
        }
    }

    /// The neighbours of a cell in the order top, bottom, left, right;
    /// `None` at the edge of the grid.
    pub fn neighbours(&self, board: &Board, index: usize) -> (around: Vec<Option<usize>>)
        requires
            board.shaped(),
            board.board_size == self.board_size,
            board.in_grid(index as int),
        ensures
            around@ == board.neighbor_seq(index as int),
    {
        proof {
            board.lemma_neighbors(index as int);
        }
        let mut res = Vec::<Option<usize>>::new();
        if board.cells[index].y > 0 {
            res.push(Some(index - 1));
        } else {
            res.push(None);
        }
        if board.cells[index].y < self.board_size as i32 - 1 {
            res.push(Some(index + 1));
        } else {
            res.push(None);
        }
        if board.cells[index].x > 0 {
            res.push(Some(index - self.board_size));
        } else {
            res.push(None);
        }
        if board.cells[index].x < self.board_size as i32 - 1 {
            res.push(Some(index + self.board_size));
        } else {
            res.push(None);
        }
        proof {
            assert(res@ =~= board.neighbor_seq(index as int));
        }
        res
    }

    /// Whether the wall of `cell` in the direction with the number `d` of
    /// the neighbour order is down.
    pub open spec fn open_towards(board: &Board, cell: int, d: int) -> bool {
        let walls = board.cells@[cell].walls;
        (d == 0 && !walls.top) || (d == 1 && !walls.bottom) || (d == 2 && !walls.left) || (d == 3
            && !walls.right)
    }

    /// The neighbour of `cell` in direction `d` is linked to it exactly if
    /// it exists and the wall towards it is down.
    pub proof fn lemma_open_towards(board: &Board, cell: int, d: int)
        requires
            board.wf(),
            board.in_grid(cell),
            0 <= d < 4,
        ensures
            board.neighbor_seq(cell)[d] matches Some(j) ==> (board.linked(cell, j as int)
                <==> Self::open_towards(board, cell, d)),
            forall|j: int|
                board.linked(cell, j) ==> exists|k: int|
                    0 <= k < 4 && #[trigger] board.neighbor_seq(cell)[k] == Some(j as usize)
                        && Self::open_towards(board, cell, k),
    {
        board.lemma_neighbors(cell);
        board.lemma_neighbor_seq(cell);
        assert forall|j: int| board.linked(cell, j) implies exists|k: int|
            0 <= k < 4 && #[trigger] board.neighbor_seq(cell)[k] == Some(j as usize)
                && Self::open_towards(board, cell, k) by {
            board.lemma_adjacent_offsets(cell, j);
            let k: int = match board.cells@[cell].direction_of(board.cells@[j]) {
                crate::maze::Direction::North => 0,
                crate::maze::Direction::South => 1,
                crate::maze::Direction::West => 2,
                crate::maze::Direction::East => 3,
            };
            assert(board.neighbor_seq(cell)[k] == Some(j as usize));
        }
    }

    /// What a step of the search leaves behind: every cell one step beyond
    /// the frontier has its weight and is on the new frontier, and if the
    /// end is among them the path begins with it.
    pub open spec fn spread(&self, board: &Board, then: &Solver) -> bool {
        let s = self.start_slot();
        &&& then.start == self.start
        &&& then.end == self.end
        &&& then.board_size == self.board_size
        &&& then.layer == self.layer + 1
        &&& then.weights@.len() == self.weights@.len()
        &&& forall|i: int|
            0 <= i < self.weights@.len() ==> #[trigger] then.weights@[i] == (
            if self.weights@[i] is None && board.is_distance(s, i, self.layer as nat) {
                Some(
                    Weight {
                        x: board.cells@[i].x as usize,
                        y: board.cells@[i].y as usize,
                        weight: (self.layer + 1) as usize,
                    },
                )
            } else {
                self.weights@[i]
            })
        &&& then.path@ == (if !self.reached_end && then.reached_end {
            seq![self.end_slot() as usize]
        } else {
            self.path@
        })
        &&& then.solved == self.solved
    }

    /// What holds while a step of the search is under way, with `next` the
    /// new frontier so far: the cells on it, and no others, have got the
    /// weight of the next layer, and they are at that distance.
    pub open spec fn spreading(&self, board: &Board, before: &Solver, next: Seq<usize>) -> bool {
        let s = before.start_slot();
        &&& before.wf(board)
        &&& !before.solved
        &&& before.positions@.len() > 0
        &&& self.positions@ == before.positions@
        &&& self.layer == before.layer
        &&& self.start == before.start
        &&& self.end == before.end
        &&& self.board_size == before.board_size
        &&& self.solved == before.solved
        &&& self.weights@.len() == before.weights@.len()
        &&& self.layer + 1 + count_down(self.weighted()) <= self.weights@.len() + (if next.len()
            == 0 {
            1int
        } else {
            0int
        })
        &&& forall|i: int|
            0 <= i < self.weights@.len() ==> #[trigger] self.weights@[i] == (
            if before.weights@[i] is None && next.contains(i as usize) {
                Some(
                    Weight {
                        x: board.cells@[i].x as usize,
                        y: board.cells@[i].y as usize,
                        weight: (before.layer + 1) as usize,
                    },
                )
            } else {
                before.weights@[i]
            })
        &&& next.no_duplicates()
        &&& forall|k: int|
            0 <= k < next.len() ==> 0 <= #[trigger] next[k] < self.weights@.len()
                && before.weights@[next[k] as int] is None && board.is_distance(
                s,
                next[k] as int,
                before.layer as nat,
            )
        &&& self.reached_end == (self.end_on_grid() && self.weights@[self.end_slot()] is Some)
        &&& self.path@ == (if !before.reached_end && self.reached_end {
            seq![self.end_slot() as usize]
        } else {
            before.path@
        })
    }

    /// Whether every passage from one of the first `count` frontier cells
    /// leads to a cell with a weight.
    pub open spec fn dealt_with(&self, board: &Board, count: int) -> bool {
        forall|k: int, j: int|
            0 <= k < count && #[trigger] board.linked(self.positions@[k] as int, j)
                ==> self.weights@[j] is Some
    }

    /// Gives the cell `j`, which lies behind an open wall of the frontier
    /// cell `index` and has no weight yet, its weight, and puts it on the
    /// new frontier. If it is the end, the path begins with it.
    fn label(
        &mut self,
        board: &Board,
        index: usize,
        j: usize,
        next_cells: &mut Vec<usize>,
        Ghost(before): Ghost<Solver>,
    )
        requires
            old(self).spreading(board, &before, old(next_cells)@),
            old(self).positions@.contains(index),
            board.linked(index as int, j as int),
            old(self).weights@[j as int] is None,
        ensures
            final(self).spreading(board, &before, final(next_cells)@),
            final(next_cells)@ == old(next_cells)@.push(j),
            final(self).weights@[j as int] is Some,
            forall|i: int|
                0 <= i < old(self).weights@.len() && old(self).weights@[i] is Some
                    ==> #[trigger] final(self).weights@[i] is Some,
    {
        let ghost s = before.start_slot();
        let ghost flags = self.weighted();
        let ghost listed = next_cells@;
        proof {
            let k = choose|k: int| 0 <= k < self.positions@.len() && self.positions@[k] == index;
            assert(0 <= before.positions@[k] < before.weights@.len());
            assert(before.slot_ok(board, index as int));
            assert(before.weights@[j as int] is None);
            assert(before.slot_ok(board, j as int));
            board.lemma_reach_extend(s, index as int, j as int, (self.layer - 1) as nat);
            assert(board.is_distance(s, j as int, self.layer as nat));
            lemma_count_down_raise(flags, j as int);
            crate::maze::graph::lemma_count_down_bounds(flags);
            crate::maze::generator::lemma_push_contains(listed, j);
            assert(!listed.contains(j));
        }
        self.weights.set(
            j,
            Some(
                Weight {
                    x: board.cells[j].x as usize,
                    y: board.cells[j].y as usize,
                    weight: self.layer + 1,
                },
            ),
        );
        next_cells.push(j);
        proof {
            assert(self.weighted() =~= flags.update(j as int, true));
            if self.end_on_grid() {
                board.lemma_slot(self.end.0 as int, self.end.1 as int);
            }
        }
        if board.cells[j].x as usize == self.end.0 && board.cells[j].y as usize == self.end.1 {
            proof {
                board.lemma_same_place(j as int, self.end_slot());
            }
            self.reached_end = true;
            self.path.push(j);
            proof {
                assert(before.path@.len() == 0);
                assert(self.path@ =~= seq![self.end_slot() as usize]);
            }
        }
    }

    /// Deals with one frontier cell: every cell behind one of its open
    /// walls that has no weight yet gets one.
    fn expand(
        &mut self,
        board: &Board,
        at: usize,
        next_cells: &mut Vec<usize>,
        Ghost(before): Ghost<Solver>,
    )
        requires
            old(self).spreading(board, &before, old(next_cells)@),
            at < old(self).positions@.len(),
            old(self).dealt_with(board, at as int),
        ensures
            final(self).spreading(board, &before, final(next_cells)@),
            final(self).dealt_with(board, at + 1),
    {
        let index: usize = self.positions[at];
        proof {
            assert(0 <= before.positions@[at as int] < before.weights@.len());
            assert(self.positions@.contains(index));
        }
        let neighbours = self.neighbours(board, index);
        let mut d: usize = 0;
        while d < 4
            invariant
                d <= 4,
                at < self.positions@.len(),
                index == self.positions@[at as int],
                self.positions@.contains(index),
                self.positions@ == old(self).positions@,
                board.in_grid(index as int),
                neighbours@ == board.neighbor_seq(index as int),
                self.spreading(board, &before, next_cells@),
                self.dealt_with(board, at as int),
                forall|k: int|
                    0 <= k < d ==> (#[trigger] neighbours@[k] matches Some(j)
                        ==> !Self::open_towards(board, index as int, k)
                        || self.weights@[j as int] is Some),
            decreases 4 - d,
        {
            proof {
                board.lemma_neighbor_seq(index as int);
                Self::lemma_open_towards(board, index as int, d as int);
            }
            match neighbours[d] {
                Some(j) => {
                    let free: bool = (d == 0 && !board.cells[index].walls.top) || (d == 1
                        && !board.cells[index].walls.bottom) || (d == 2
                        && !board.cells[index].walls.left) || (d == 3
                        && !board.cells[index].walls.right);
                    assert(board.adjacent(index as int, j as int));
                    if self.weights[j].is_none() && free {
                        let ghost labelled = self.weights@;
                        self.label(board, index, j, next_cells, Ghost(before));
                        proof {
                            assert forall|k: int, i: int|
                                0 <= k < at && #[trigger] board.linked(
                                    self.positions@[k] as int,
                                    i,
                                ) implies self.weights@[i] is Some by {
                                assert(labelled[i] is Some);
                            }
                            assert forall|k: int| 0 <= k < d implies (
                            #[trigger] neighbours@[k] matches Some(i) ==> !Self::open_towards(
                                board,
                                index as int,
                                k,
                            ) || self.weights@[i as int] is Some) by {
                                match neighbours@[k] {
                                    Some(i) => {
                                        assert(board.adjacent(index as int, i as int));
                                        if labelled[i as int] is Some {
                                            assert(self.weights@[i as int] is Some);
                                        }
                                    },
                                    None => {},
                                }
                            }
                        }
                    }
                },
                None => {},
            }
            d += 1;
        }
        proof {
            assert forall|k: int, j: int|
                0 <= k < at + 1 && #[trigger] board.linked(
                    self.positions@[k] as int,
                    j,
                ) implies self.weights@[j] is Some by {
                if k == at {
                    Self::lemma_open_towards(board, index as int, 0);
                    let dir = choose|dir: int|
                        0 <= dir < 4 && #[trigger] board.neighbor_seq(index as int)[dir] == Some(
                            j as usize,
                        ) && Self::open_towards(board, index as int, dir);
                    assert(neighbours@[dir] matches Some(jj) ==> !Self::open_towards(
                        board,
                        index as int,
                        dir,
                    ) || self.weights@[jj as int] is Some);
                }
            }
        }
    }

    /// Spreads the frontier by one layer: every cell behind an open wall of
    /// a frontier cell that has no weight yet gets the weight of the
    /// frontier plus one and joins the new frontier. If the end is among
    /// them, it is reached and begins the path. With the maze solved or the
    /// frontier empty, nothing changes.
    pub fn step(&mut self, board: &Board)
        requires
            old(self).wf(board),
        ensures
            final(self).wf(board),
            if old(self).solved || old(self).positions@.len() == 0 {
                *final(self) == *old(self)
            } else {
                old(self).spread(board, final(self))
            },
    {
        if self.solved || self.positions.len() == 0 {
            return ;
        }
        let ghost before = *self;
        let mut next_cells: Vec<usize> = vec![];
        let mut at: usize = 0;
        proof {
            crate::maze::graph::lemma_count_down_bounds(self.weighted());
        }
        while at < self.positions.len()
            invariant
                at <= self.positions@.len(),
                self.spreading(board, &before, next_cells@),
                self.dealt_with(board, at as int),
            decreases self.positions@.len() - at,
        {
            self.expand(board, at, &mut next_cells, Ghost(before));
            at += 1;
        }
        proof {
            crate::maze::graph::lemma_count_down_bounds(self.weighted());
        }
        self.positions = next_cells;
        self.layer = self.layer + 1;
        proof {
            self.lemma_spread(board, &before);
        }
    }

    /// After every frontier cell has been dealt with, the weights are right
    /// one layer further out.
    proof fn lemma_spread(&self, board: &Board, before: &Solver)
        requires
            before.wf(board),
            !before.solved,
            before.positions@.len() > 0,
            self.layer == before.layer + 1,
            self.start == before.start,
            self.end == before.end,
            self.board_size == before.board_size,
            self.solved == before.solved,
            self.weights@.len() == board.cells@.len(),
            self.layer + count_down(self.weighted()) <= self.weights@.len() + (
            if self.positions@.len() == 0 {
                1int
            } else {
                0int
            }),
            forall|i: int|
                0 <= i < self.weights@.len() ==> #[trigger] self.weights@[i] == (
                if before.weights@[i] is None && self.positions@.contains(i as usize) {
                    Some(
                        Weight {
                            x: board.cells@[i].x as usize,
                            y: board.cells@[i].y as usize,
                            weight: (before.layer + 1) as usize,
                        },
                    )
                } else {
                    before.weights@[i]
                }),
            self.positions@.no_duplicates(),
            forall|k: int|
                0 <= k < self.positions@.len() ==> 0 <= #[trigger] self.positions@[k]
                    < self.weights@.len() && before.weights@[self.positions@[k] as int] is None
                    && board.is_distance(
                    before.start_slot(),
                    self.positions@[k] as int,
                    before.layer as nat,
                ),
            forall|k: int, j: int|
                0 <= k < before.positions@.len() && #[trigger] board.linked(
                    before.positions@[k] as int,
                    j,
                ) ==> self.weights@[j] is Some,
            self.reached_end == (self.end_on_grid() && self.weights@[self.end_slot()] is Some),
            self.path@ == (if !before.reached_end && self.reached_end {
                seq![self.end_slot() as usize]
            } else {
                before.path@
            }),
        ensures
            self.wf(board),
            before.spread(board, self),
    {
        let s = before.start_slot();
        let layer = before.layer as nat;
        // A cell at the distance of the new layer is on the new frontier.
        assert forall|i: int|
            0 <= i < self.weights@.len() && board.reach_in(s, i, layer)
                && before.weights@[i] is None implies self.positions@.contains(i as usize) by {
            assert(before.slot_ok(board, i));
            let p = board.lemma_reach_prefix(s, i, layer);
            board.lemma_adjacent_offsets(p, i);
            assert(before.slot_ok(board, p));
            match before.weights@[p] {
                Some(w) => {
                    if w.weight == before.layer {
                        assert(before.positions@.contains(p as usize));
                        let k = choose|k: int|
                            0 <= k < before.positions@.len() && before.positions@[k] == p as usize;
                        assert(board.linked(before.positions@[k] as int, i));
                        assert(self.weights@[i] is Some);
                    } else {
                        board.lemma_reach_extend(s, p, i, (w.weight - 1) as nat);
                        assert(board.reach_in(s, i, w.weight as nat));
                    }
                },
                None => {
                    assert(!board.reach_in(s, p, (layer - 1) as nat));
                },
            }
        }
        assert forall|i: int| 0 <= i < self.weights@.len() implies #[trigger] self.slot_ok(
            board,
            i,
        ) by {
            assert(before.slot_ok(board, i));
            if before.weights@[i] is None && self.positions@.contains(i as usize) {
                let k = choose|k: int|
                    0 <= k < self.positions@.len() && self.positions@[k] == i as usize;
                assert(board.is_distance(s, self.positions@[k] as int, layer));
            } else if self.weights@[i] is None {
                assert forall|steps: nat| steps < self.layer implies !#[trigger] board.reach_in(
                    s,
                    i,
                    steps,
                ) by {
                    if steps == layer && board.reach_in(s, i, layer) {
                        assert(self.positions@.contains(i as usize));
                    }
                }
            }
        }
        assert forall|i: int|
            0 <= i < self.weights@.len() && (#[trigger] self.weights@[i] matches Some(w) && w.weight
                == self.layer) implies self.positions@.contains(i as usize) by {
            assert(before.slot_ok(board, i));
        }
        assert forall|k: int| 0 <= k < self.positions@.len() implies 0 <= #[trigger] self.positions@[k]
            < self.weights@.len() && (self.weights@[self.positions@[k] as int] matches Some(w)
            && w.weight == self.layer) by {
            assert(self.positions@.contains(self.positions@[k]));
        }
        assert forall|i: int| 0 <= i < self.weights@.len() implies #[trigger] self.weights@[i] == (
        if before.weights@[i] is None && board.is_distance(s, i, layer) {
            Some(
                Weight {
                    x: board.cells@[i].x as usize,
                    y: board.cells@[i].y as usize,
                    weight: (before.layer + 1) as usize,
                },
            )
        } else {
            before.weights@[i]
        }) by {
            assert(before.slot_ok(board, i));
            if before.weights@[i] is None && self.positions@.contains(i as usize) {
                let k = choose|k: int|
                    0 <= k < self.positions@.len() && self.positions@[k] == i as usize;
                assert(board.is_distance(s, self.positions@[k] as int, layer));
            }
        }
        // The path is as it was, or has just begun.
        if !before.reached_end && self.reached_end {
            board.lemma_slot(self.end.0 as int, self.end.1 as int);
            assert(self.path@[0] == self.end_slot());
            assert(self.path@.last() == self.end_slot());
            let e = self.end_slot();
            assert(before.weights@[e] is None);
            if e == s {
                assert(before.slot_ok(board, s));
                board.lemma_reach_zero(s, s);
                board.lemma_slot(before.start.0 as int, before.start.1 as int);
            }
        } else {
            assert forall|k: int| 0 <= k < self.path@.len() implies 0 <= #[trigger] self.path@[k]
                < self.weights@.len() && (self.weights@[self.path@[k] as int] matches Some(w)
                && w.weight + k == self.weights@[self.path@[0] as int]->0.weight) by {
                assert(before.path@[k] == self.path@[k]);
                assert(before.weights@[before.path@[0] as int] is Some);
            }
        }
    }

    /// Whether the neighbour of the last cell of the path in direction `d`
    /// may be the next cell of the path: the wall towards it is down, it
    /// has a weight, and it is not on the path yet.
    pub open spec fn eligible(&self, board: &Board, d: int) -> bool {
        let index = self.path@.last() as int;
        board.neighbor_seq(index)[d] matches Some(j) && Self::open_towards(board, index, d)
            && self.weights@[j as int] is Some && !self.path@.contains(j)
    }

    /// The weight of the neighbour of the last cell of the path in
    /// direction `d`.
    pub open spec fn weight_towards(&self, board: &Board, d: int) -> int {
        self.weights@[board.neighbor_seq(self.path@.last() as int)[d]->0 as int]->0.weight as int
    }

    /// Whether direction `d` is the one that the path takes next: the
    /// eligible neighbour of least weight, and of those the first in the
    /// neighbour order.
    pub open spec fn is_way_back(&self, board: &Board, d: int) -> bool {
        &&& 0 <= d < 4
        &&& self.eligible(board, d)
        &&& forall|k: int|
            0 <= k < 4 && #[trigger] self.eligible(board, k) ==> self.weight_towards(board, d)
                <= self.weight_towards(board, k) && (k < d ==> self.weight_towards(board, d)
                < self.weight_towards(board, k))
    }

    /// The solver has the size of the board, which is a grid, and its path
    /// stays on it. Nothing is asked of the weights or of how the path came
    /// about.
    pub open spec fn fits(&self, board: &Board) -> bool {
        &&& board.shaped()
        &&& self.board_size == board.board_size
        &&& self.weights@.len() == board.cells@.len()
        &&& forall|k: int|
            0 <= k < self.path@.len() ==> #[trigger] self.path@[k] < self.weights@.len()
    }

    /// Whether the path can be taken further: it has a last cell, and a
    /// neighbour of that cell is eligible.
    pub open spec fn has_way_back(&self, board: &Board) -> bool {
        self.path@.len() > 0 && exists|d: int| 0 <= d < 4 && #[trigger] self.eligible(board, d)
    }

    /// What taking the path one cell further leaves behind: the path is
    /// longer by the cell in the direction of the way back, and the maze is
    /// solved if the weight of that cell names the start. Nothing else has
    /// changed.
    pub open spec fn walked_back(&self, board: &Board, then: &Solver) -> bool {
        exists|d: int|
            #![trigger self.is_way_back(board, d)]
            {
                let next = board.neighbor_seq(self.path@.last() as int)[d]->0;
                let there = self.weights@[next as int]->0;
                &&& self.is_way_back(board, d)
                &&& then.path@ == self.path@.push(next)
                &&& then.solved == (self.solved || (there.x == self.start.0 && there.y
                    == self.start.1))
                &&& then.weights@ == self.weights@
                &&& then.positions@ == self.positions@
                &&& then.layer == self.layer
                &&& then.reached_end == self.reached_end
                &&& then.start == self.start
                &&& then.end == self.end
                &&& then.board_size == self.board_size
            }
    }

    /// Takes the path one cell further: to the neighbour of its last cell
    /// with the least weight among those behind an open wall that have a
    /// weight and are not on the path, the first of them in the neighbour
    /// order. With it the start may be reached, and the maze is solved.
    /// Where there is no such neighbour, or no path to extend, the call
    /// reports `Unreachable` and leaves the solver as it is; a solved maze
    /// stays as it is too. For a solver whose weights are the distances from
    /// the start and whose search has reached the end, there is such a
    /// neighbour until the maze is solved, and it is exactly one step nearer
    /// to the start.
    pub fn path(&mut self, board: &Board) -> (outcome: Result<(), MazeError>)
        requires
            old(self).fits(board),
        ensures
            final(self).fits(board),
            old(self).wf(board) ==> final(self).wf(board),
            old(self).solved ==> outcome is Ok && *final(self) == *old(self),
            !old(self).solved && !old(self).has_way_back(board) ==> outcome == Err::<
                (),
                MazeError,
            >(MazeError::Unreachable) && *final(self) == *old(self),
            !old(self).solved && old(self).has_way_back(board) ==> outcome is Ok
                && old(self).walked_back(board, final(self)),
            old(self).wf(board) && !old(self).solved ==> old(self).has_way_back(board)
                == old(self).reached_end,
            old(self).wf(board) && !old(self).solved && old(self).reached_end
                ==> old(self).stepped_back(board, final(self)),
    {
        if self.solved {
            return Ok(());
        }
        if self.path.len() == 0 {
            return Err(MazeError::Unreachable);
        }
        let index: usize = self.path[self.path.len() - 1];
        let ghost s = self.start_slot();
        let neighbours = self.neighbours(board, index);
        let mut best: Option<(usize, Weight)> = None;
        let ghost mut best_d: int = -1;
        let mut d: usize = 0;
        while d < 4
            invariant
                d <= 4,
                self.fits(board),
                *self == *old(self),
                self.path@.len() > 0,
                index == self.path@.last(),
                neighbours@ == board.neighbor_seq(index as int),
                match best {
                    Some((j, w)) => {
                        &&& j < self.weights@.len()
                        &&& 0 <= best_d < d
                        &&& self.eligible(board, best_d)
                        &&& neighbours@[best_d] == Some(j)
                        &&& self.weights@[j as int] == Some(w)
                        &&& forall|k: int|
                            0 <= k < d && #[trigger] self.eligible(board, k) ==> w.weight
                                <= self.weight_towards(board, k) && (k < best_d ==> w.weight
                                < self.weight_towards(board, k))
                    },
                    None => forall|k: int| 0 <= k < d ==> !#[trigger] self.eligible(board, k),
                },
            decreases 4 - d,
        {
            proof {
                board.lemma_neighbor_seq(index as int);
            }
            match neighbours[d] {
                Some(j) => {
                    let free: bool = (d == 0 && !board.cells[index].walls.top) || (d == 1
                        && !board.cells[index].walls.bottom) || (d == 2
                        && !board.cells[index].walls.left) || (d == 3
                        && !board.cells[index].walls.right);
                    assert(board.adjacent(index as int, j as int));
                    if free && !self.on_path(j) {
                        match self.weights[j] {
                            Some(w) => {
                                let better: bool = match best {
                                    Some((_, least)) => w.weight < least.weight,
                                    None => true,
                                };
                                if better {
                                    best = Some((j, w));
                                    proof {
                                        best_d = d as int;
                                    }
                                }
                            },
                            None => {},
                        }
                    }
                },
                None => {},
            }
            d += 1;
        }
        proof {
            if self.wf(board) {
                self.lemma_way_back(board);
            }
        }
        match best {
            Some((next, there)) => {
                let ghost before = *self;
                self.path.push(next);
                if there.x == self.start.0 && there.y == self.start.1 {
                    self.solved = true;
                }
                proof {
                    assert(before.is_way_back(board, best_d));
                    assert(before.walked_back(board, self));
                    assert forall|k: int| 0 <= k < self.path@.len() implies #[trigger] self.path@[k]
                        < self.weights@.len() by {
                        if k < before.path@.len() {
                            assert(before.path@[k] == self.path@[k]);
                        }
                    }
                    if before.wf(board) {
                        before.lemma_stepped_back(board, self, best_d);
                    }
                }
                Ok(())
            },
            None => Err(MazeError::Unreachable),
        }
    }

    /// A step along the way back keeps a sound solver sound: the cell that
    /// the path has taken on is linked to the one before it and one step
    /// nearer to the start.
    proof fn lemma_stepped_back(&self, board: &Board, then: &Solver, d: int)
        requires
            self.wf(board),
            !self.solved,
            self.path@.len() > 0,
            self.is_way_back(board, d),
            then.path@ == self.path@.push(board.neighbor_seq(self.path@.last() as int)[d]->0),
            then.solved == ({
                let there = self.weights@[board.neighbor_seq(
                    self.path@.last() as int,
                )[d]->0 as int]->0;
                there.x == self.start.0 && there.y == self.start.1
            }),
            then.weights@ == self.weights@,
            then.positions@ == self.positions@,
            then.layer == self.layer,
            then.reached_end == self.reached_end,
            then.start == self.start,
            then.end == self.end,
            then.board_size == self.board_size,
        ensures
            then.wf(board),
            self.stepped_back(board, then),
    {
        let s = self.start_slot();
        let index = self.path@.last() as int;
        let next = board.neighbor_seq(index)[d]->0;
        let there = self.weights@[next as int]->0;
        self.lemma_way_back(board);
        board.lemma_neighbor_seq(index);
        assert(then.slot_ok(board, next as int)) by {
            assert(self.slot_ok(board, next as int));
        }
        assert(self.slot_ok(board, next as int));
        Self::lemma_open_towards(board, index, d);
        board.lemma_slot(self.start.0 as int, self.start.1 as int);
        if there.x == self.start.0 && there.y == self.start.1 {
            board.lemma_same_place(next as int, s);
        }
        assert forall|k: int| 0 <= k < then.path@.len() implies 0 <= #[trigger] then.path@[k]
            < then.weights@.len() && (then.weights@[then.path@[k] as int] matches Some(w)
            && w.weight + k == then.weights@[then.path@[0] as int]->0.weight) by {
            if k < self.path@.len() {
                assert(self.path@[k] == then.path@[k]);
            }
        }
        assert forall|k: int| 0 <= k < then.path@.len() - 1 implies board.linked(
            #[trigger] then.path@[k] as int,
            then.path@[k + 1] as int,
        ) by {
            if k < self.path@.len() - 1 {
                assert(board.linked(self.path@[k] as int, self.path@[k + 1] as int));
            }
        }
        assert(then.weighted() =~= self.weighted());
        assert forall|i: int| 0 <= i < then.weights@.len() implies #[trigger] then.slot_ok(
            board,
            i,
        ) by {
            assert(self.slot_ok(board, i));
        }
        assert(self.stepped_back(board, then));
    }

    /// What a step back leaves behind: the path is longer by the cell in
    /// the direction of the way back, which is linked to the cell before it
    /// and one step nearer to the start; the maze is solved if that cell is
    /// the start. Nothing else has changed.
    pub open spec fn stepped_back(&self, board: &Board, then: &Solver) -> bool {
        exists|d: int|
            #![trigger self.is_way_back(board, d)]
            {
                let next = board.neighbor_seq(self.path@.last() as int)[d]->0;
                &&& self.is_way_back(board, d)
                &&& then.path@ == self.path@.push(next)
                &&& board.linked(self.path@.last() as int, next as int)
                &&& self.weight_towards(board, d) + 1
                    == self.weights@[self.path@.last() as int]->0.weight
                &&& then.solved == (next == self.start_slot())
                &&& then.weights@ == self.weights@
                &&& then.positions@ == self.positions@
                &&& then.layer == self.layer
                &&& then.reached_end == self.reached_end
                &&& then.start == self.start
                &&& then.end == self.end
                &&& then.board_size == self.board_size
            }
    }

    /// As long as the maze is not solved, the path has a way back, and it
    /// leads to a cell that is exactly one step nearer to the start.
    pub proof fn lemma_way_back(&self, board: &Board)
        requires
            self.wf(board),
            self.path@.len() > 0,
            !self.solved,
        ensures
            exists|d: int| 0 <= d < 4 && #[trigger] self.eligible(board, d),
            forall|d: int|
                0 <= d < 4 && #[trigger] self.eligible(board, d) ==> self.weight_towards(board, d)
                    + 1 >= self.weights@[self.path@.last() as int]->0.weight,
            forall|d: int|
                #[trigger] self.is_way_back(board, d) ==> self.weight_towards(board, d) + 1
                    == self.weights@[self.path@.last() as int]->0.weight,
    {
        let s = self.start_slot();
        let last = self.path@.len() - 1;
        let index = self.path@[last] as int;
        assert(self.slot_ok(board, index));
        let here = self.weights@[index]->0;
        let steps = (here.weight - 1) as nat;
        board.lemma_reach_zero(s, index);
        board.lemma_slot(self.start.0 as int, self.start.1 as int);
        assert(steps > 0);
        // The cell before this one on a shortest walk is a way back.
        let p = board.lemma_distance_prefix(s, index, steps);
        board.lemma_linked_sym(p, index);
        assert(self.slot_ok(board, p));
        assert(self.weights@[p] is Some) by {
            if self.weights@[p] is None {
                assert(!board.reach_in(s, p, (steps - 1) as nat));
            }
        }
        board.lemma_distance_unique(s, p, (steps - 1) as nat, (self.weights@[p]->0.weight - 1) as nat);
        assert(!self.path@.contains(p as usize)) by {
            if self.path@.contains(p as usize) {
                let k = choose|k: int| 0 <= k < self.path@.len() && self.path@[k] == p as usize;
                assert(self.weights@[self.path@[k] as int]->0.weight + k
                    == self.weights@[self.path@[0] as int]->0.weight);
                assert(self.weights@[self.path@[last] as int]->0.weight + last
                    == self.weights@[self.path@[0] as int]->0.weight);
            }
        }
        Self::lemma_open_towards(board, index, 0);
        let dp = choose|dp: int|
            0 <= dp < 4 && #[trigger] board.neighbor_seq(index)[dp] == Some(p as usize)
                && Self::open_towards(board, index, dp);
        assert(self.eligible(board, dp));
        assert(self.weight_towards(board, dp) + 1 == here.weight);
        // No neighbour is nearer to the start than that.
        assert forall|d: int| 0 <= d < 4 && #[trigger] self.eligible(board, d) implies self.weight_towards(
            board,
            d,
        ) + 1 >= here.weight by {
            let j = board.neighbor_seq(index)[d]->0 as int;
            board.lemma_neighbor_seq(index);
            assert(board.adjacent(index, j));
            Self::lemma_open_towards(board, index, d);
            board.lemma_linked_sym(index, j);
            assert(self.slot_ok(board, j));
            let wj = self.weights@[j]->0.weight;
            board.lemma_reach_extend(s, j, index, (wj - 1) as nat);
            if wj + 1 < here.weight {
                assert(!board.reach_in(s, index, wj as nat));
            }
        }
        assert forall|d: int| #[trigger] self.is_way_back(board, d) implies self.weight_towards(
            board,
            d,
        ) + 1 == here.weight by {
            assert(self.eligible(board, dp));
        }
    }

    /// Whether `cell` is on the path.
    pub fn on_path(&self, cell: usize) -> (found: bool)
        ensures
            found == self.path@.contains(cell),
    {
        let mut k: usize = 0;
        while k < self.path.len()
            invariant
                k <= self.path@.len(),
                forall|j: int| 0 <= j < k ==> self.path@[j] != cell,
            decreases self.path@.len() - k,
        {
            if self.path[k] == cell {
                return true;
            }
            k += 1;
        }
        false
    }

    /// One step of the solver, whichever is due: the search spreads until
    /// the end is reached, then the path walks back until the start is
    /// reached. It reports `Unreachable` when the frontier is empty and the
    /// end has not been reached, which means that no walk leads from the
    /// start to the end. A solved maze stays as it is.
    pub fn advance(&mut self, board: &Board) -> (outcome: Result<State, MazeError>)
        requires
            old(self).wf(board),
        ensures
            final(self).wf(board),
            old(self).solved ==> outcome == Ok::<State, MazeError>(State::Done) && *final(self)
                == *old(self),
            !old(self).solved && old(self).reached_end ==> old(self).stepped_back(
                board,
                final(self),
            ) && outcome == Ok::<State, MazeError>(
                if final(self).solved {
                    State::Done
                } else {
                    State::Solve
                },
            ),
            !old(self).reached_end && old(self).positions@.len() > 0 ==> old(self).spread(
                board,
                final(self),
            ) && outcome == Ok::<State, MazeError>(State::Solve),
            !old(self).reached_end && old(self).positions@.len() == 0 ==> outcome == Err::<
                State,
                MazeError,
            >(MazeError::Unreachable) && *final(self) == *old(self) && !(old(self).end_on_grid()
                && board.connected(old(self).start_slot(), old(self).end_slot())),
    {
        if self.solved {
            return Ok(State::Done);
        }
        if self.reached_end {
            match self.path(board) {
                Ok(()) => {},
                Err(e) => {
                    return Err(e);
                },
            }
            if self.solved {
                Ok(State::Done)
            } else {
                Ok(State::Solve)
            }
        } else if self.positions.len() == 0 {
            proof {
                self.lemma_search_over(board);
                if self.end_on_grid() {
                    board.lemma_slot(self.end.0 as int, self.end.1 as int);
                    assert(self.weights@[self.end_slot()] is None);
                    assert(!board.connected(self.start_slot(), self.end_slot()));
                }
            }
            Err(MazeError::Unreachable)
        } else {
            self.step(board);
            Ok(State::Solve)
        }
    }

    /// With the frontier empty, every cell without a weight is out of
    /// reach.
    pub proof fn lemma_search_over(&self, board: &Board)
        requires
            self.wf(board),
            self.positions@.len() == 0,
        ensures
            forall|i: int|
                0 <= i < self.weights@.len() && self.weights@[i] is None ==> !#[trigger] board.connected(
                    self.start_slot(),
                    i,
                ),
    {
        let s = self.start_slot();
        assert forall|i: int, steps: nat|
            0 <= i < self.weights@.len() && self.weights@[i] is None implies !#[trigger] board.reach_in(
            s,
            i,
            steps,
        ) by {
            self.lemma_out_of_reach(board, i, steps);
        }
        assert forall|i: int|
            0 <= i < self.weights@.len() && self.weights@[i] is None implies !#[trigger] board.connected(
            s,
            i,
        ) by {
            board.lemma_reach_connected(s, i);
        }
    }

    /// With the frontier empty, no walk of any length leads to a cell
    /// without a weight.
    proof fn lemma_out_of_reach(&self, board: &Board, i: int, steps: nat)
        requires
            self.wf(board),
            self.positions@.len() == 0,
            0 <= i < self.weights@.len(),
            self.weights@[i] is None,
        ensures
            !board.reach_in(self.start_slot(), i, steps),
        decreases steps,
    {
        let s = self.start_slot();
        assert(self.slot_ok(board, i));
        if board.reach_in(s, i, steps) {
            assert(steps >= self.layer);
            let p = board.lemma_reach_prefix(s, i, steps);
            board.lemma_adjacent_offsets(p, i);
            assert(self.slot_ok(board, p));
            match self.weights@[p] {
                Some(w) => {
                    assert(!self.positions@.contains(p as usize));
                    board.lemma_reach_extend(s, p, i, (w.weight - 1) as nat);
                    assert(w.weight < self.layer);
                },
                None => {
                    self.lemma_out_of_reach(board, p, (steps - 1) as nat);
                },
            }
        }
    }

    /// The weight of every cell that has one is one more than the length
    /// of a shortest walk to it from the start; and once the end is
    /// reached, the path leads from it towards the start through open
    /// walls, its weights falling by exactly one from each cell to the
    /// next, and ends on the start when the maze is solved.
    pub proof fn lemma_shortest_path(&self, board: &Board)
        requires
            self.wf(board),
        ensures
            forall|i: int|
                0 <= i < self.weights@.len() ==> (#[trigger] self.weights@[i] matches Some(w)
                    ==> w.weight >= 1 && board.is_distance(
                    self.start_slot(),
                    i,
                    (w.weight - 1) as nat,
                )),
            self.reached_end ==> self.path@.len() > 0 && self.path@[0] == self.end_slot(),
            forall|k: int|
                0 <= k < self.path@.len() - 1 ==> board.linked(
                    #[trigger] self.path@[k] as int,
                    self.path@[k + 1] as int,
                ) && self.weights@[self.path@[k] as int]->0.weight
                    == self.weights@[self.path@[k + 1] as int]->0.weight + 1,
            self.solved ==> self.path@.last() == self.start_slot() && self.path@.len()
                == self.weights@[self.end_slot()]->0.weight,
    {
        assert forall|i: int| 0 <= i < self.weights@.len() implies (
        #[trigger] self.weights@[i] matches Some(w) ==> w.weight >= 1 && board.is_distance(
            self.start_slot(),
            i,
            (w.weight - 1) as nat,
        )) by {
            assert(self.slot_ok(board, i));
        }
        assert forall|k: int| 0 <= k < self.path@.len() - 1 implies board.linked(
            #[trigger] self.path@[k] as int,
            self.path@[k + 1] as int,
        ) && self.weights@[self.path@[k] as int]->0.weight
            == self.weights@[self.path@[k + 1] as int]->0.weight + 1 by {
            assert(0 <= self.path@[k] < self.weights@.len());
            assert(0 <= self.path@[k + 1] < self.weights@.len());
        }
        if self.solved {
            let last = self.path@.len() - 1;
            let s = self.start_slot();
            assert(0 <= self.path@[last] < self.weights@.len());
            assert(self.slot_ok(board, s));
            board.lemma_reach_zero(s, s);
            board.lemma_slot(self.start.0 as int, self.start.1 as int);
            board.lemma_distance_unique(s, s, 0, (self.weights@[s]->0.weight - 1) as nat);
        }
    }
}

} // verus!
