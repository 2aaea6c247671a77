//! Randomised Kruskal: take the walls in a random order and open each one
//! that separates two cells which no walk joins yet.

use crate::maze::dice::Dice;
use crate::maze::generator::{lemma_drop_last_contains, lemma_push_contains};
use crate::maze::graph::{merged_labels, own_labels};
use crate::maze::partition::Partition;
use crate::maze::{lemma_index_bounds, Board, Generator, State};
use vstd::prelude::*;

verus! {

/// The side of a cell on which a candidate wall stands.
#[derive(Debug, Clone, Copy, PartialEq, Eq, Structural)]
pub enum Side {
    North,
    West,
}

/// A wall between the cell at `(x, y)` and its neighbour to the north or to
/// the west.
#[derive(Debug, Clone, Copy, PartialEq, Eq, Structural)]
pub struct Edge {
    pub x: i32,
    pub y: i32,
    pub direction: Side,
}

impl Edge {
    /// Whether the edge names a wall inside a grid of side `n`.
    pub open spec fn fits(self, n: int) -> bool {
        &&& 0 <= self.x < n
        &&& 0 <= self.y < n
        &&& match self.direction {
            Side::North => self.y > 0,
            Side::West => self.x > 0,
        }
    }

    /// The slot of the cell that the edge is named after.
    pub open spec fn cell(self, n: int) -> int {
        self.x * n + self.y
    }

    /// The slot of the cell on the other side.
    pub open spec fn neighbor(self, n: int) -> int {
        match self.direction {
            Side::North => self.x * n + self.y - 1,
            Side::West => (self.x - 1) * n + self.y,
        }
    }
}

pub struct Kruskal {
    pub edges: Vec<Edge>,
    pub merged: Partition,
    pub done: bool,
}

impl Kruskal {
    /// The inner walls of the first `k` cells in the order of the scan, row
    /// by row and in each row from the left: for each cell first the wall to
    /// the north and then the one to the west, where there is one.
    pub open spec fn listing(n: int, k: int) -> Seq<Edge>
        decreases k,
    {
        if k <= 0 {
            Seq::empty()
        } else {
            let x = ((k - 1) % n) as i32;
            let y = ((k - 1) / n) as i32;
            let rest = Self::listing(n, k - 1);
            let north = if y > 0 {
                rest.push(Edge { x, y, direction: Side::North })
            } else {
                rest
            };
            if x > 0 {
                north.push(Edge { x, y, direction: Side::West })
            } else {
                north
            }
        }
    }

    /// Every inner wall of the grid, once: row by row, in each row from the
    /// left, for each cell first the wall to the north and then the one to
    /// the west.
    pub fn all_edges(board: &Board) -> (edges: Vec<Edge>)
        requires
            1 <= board.board_size,
        ensures
            edges@.no_duplicates(),
            forall|e: Edge| #[trigger] edges@.contains(e) <==> e.fits(board.board_size as int),
            edges@ == Self::listing(
                board.board_size as int,
                board.board_size as int * board.board_size as int,
            ),
    {
        let n: i32 = board.board_size;
        let mut edges: Vec<Edge> = Vec::new();
        let mut y: i32 = 0;
        while y < n
            invariant
                0 <= y <= n,
                edges@.no_duplicates(),
                forall|e: Edge| #[trigger] edges@.contains(e) <==> e.fits(n as int) && e.y < y,
                edges@ == Self::listing(n as int, y as int * n as int),
            decreases n - y,
        {
            let mut x: i32 = 0;
            while x < n
                invariant
                    0 <= y < n,
                    0 <= x <= n,
                    edges@.no_duplicates(),
                    forall|e: Edge| #[trigger]
                        edges@.contains(e) <==> e.fits(n as int) && (e.y < y || (e.y == y && e.x
                            < x)),
                    edges@ == Self::listing(n as int, y as int * n as int + x as int),
                decreases n - x,
            {
                proof {
                    vstd::arithmetic::div_mod::lemma_fundamental_div_mod_converse(
                        y as int * n as int + x as int,
                        n as int,
                        y as int,
                        x as int,
                    );
                }
                if y > 0 {
                    proof {
                        lemma_push_contains(edges@, Edge { x, y, direction: Side::North });
                    }
                    edges.push(Edge { x, y, direction: Side::North });
                }
                if x > 0 {
                    proof {
                        lemma_push_contains(edges@, Edge { x, y, direction: Side::West });
                    }
                    edges.push(Edge { x, y, direction: Side::West });
                }
                x += 1;
            }
            proof {
                assert(y as int * n as int + n as int == (y + 1) as int * n as int)
                    by (nonlinear_arith);
            }
            y += 1;
        }
        edges
    }

    /// Whether `edges` are the inner walls of a grid of side `n` in the
    /// order in which dice in `state` leave them.
    pub open spec fn dealt(state: Seq<u8>, n: int, edges: Seq<Edge>) -> bool {
        let listed = Self::listing(n, n * n);
        &&& edges.len() == listed.len()
        &&& forall|i: int|
            0 <= i < edges.len() ==> {
                let from = #[trigger] Dice::order_of(state, listed.len())[i];
                0 <= from < listed.len() && edges[i] == listed[from]
            }
    }

    /// Whether `other` stands where this generator stands.
    pub open spec fn alike(&self, other: &Kruskal) -> bool {
        &&& other.edges@ == self.edges@
        &&& other.merged.labels() == self.merged.labels()
        &&& other.done == self.done
    }

    /// Dice in one state deal the walls in one order: two generators made
    /// for boards of one size with dice in the same state start out alike.
    pub proof fn lemma_same_deal(
        &self,
        other: &Kruskal,
        state: Seq<u8>,
        board: &Board,
        maze: &Board,
    )
        requires
            board.same_maze(maze),
            self.begins(board, self.edges@),
            other.begins(maze, other.edges@),
            Self::dealt(state, board.board_size as int, self.edges@),
            Self::dealt(state, maze.board_size as int, other.edges@),
        ensures
            self.alike(other),
    {
        let n = board.board_size as int;
        let listed = Self::listing(n, n * n);
        assert forall|i: int| 0 <= i < self.edges@.len() implies self.edges@[i]
            == other.edges@[i] by {
            let from = Dice::order_of(state, listed.len())[i];
            assert(self.edges@[i] == listed[from]);
            assert(other.edges@[i] == listed[from]);
        }
        assert(self.edges@ =~= other.edges@);
    }

    /// Two generators that stand alike on the same maze take the same
    /// step: they stand alike afterwards, on the same maze.
    pub proof fn lemma_same_step(
        &self,
        board: &Board,
        then: &Kruskal,
        after: &Board,
        other: &Kruskal,
        maze: &Board,
        again: &Kruskal,
        anew: &Board,
    )
        requires
            self.alike(other),
            board.same_maze(maze),
            self.stepped(board, then, after),
            other.stepped(maze, again, anew),
        ensures
            then.alike(again),
            after.same_maze(anew),
    {
    }

    /// The candidate walls cover the grid: each one not yet taken from the
    /// list separates two cells that a walk already joins.
    pub open spec fn covers(&self, board: &Board) -> bool {
        forall|e: Edge| #[trigger]
            e.fits(board.board_size as int) ==> self.edges@.contains(e) || self.merged.labels()[e.cell(
                board.board_size as int,
            )] == self.merged.labels()[e.neighbor(board.board_size as int)]
    }

    /// How a generator starts out: with the given candidate walls, and every
    /// cell in a class of its own.
    pub open spec fn begins(&self, board: &Board, edges: Seq<Edge>) -> bool {
        &&& self.edges@ == edges
        &&& self.merged.labels() == own_labels(board.cells@.len())
        &&& !self.done
    }

    /// A generator for `board` that takes the walls in an order drawn from
    /// the thread's source of randomness.
    pub fn new(board: &Board) -> (generator: Self)
        requires
            board.wf(),
            board.walled(),
        ensures
            generator.inv(board),
            generator.edges@.no_duplicates(),
            forall|e: Edge| #[trigger]
                generator.edges@.contains(e) <==> e.fits(board.board_size as int),
            generator.begins(board, generator.edges@),
    {
        let mut dice = Dice::fresh();
        Self::with_dice(board, &mut dice)
    }

    /// A generator for `board` that takes the walls in an order drawn from
    /// `dice`.
    pub fn with_dice(board: &Board, dice: &mut Dice) -> (generator: Self)
        requires
            board.wf(),
            board.walled(),
        ensures
            generator.inv(board),
            generator.edges@.no_duplicates(),
            forall|e: Edge| #[trigger]
                generator.edges@.contains(e) <==> e.fits(board.board_size as int),
            generator.begins(board, generator.edges@),
            Self::dealt(old(dice).state(), board.board_size as int, generator.edges@),
            final(dice).state() == Dice::after_shuffle(
                old(dice).state(),
                Self::listing(
                    board.board_size as int,
                    board.board_size as int * board.board_size as int,
                ).len(),
            ),
    {
        let mut edges = Self::all_edges(board);
        let ghost listed = edges@;
        dice.shuffle(&mut edges);
        proof {
            broadcast use vstd::seq_lib::to_multiset_contains;

            assert forall|e: Edge| #[trigger] edges@.contains(e) <==> e.fits(
                board.board_size as int,
            ) by {
                assert(listed.contains(e) <==> listed.to_multiset().count(e) > 0);
                assert(edges@.contains(e) <==> edges@.to_multiset().count(e) > 0);
            }
            listed.lemma_multiset_has_no_duplicates();
            edges@.lemma_multiset_has_no_duplicates_conv();
        }
        Self::with_order(board, edges)
    }

    /// A generator for `board` that takes the walls in the order of `edges`,
    /// last first. The list must hold every inner wall of the grid and
    /// nothing else.
    pub fn with_order(board: &Board, edges: Vec<Edge>) -> (generator: Self)
        requires
            board.wf(),
            board.walled(),
            forall|e: Edge| #[trigger] edges@.contains(e) <==> e.fits(board.board_size as int),
        ensures
            generator.inv(board),
            generator.begins(board, edges@),
    {
        proof {
            board.lemma_walled_forest();
            assert forall|k: int| 0 <= k < edges@.len() implies (#[trigger] edges@[k]).fits(
                board.board_size as int,
            ) by {
                assert(edges@.contains(edges@[k]));
            }
        }
        Self { edges, merged: Partition::new(board.cells.len()), done: false }
    }

    /// What one step does: it takes the last wall off the list and opens it
    /// if its two cells are in different classes, which then become one.
    /// With the list empty it reports the maze as complete.
    pub open spec fn stepped(&self, board: &Board, then: &Kruskal, after: &Board) -> bool {
        let n = board.board_size as int;
        if self.done {
            *then == *self && *after == *board
        } else if self.edges@.len() == 0 {
            &&& then.done
            &&& then.edges@ == self.edges@
            &&& then.merged.labels() == self.merged.labels()
            &&& board.same_grid(after)
            &&& after.path@ == board.path@
            &&& after.finish
        } else {
            let e = self.edges@.last();
            let labels = self.merged.labels();
            &&& !then.done
            &&& then.edges@ == self.edges@.drop_last()
            &&& after.path@ == board.path@
            &&& after.finish == board.finish
            &&& if labels[e.cell(n)] != labels[e.neighbor(n)] {
                &&& board.carved_into(e.cell(n), e.neighbor(n), after)
                &&& then.merged.labels() == merged_labels(
                    labels,
                    labels[e.neighbor(n)],
                    labels[e.cell(n)],
                )
            } else {
                &&& board.same_grid(after)
                &&& then.merged.labels() == labels
            }
        }
    }

    /// A step draws nothing: two steps from one state leave the same
    /// walls to take, the same classes and the same maze behind. All that
    /// chance decides is the order of the walls at the start.
    pub proof fn lemma_repeatable(
        &self,
        board: &Board,
        then: &Kruskal,
        after: &Board,
        again: &Kruskal,
        anew: &Board,
    )
        requires
            self.stepped(board, then, after),
            self.stepped(board, again, anew),
        ensures
            then.edges@ == again.edges@,
            then.merged.labels() == again.merged.labels(),
            then.done == again.done,
            after.same_maze(anew),
    {
    }

    /// Whether all cells are in one class.
    pub fn all_joined(&self) -> (joined: bool)
        requires
            self.merged.wf(),
        ensures
            joined == (forall|i: int, j: int|
                0 <= i < self.merged.len() && 0 <= j < self.merged.len()
                    ==> self.merged.labels()[i] == self.merged.labels()[j]),
    {
        let total: usize = self.merged.count();
        let mut i: usize = 1;
        while i < total
            invariant
                1 <= i,
                total == self.merged.len(),
                self.merged.wf(),
                forall|k: int|
                    0 <= k < i && k < total ==> #[trigger] self.merged.labels()[k]
                        == self.merged.labels()[0],
            decreases total - i,
        {
            if !self.merged.same(0, i) {
                return false;
            }
            i += 1;
        }
        true
    }

    /// Once every candidate wall has been taken off the list, the maze is
    /// perfect.
    pub proof fn lemma_exhausted(&self, board: &Board)
        requires
            self.inv(board),
            self.edges@.len() == 0,
        ensures
            board.is_perfect(),
            forall|i: int|
                0 <= i < self.merged.len() ==> #[trigger] self.merged.labels()[i]
                    == self.merged.labels()[0],
    {
        let n = board.board_size as int;
        let labels = self.merged.labels();
        assert(board.cells@.len() >= 1) by (nonlinear_arith)
            requires
                board.cells@.len() == board.board_size * board.board_size,
                1 <= board.board_size,
        ;
        let flags = Seq::new(labels.len(), |i: int| labels[i] == labels[0]);
        assert forall|a: int, b: int| #[trigger] board.adjacent(a, b) && flags[a] implies flags[b] by {
            board.lemma_adjacent_offsets(a, b);
            let ca = board.cells@[a];
            let cb = board.cells@[b];
            lemma_index_bounds(n, ca.x as int, ca.y as int);
            lemma_index_bounds(n, cb.x as int, cb.y as int);
            let e = if cb.y < ca.y {
                Edge { x: ca.x, y: ca.y, direction: Side::North }
            } else if cb.y > ca.y {
                Edge { x: cb.x, y: cb.y, direction: Side::North }
            } else if cb.x < ca.x {
                Edge { x: ca.x, y: ca.y, direction: Side::West }
            } else {
                Edge { x: cb.x, y: cb.y, direction: Side::West }
            };
            assert(e.fits(n));
            assert(!self.edges@.contains(e));
            assert(labels[e.cell(n)] == labels[e.neighbor(n)]);
        }
        board.lemma_flood(flags, 0);
        assert forall|i: int| 0 <= i < labels.len() implies #[trigger] labels[i] == labels[0] by {
            assert(flags[i]);
        }
        board.lemma_single_tree(labels);
    }
}

impl Generator for Kruskal {
    open spec fn inv(&self, board: &Board) -> bool {
        &&& self.merged.wf()
        &&& board.forest(self.merged.labels())
        &&& forall|k: int|
            0 <= k < self.edges@.len() ==> (#[trigger] self.edges@[k]).fits(board.board_size as int)
        &&& self.covers(board)
        &&& self.done ==> self.edges@.len() == 0 && board.finish
    }

    open spec fn finished(&self) -> bool {
        self.done
    }

    open spec fn thorough(&self) -> bool {
        true
    }

    fn step(&mut self, board: &mut Board) -> (next: State)
        ensures
            old(self).stepped(old(board), final(self), final(board)),
    {
        if self.done {
            proof {
                self.lemma_exhausted(board);
            }
            return State::GenerationDone;
        }
        let ghost n = board.board_size as int;
        let ghost labels = self.merged.labels();
        proof {
            if self.edges@.len() > 0 {
                lemma_drop_last_contains(self.edges@);
            }
        }
        match self.edges.pop() {
            Some(edge) => {
                assert(edge == old(self).edges@.last());
                assert(old(self).edges@[old(self).edges@.len() - 1].fits(n));
                let index_cell: usize = board.get_index(edge.x, edge.y) as usize;
                let index_neighbour: usize = match edge.direction {
                    Side::North => board.get_index(edge.x, edge.y - 1),
                    Side::West => board.get_index(edge.x - 1, edge.y),
                } as usize;
                assert(board.adjacent(index_cell as int, index_neighbour as int));
                if !self.merged.same(index_cell, index_neighbour) {
                    self.merged.unite(index_cell, index_neighbour);
                    board.remove_wall(index_cell, index_neighbour);
                    proof {
                        old(board).lemma_join(
                            labels,
                            index_cell as int,
                            index_neighbour as int,
                            board,
                        );
                    }
                }
                proof {
                    let now = self.merged.labels();
                    assert forall|e: Edge| #[trigger] e.fits(n) implies self.edges@.contains(e)
                        || now[e.cell(n)] == now[e.neighbor(n)] by {
                        assert(old(self).edges@.contains(e) || labels[e.cell(n)]
                            == labels[e.neighbor(n)]);
                        lemma_index_bounds(n, e.x as int, e.y as int);
                        match e.direction {
                            Side::North => {
                                lemma_index_bounds(n, e.x as int, e.y - 1);
                            },
                            Side::West => {
                                lemma_index_bounds(n, e.x - 1, e.y as int);
                            },
                        }
                    }
                }
                State::Generate
            },
            None => {
                proof {
                    self.lemma_exhausted(board);
                }
                let ghost before = *board;
                self.done = true;
                board.finish = true;
                proof {
                    before.lemma_same_grid(board);
                }
                State::GenerationDone
            },
        }
    }

    fn draw(&self, board: &Board) {
    }

    proof fn lemma_finished(&self, board: &Board) {
        self.lemma_exhausted(board);
    }
}

} // verus!
