//! Binary tree: every cell in turn opens its wall to the east or to the
//! south, as a coin says; at the edges only one of the two is there.

use crate::maze::dice::Dice;
use crate::maze::graph::{merged_labels, own_labels};
use crate::maze::{carve_pair, Board, Generator, State};
use vstd::prelude::*;

verus! {

pub struct BinaryTree {
    pub x: i32,
    pub y: i32,
    pub done: bool,
    pub dice: Dice,
}

impl BinaryTree {
    /// A generator that starts at the top left and draws from the thread's
    /// source of randomness.
    pub fn new() -> (generator: Self)
        ensures
            generator.x == 0,
            generator.y == 0,
            !generator.done,
    {
        Self::with_dice(Dice::fresh())
    }

    /// A generator that starts at the top left and draws from `dice`.
    pub fn with_dice(dice: Dice) -> (generator: Self)
        ensures
            generator.x == 0,
            generator.y == 0,
            !generator.done,
            generator.dice == dice,
    {
        Self { x: 0, y: 0, done: false, dice }
    }

    /// Whether the scan, which goes row by row and in each row from the
    /// left, has yet to deal with cell `u` when it stands at `(x, y)`.
    pub open spec fn ahead(board: &Board, x: int, y: int, u: int) -> bool {
        board.in_grid(u) && (board.cells@[u].y > y || (board.cells@[u].y == y && board.cells@[u].x
            >= x))
    }

    /// What the scan has achieved when it stands at `(x, y)`: the passages
    /// are a forest in which every tree holds exactly one cell that the
    /// scan has yet to deal with, and that cell names the tree.
    pub open spec fn course(board: &Board, labels: Seq<int>, x: int, y: int) -> bool {
        &&& board.forest(labels)
        &&& forall|u: int| #[trigger] Self::ahead(board, x, y, u) ==> labels[u] == u
        &&& forall|i: int| board.in_grid(i) ==> Self::ahead(board, x, y, #[trigger] labels[i])
    }

    /// A new generator is ready for a board without passages.
    pub proof fn lemma_ready(&self, board: &Board)
        requires
            board.wf(),
            board.walled(),
            self.x == 0,
            self.y == 0,
            !self.done,
        ensures
            self.inv(board),
    {
        board.lemma_walled_forest();
        assert(Self::course(board, own_labels(board.cells@.len()), 0, 0));
    }

    /// What a step leaves behind: the wall of the cell under the cursor to
    /// the east or to the south is down, and the cursor has moved on. The
    /// step that finds the cursor on the last cell opens nothing and
    /// completes the maze.
    pub open spec fn after_carve(
        &self,
        board: &Board,
        east: bool,
        then: &BinaryTree,
        after: &Board,
    ) -> bool {
        let n = board.board_size;
        let cell = board.slot(self.x as int, self.y as int);
        let neighbor = if east {
            board.slot(self.x + 1, self.y as int)
        } else {
            board.slot(self.x as int, self.y + 1)
        };
        &&& board.carved_into(cell, neighbor, after)
        &&& then.x == (if self.x == n - 1 {
            0
        } else {
            self.x + 1
        })
        &&& then.y == (if self.x == n - 1 {
            self.y + 1
        } else {
            self.y as int
        })
        &&& !then.done
        &&& after.path@ == board.path@
        &&& after.finish == board.finish
    }

    /// Whether the cursor stands on the last cell.
    pub open spec fn at_end(&self, board: &Board) -> bool {
        self.x >= board.board_size - 1 && self.y >= board.board_size - 1
    }

    /// Whether the cell under the cursor may open its wall to the east, if
    /// `east`, or to the south: at the right edge only south is there, at
    /// the bottom only east.
    pub open spec fn may_go(&self, board: &Board, east: bool) -> bool {
        if self.x == board.board_size - 1 {
            !east
        } else if self.y == board.board_size - 1 {
            east
        } else {
            true
        }
    }

    /// The same draw gives the same step: whatever the dice, two steps
    /// from one state that were decided alike leave the same generator and
    /// the same maze behind.
    pub proof fn lemma_repeatable(
        &self,
        board: &Board,
        east: bool,
        then: &BinaryTree,
        after: &Board,
        again: &BinaryTree,
        anew: &Board,
    )
        ensures
            self.after_carve(board, east, then, after) && self.after_carve(board, east, again, anew)
                ==> then.x == again.x && then.y == again.y && then.done == again.done
                && after.same_maze(anew),
    {
    }

    /// What one step does with the dice as they stand: away from the
    /// edges the wall to the east goes down where the coin says so, else
    /// the one to the south.
    pub open spec fn drew(&self, board: &Board, then: &BinaryTree, after: &Board) -> bool {
        let n = board.board_size;
        if self.done {
            *after == *board && *then == *self
        } else if self.at_end(board) {
            &&& then.done
            &&& then.x == self.x
            &&& then.y == self.y
            &&& then.dice.state() == self.dice.state()
            &&& board.same_grid(after)
            &&& after.path@ == board.path@
            &&& after.finish
        } else if self.x == n - 1 {
            self.after_carve(board, false, then, after) && then.dice.state() == self.dice.state()
        } else if self.y == n - 1 {
            self.after_carve(board, true, then, after) && then.dice.state() == self.dice.state()
        } else {
            &&& self.after_carve(board, Dice::coin_of(self.dice.state()), then, after)
            &&& then.dice.state() == Dice::after_coin(self.dice.state())
        }
    }

    /// Whether `other` stands where this generator stands, with dice in
    /// the same state.
    pub open spec fn alike(&self, other: &BinaryTree) -> bool {
        &&& other.x == self.x
        &&& other.y == self.y
        &&& other.done == self.done
        &&& other.dice.state() == self.dice.state()
    }

    /// Two generators that stand alike on the same maze take the same
    /// step: they stand alike afterwards, on the same maze.
    pub proof fn lemma_same_step(
        &self,
        board: &Board,
        then: &BinaryTree,
        after: &Board,
        other: &BinaryTree,
        maze: &Board,
        again: &BinaryTree,
        anew: &Board,
    )
        requires
            self.alike(other),
            board.same_maze(maze),
            self.drew(board, then, after),
            other.drew(maze, again, anew),
        ensures
            then.alike(again),
            after.same_maze(anew),
    {
    }

    /// What one step may do, whatever the dice give.
    pub open spec fn stepped(&self, board: &Board, then: &BinaryTree, after: &Board) -> bool {
        if self.done {
            *after == *board
        } else if self.at_end(board) {
            &&& then.done
            &&& then.x == self.x
            &&& then.y == self.y
            &&& board.same_grid(after)
            &&& after.path@ == board.path@
            &&& after.finish
        } else {
            exists|east: bool| self.may_go(board, east) && #[trigger] self.after_carve(
                board,
                east,
                then,
                after,
            )
        }
    }

    /// The step that the dice have decided: the cell under the cursor
    /// opens its wall to the east, if `east`, or to the south.
    pub fn carve(&mut self, board: &mut Board, east: bool) -> (state: State)
        requires
            old(self).inv(old(board)),
            !old(self).done,
            !old(self).at_end(old(board)),
            old(self).may_go(old(board), east),
        ensures
            final(self).inv(final(board)),
            old(board).same_place(final(board)),
            old(self).after_carve(old(board), east, final(self), final(board)),
            final(self).dice == old(self).dice,
            state == State::Generate,
    {
        let ghost labels = choose|labels: Seq<int>| #[trigger]
            Self::course(board, labels, self.x as int, self.y as int);
        let cell: usize = board.get_index(self.x, self.y) as usize;
        let neighbor: usize = if east {
            board.get_index(self.x + 1, self.y)
        } else {
            board.get_index(self.x, self.y + 1)
        } as usize;
        proof {
            assert(board.adjacent(cell as int, neighbor as int));
            assert(Self::ahead(board, self.x as int, self.y as int, cell as int));
            assert(Self::ahead(board, self.x as int, self.y as int, neighbor as int));
        }
        board.remove_wall(cell, neighbor);
        let ghost x0 = self.x as int;
        let ghost y0 = self.y as int;
        if self.x == board.board_size - 1 {
            self.x = 0;
            self.y += 1;
        } else {
            self.x += 1;
        }
        proof {
            let merged = merged_labels(labels, labels[cell as int], labels[neighbor as int]);
            assert(carve_pair(old(board).cells@, cell as int, neighbor as int) =~= carve_pair(
                old(board).cells@,
                neighbor as int,
                cell as int,
            ));
            old(board).lemma_join(labels, neighbor as int, cell as int, board);
            old(board).lemma_carved(cell as int, neighbor as int, board);
            assert forall|u: int| #[trigger]
                Self::ahead(board, self.x as int, self.y as int, u) implies merged[u] == u by {
                assert(Self::ahead(old(board), x0, y0, u));
                if u == cell {
                    old(board).lemma_same_place(u, cell as int);
                }
            }
            assert forall|i: int| board.in_grid(i) implies Self::ahead(
                board,
                self.x as int,
                self.y as int,
                #[trigger] merged[i],
            ) by {
                assert(Self::ahead(old(board), x0, y0, labels[i]));
                let l = merged[i];
                assert(Self::ahead(old(board), x0, y0, l));
                assert(l != cell);
                if old(board).cells@[l].x == x0 && old(board).cells@[l].y == y0 {
                    old(board).lemma_same_place(l, cell as int);
                }
            }
            assert(Self::course(board, merged, self.x as int, self.y as int));
        }
        State::Generate
    }

    /// With the cursor on the last cell, every cell hangs on that one.
    pub proof fn lemma_scanned(&self, board: &Board)
        requires
            self.inv(board),
            self.at_end(board) || self.done,
        ensures
            board.is_perfect(),
    {
        if !self.done {
            let n = board.board_size as int;
            let labels = choose|labels: Seq<int>| #[trigger]
                Self::course(board, labels, self.x as int, self.y as int);
            board.lemma_slot(n - 1, n - 1);
            let last = board.slot(n - 1, n - 1);
            assert forall|i: int| 0 <= i < labels.len() implies #[trigger] labels[i] == last by {
                assert(Self::ahead(board, self.x as int, self.y as int, labels[i]));
                board.lemma_same_place(labels[i], last);
            }
            assert(board.cells@.len() >= 1);
            board.lemma_single_tree(labels);
        }
    }
}

impl Generator for BinaryTree {
    open spec fn inv(&self, board: &Board) -> bool {
        &&& board.wf()
        &&& 0 <= self.x < board.board_size
        &&& 0 <= self.y < board.board_size
        &&& if self.done {
            board.finish && board.is_perfect()
        } else {
            exists|labels: Seq<int>| #[trigger]
                Self::course(board, labels, self.x as int, self.y as int)
        }
    }

    open spec fn finished(&self) -> bool {
        self.done
    }

    open spec fn thorough(&self) -> bool {
        true
    }

    fn step(&mut self, board: &mut Board) -> (next: State)
        ensures
            old(self).stepped(old(board), final(self), final(board)),
            old(self).drew(old(board), final(self), final(board)),
    {
        if self.done {
            return State::GenerationDone;
        }
        if self.x >= board.board_size - 1 && self.y >= board.board_size - 1 {
            proof {
                self.lemma_scanned(board);
            }
            let ghost before = *board;
            self.done = true;
            board.finish = true;
            proof {
                before.lemma_same_grid(board);
            }
            return State::GenerationDone;
        }
        let east = if self.x == board.board_size - 1 {
            false
        } else if self.y == board.board_size - 1 {
            true
        } else {
            self.dice.coin()
        };
        let state = self.carve(board, east);
        proof {
            assert(old(self).after_carve(old(board), east, self, board));
        }
        state
    }

    fn draw(&self, board: &Board) {
    }

    proof fn lemma_finished(&self, board: &Board) {
        
    }
}

} // verus!
