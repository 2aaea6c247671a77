//! Aldous-Broder: a uniform random walk that carves whenever it steps onto
//! new ground.

use crate::maze::dice::Dice;
use crate::maze::generator::Growth;
use crate::maze::graph::lemma_count_down_bounds;
use crate::maze::{Board, Generator, State};
use vstd::prelude::*;

verus! {

pub struct AldousBroder {
    pub visited: Growth,
    pub current_cell: usize,
    pub done: bool,
    pub dice: Dice,
}

impl AldousBroder {
    /// How a generator starts out: on some cell of the grid, which alone
    /// makes up the maze.
    pub open spec fn begins(&self, board: &Board) -> bool {
        &&& board.in_grid(self.current_cell as int)
        &&& self.visited.root == self.current_cell
        &&& self.visited.joined@ == Seq::new(
            board.cells@.len(),
            |i: int| i == self.current_cell,
        )
        &&& self.visited.left == board.cells@.len() - 1
        &&& !self.done
    }

    /// A generator for `board` that starts its walk on a cell drawn from
    /// the thread's source of randomness.
    pub fn new(board: &Board) -> (generator: Self)
        requires
            board.wf(),
            board.walled(),
        ensures
            generator.inv(board),
            generator.begins(board),
    {
        Self::with_dice(board, Dice::fresh())
    }

    /// A generator for `board` that draws from `dice`, starting with the
    /// cell on which its walk begins.
    pub fn with_dice(board: &Board, dice: Dice) -> (generator: Self)
        requires
            board.wf(),
            board.walled(),
        ensures
            generator.inv(board),
            generator.begins(board),
            generator.current_cell == Dice::below_of(dice.state(), board.cells@.len() as usize),
            generator.dice.state() == Dice::after_below(
                dice.state(),
                board.cells@.len() as usize,
            ),
    {
        let mut dice = dice;
        assert(board.cells@.len() >= 1) by (nonlinear_arith)
            requires
                board.cells@.len() == board.board_size * board.board_size,
                1 <= board.board_size,
        ;
        let current_cell: usize = dice.below(board.cells.len());
        Self { visited: Growth::plant(board, current_cell), current_cell, done: false, dice }
    }

    /// Whether the walk has been on the cell at `index`.
    pub fn contains(&self, index: &usize) -> (reached: bool)
        ensures
            reached == self.visited.holds(*index as int),
    {
        self.visited.contains(*index)
    }

    /// What a step of the walk to `next` leaves behind: the wall towards
    /// `next` is down if the walk had not been there, `next` is the new
    /// current cell, and the maze is complete if no cell is left.
    pub open spec fn after_walk(
        &self,
        board: &Board,
        next: usize,
        then: &AldousBroder,
        after: &Board,
    ) -> bool {
        let new_ground = !self.visited.joined@[next as int];
        &&& if new_ground {
            board.carved_into(self.current_cell as int, next as int, after)
        } else {
            board.same_grid(after)
        }
        &&& after.path@ == board.path@
        &&& then.visited.joined@ == self.visited.joined@.update(next as int, true)
        &&& then.visited.left == self.visited.left - (if new_ground {
            1int
        } else {
            0int
        })
        &&& then.visited.root == self.visited.root
        &&& then.current_cell == next
        &&& then.done == (then.visited.left == 0)
        &&& after.finish == (board.finish || then.done)
    }

    /// Whether `then` is this generator but for its dice.
    pub open spec fn same_course(&self, then: &AldousBroder) -> bool {
        &&& then.visited.joined@ == self.visited.joined@
        &&& then.visited.left == self.visited.left
        &&& then.visited.root == self.visited.root
        &&& then.current_cell == self.current_cell
        &&& then.done == self.done
    }

    /// The same draw gives the same step: whatever the dice, two steps
    /// from one state that were decided alike leave the same generator and
    /// the same maze behind.
    pub proof fn lemma_repeatable(
        &self,
        board: &Board,
        next: usize,
        then: &AldousBroder,
        after: &Board,
        again: &AldousBroder,
        anew: &Board,
    )
        ensures
            self.after_walk(board, next, then, after) && self.after_walk(board, next, again, anew)
                ==> then.same_course(again) && after.same_maze(anew),
    {
    }

    /// What one step does with the dice as they stand: the walk goes to
    /// the neighbour that they give.
    pub open spec fn drew(&self, board: &Board, then: &AldousBroder, after: &Board) -> bool {
        let around = board.around(self.current_cell as int);
        if self.done {
            *after == *board && *then == *self
        } else if self.visited.left == 0 {
            &&& then.done
            &&& then.visited.joined@ == self.visited.joined@
            &&& then.visited.left == self.visited.left
            &&& then.visited.root == self.visited.root
            &&& then.current_cell == self.current_cell
            &&& then.dice.state() == self.dice.state()
            &&& board.same_grid(after)
            &&& after.path@ == board.path@
            &&& after.finish
        } else {
            &&& match Dice::pick_of(self.dice.state(), around) {
                Some(next) => self.after_walk(board, next, then, after),
                None => self.same_course(then) && board.same_maze(after),
            }
            &&& then.dice.state() == Dice::after_pick(self.dice.state(), around.len())
        }
    }

    /// Whether `other` stands where this generator stands, with dice in
    /// the same state.
    pub open spec fn alike(&self, other: &AldousBroder) -> bool {
        self.same_course(other) && other.dice.state() == self.dice.state()
    }

    /// Two generators that stand alike on the same maze take the same
    /// step: they stand alike afterwards, on the same maze.
    pub proof fn lemma_same_step(
        &self,
        board: &Board,
        then: &AldousBroder,
        after: &Board,
        other: &AldousBroder,
        maze: &Board,
        again: &AldousBroder,
        anew: &Board,
    )
        requires
            self.alike(other),
            board.same_maze(maze),
            self.drew(board, then, after),
            other.drew(maze, again, anew),
        ensures
            then.alike(again),
            after.same_maze(anew),
    {
    }

    /// What one step may do, whatever the dice give.
    pub open spec fn stepped(&self, board: &Board, then: &AldousBroder, after: &Board) -> bool {
        if self.done {
            *after == *board
        } else if self.visited.left == 0 {
            &&& then.done
            &&& then.visited.joined@ == self.visited.joined@
            &&& then.visited.left == self.visited.left
            &&& then.visited.root == self.visited.root
            &&& then.current_cell == self.current_cell
            &&& board.same_grid(after)
            &&& after.path@ == board.path@
            &&& after.finish
        } else {
            exists|next: usize|
                board.around(self.current_cell as int).contains(next) && #[trigger] self.after_walk(
                    board,
                    next,
                    then,
                    after,
                )
        }
    }

    /// The step that the dice have decided: the walk moves to the
    /// neighbour `next`, and carves its way if it has not been there.
    pub fn walk_to(&mut self, board: &mut Board, next: usize) -> (state: State)
        requires
            old(self).inv(old(board)),
            !old(self).done,
            old(board).around(old(self).current_cell as int).contains(next),
        ensures
            final(self).inv(final(board)),
            old(board).same_place(final(board)),
            old(self).after_walk(old(board), next, final(self), final(board)),
            final(self).dice == old(self).dice,
            final(self).done ==> final(board).is_perfect(),
            state == (if final(self).done {
                State::GenerationDone
            } else {
                State::Generate
            }),
    {
        proof {
            board.lemma_around(self.current_cell as int);
        }
        if !self.contains(&next) {
            self.visited.attach(board, self.current_cell, next);
        } else {
            assert(self.visited.joined@.update(next as int, true) =~= self.visited.joined@);
        }
        self.current_cell = next;
        if self.visited.is_complete() {
            let ghost carved = *board;
            self.done = true;
            board.finish = true;
            proof {
                carved.lemma_same_grid(board);
                self.visited.lemma_complete(board);
            }
            State::GenerationDone
        } else {
            State::Generate
        }
    }
}

impl Generator for AldousBroder {
    open spec fn inv(&self, board: &Board) -> bool {
        &&& self.visited.inv(board)
        &&& board.in_grid(self.current_cell as int)
        &&& self.visited.holds(self.current_cell as int)
        &&& self.done ==> self.visited.left == 0 && board.finish
    }

    open spec fn finished(&self) -> bool {
        self.done
    }

    open spec fn thorough(&self) -> bool {
        true
    }

    fn step(&mut self, board: &mut Board) -> (next: State)
        ensures
            old(self).stepped(old(board), final(self), final(board)),
            old(self).drew(old(board), final(self), final(board)),
    {
        if self.done {
            proof {
                self.visited.lemma_complete(board);
            }
            return State::GenerationDone;
        }
        if self.visited.is_complete() {
            let ghost before = *board;
            self.done = true;
            board.finish = true;
            proof {
                before.lemma_same_grid(board);
                self.visited.lemma_complete(board);
            }
            return State::GenerationDone;
        }
        let neighbors = board.neighbors_of(self.current_cell);
        proof {
            if board.board_size < 2 {
                assert(board.cells@.len() == 1) by (nonlinear_arith)
                    requires
                        board.cells@.len() == board.board_size * board.board_size,
                        board.board_size == 1,
                ;
                lemma_count_down_bounds(self.visited.joined@);
            }
        }
        match self.dice.pick(&neighbors) {
            Some(next) => {
                let state = self.walk_to(board, next);
                proof {
                    assert(old(self).after_walk(old(board), next, self, board));
                }
                state
            },
            None => State::Generate,
        }
    }

    fn draw(&self, board: &Board) {
    }

    proof fn lemma_finished(&self, board: &Board) {
        self.visited.lemma_complete(board);
    }
}

} // verus!
