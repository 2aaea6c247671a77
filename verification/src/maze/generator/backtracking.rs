//! Recursive backtracking: a depth-first walk over new ground that retraces
//! its steps from each dead end. The stack of the walk is the board's path.

use crate::maze::dice::Dice;
use crate::maze::{Board, Generator, State};
use vstd::prelude::*;

verus! {

pub struct Backtracking {
    pub current: i32,
    pub done: bool,
    pub dice: Dice,
}

impl Backtracking {
    /// A generator that starts on the first cell and draws from the
    /// thread's source of randomness.
    pub fn new() -> (generator: Self)
        ensures
            generator.current == 0,
            !generator.done,
    {
        Self::with_dice(Dice::fresh())
    }

    /// A generator that starts on the first cell and draws from `dice`.
    pub fn with_dice(dice: Dice) -> (generator: Self)
        ensures
            generator.current == 0,
            !generator.done,
            generator.dice == dice,
    {
        Self { current: 0, done: false, dice }
    }

    /// A new generator is ready for a board as `Board::new` makes it.
    pub proof fn lemma_ready(&self, board: &Board)
        requires
            board.wf(),
            board.walled(),
            board.is_fresh(),
            board.path@ == seq![0usize],
            self.current == 0,
            !self.done,
        ensures
            self.inv(board),
    {
        assert(board.cells@.len() >= 1) by (nonlinear_arith)
            requires
                board.cells@.len() == board.board_size * board.board_size,
                1 <= board.board_size,
        ;
        board.lemma_walled_tree(0);
        assert(board.visited_flags() =~= Seq::new(board.cells@.len(), |i: int| i == 0));
        assert(board.path@[0] == 0);
        assert forall|v: int, j: int|
            #[trigger] board.adjacent(v, j) && board.cells@[v].visited && !board.path@.contains(
                v as usize,
            ) implies board.cells@[j].visited by {
            assert(v == 0);
            assert(board.path@.contains(0usize));
        }
    }

    /// The cells next to the current one that no walk has visited.
    pub open spec fn ways_on(&self, board: &Board) -> Seq<usize> {
        board.around_with(self.current as int, board.visited_flags(), false)
    }

    /// Whether `choice` may have been chosen among `ways`: one of them, or
    /// none where there are none.
    pub open spec fn chosen_among(ways: Seq<usize>, choice: Option<usize>) -> bool {
        match choice {
            Some(w) => ways.contains(w),
            None => ways.len() == 0,
        }
    }

    /// What a step leaves behind. With a way on, the wall towards it is
    /// down, it is on top of the stack and is the new current cell. At a
    /// dead end the top of the stack is gone and the cell below it is the
    /// new current cell; if none is left, the maze is complete.
    pub open spec fn after_move(
        &self,
        board: &Board,
        choice: Option<usize>,
        then: &Backtracking,
        after: &Board,
    ) -> bool {
        match choice {
            Some(free) => {
                &&& board.carved_into(self.current as int, free as int, after)
                &&& after.path@ == board.path@.push(free)
                &&& then.current == free
                &&& !then.done
                &&& after.finish == board.finish
            },
            None => {
                &&& board.same_grid(after)
                &&& after.path@ == board.path@.drop_last()
                &&& then.done == (after.path@.len() == 0)
                &&& then.current == (if then.done {
                    self.current as int
                } else {
                    after.path@.last() as int
                })
                &&& after.finish == (board.finish || then.done)
            },
        }
    }

    /// The same draw gives the same step: whatever the dice, two steps
    /// from one state that were decided alike leave the same generator and
    /// the same maze behind.
    pub proof fn lemma_repeatable(
        &self,
        board: &Board,
        choice: Option<usize>,
        then: &Backtracking,
        after: &Board,
        again: &Backtracking,
        anew: &Board,
    )
        ensures
            self.after_move(board, choice, then, after) && self.after_move(
                board,
                choice,
                again,
                anew,
            ) ==> then.current == again.current && then.done == again.done && after.same_maze(
                anew,
            ),
    {
    }

    /// What one step does with the dice as they stand: the way on is the
    /// one that they give among the ways that there are.
    pub open spec fn drew(&self, board: &Board, then: &Backtracking, after: &Board) -> bool {
        if self.done {
            *after == *board && *then == *self
        } else {
            let ways = self.ways_on(board);
            &&& self.after_move(board, Dice::pick_of(self.dice.state(), ways), then, after)
            &&& then.dice.state() == Dice::after_pick(self.dice.state(), ways.len())
        }
    }

    /// Whether `other` stands where this generator stands, with dice in
    /// the same state.
    pub open spec fn alike(&self, other: &Backtracking) -> bool {
        &&& other.current == self.current
        &&& other.done == self.done
        &&& other.dice.state() == self.dice.state()
    }

    /// Two generators that stand alike on the same maze take the same
    /// step: they stand alike afterwards, on the same maze.
    pub proof fn lemma_same_step(
        &self,
        board: &Board,
        then: &Backtracking,
        after: &Board,
        other: &Backtracking,
        maze: &Board,
        again: &Backtracking,
        anew: &Board,
    )
        requires
            self.alike(other),
            board.same_maze(maze),
            self.drew(board, then, after),
            other.drew(maze, again, anew),
        ensures
            then.alike(again),
            after.same_maze(anew),
    {
    }

    /// What one step may do, whatever the dice give.
    pub open spec fn stepped(&self, board: &Board, then: &Backtracking, after: &Board) -> bool {
        if self.done {
            *after == *board
        } else {
            exists|choice: Option<usize>|
                Self::chosen_among(self.ways_on(board), choice) && #[trigger] self.after_move(
                    board,
                    choice,
                    then,
                    after,
                )
        }
    }

    /// The step that the dice have decided: on to the unvisited neighbour
    /// `choice`, or back from a dead end.
    pub fn advance(&mut self, board: &mut Board, choice: Option<usize>) -> (state: State)
        requires
            old(self).inv(old(board)),
            !old(self).done,
            Self::chosen_among(old(self).ways_on(old(board)), choice),
        ensures
            final(self).inv(final(board)),
            old(board).same_place(final(board)),
            old(self).after_move(old(board), choice, final(self), final(board)),
            final(self).dice == old(self).dice,
            final(self).done ==> final(board).is_perfect(),
            state == (if final(self).done {
                State::GenerationDone
            } else {
                State::Generate
            }),
    {
        let ghost flags = board.visited_flags();
        proof {
            board.lemma_around_with(self.current as int, flags, false);
        }
        match choice {
            Some(free) => {
                // remove the walls
                board.remove_wall(self.current as usize, free);
                let ghost carved = *board;
                proof {
                    old(board).lemma_carved(self.current as int, free as int, &carved);
                    assert(carved.visited_flags() =~= flags.update(free as int, true));
                    old(board).lemma_grow(flags, 0, self.current as int, free as int, &carved);
                    crate::maze::generator::lemma_push_contains(old(board).path@, free);
                }
                // set next cell as current
                self.current = free as i32;
                board.path.push(free);
                proof {
                    carved.lemma_same_grid(board);
                    assert(board.visited_flags() =~= carved.visited_flags());
                    assert forall|v: int, j: int|
                        #[trigger] board.adjacent(v, j) && board.cells@[v].visited
                            && !board.path@.contains(v as usize) implies board.cells@[j].visited by {
                        assert(old(board).adjacent(v, j));
                        assert(!old(board).path@.contains(v as usize));
                        assert(v != free);
                        assert(old(board).cells@[v].visited);
                    }
                }
                State::Generate
            },
            None => {
                let ghost stack = board.path@;
                proof {
                    crate::maze::generator::lemma_drop_last_contains(stack);
                }
                let _ = board.path.pop();
                proof {
                    old(board).lemma_same_grid(board);
                    assert(board.visited_flags() =~= flags);
                    assert forall|v: int, j: int|
                        #[trigger] board.adjacent(v, j) && board.cells@[v].visited
                            && !board.path@.contains(v as usize) implies board.cells@[j].visited by {
                        assert(old(board).adjacent(v, j));
                        if stack.contains(v as usize) {
                            assert(v == self.current);
                            if !flags[j] {
                                assert(self.ways_on(old(board)).contains(j as usize));
                            }
                        }
                    }
                }
                if board.path.len() > 0 {
                    self.current = board.path[board.path.len() - 1] as i32;
                    State::Generate
                } else {
                    let ghost popped = *board;
                    self.done = true;
                    board.finish = true;
                    proof {
                        popped.lemma_same_grid(board);
                        assert(board.visited_flags() =~= flags);
                        self.lemma_stack_empty(board);
                    }
                    State::GenerationDone
                }
            },
        }
    }

    /// With the stack empty, the walk has been everywhere.
    pub proof fn lemma_stack_empty(&self, board: &Board)
        requires
            board.tree_over(board.visited_flags(), 0),
            board.path@.len() == 0,
            Self::settled(board),
        ensures
            board.is_perfect(),
    {
        let flags = board.visited_flags();
        assert forall|a: int, b: int| #[trigger] board.adjacent(a, b) && flags[a] implies flags[b] by {
            assert(!board.path@.contains(a as usize));
        }
        board.lemma_flood(flags, 0);
        board.lemma_tree_complete(flags, 0);
    }

    /// Every visited cell that is no longer on the stack has visited
    /// neighbours only.
    pub open spec fn settled(board: &Board) -> bool {
        forall|v: int, j: int|
            #[trigger] board.adjacent(v, j) && board.cells@[v].visited && !board.path@.contains(
                v as usize,
            ) ==> board.cells@[j].visited
    }
}

impl Generator for Backtracking {
    open spec fn inv(&self, board: &Board) -> bool {
        &&& board.tree_over(board.visited_flags(), 0)
        &&& board.in_grid(self.current as int)
        &&& board.cells@[self.current as int].visited
        &&& forall|k: int|
            0 <= k < board.path@.len() ==> board.in_grid(#[trigger] board.path@[k] as int)
                && board.cells@[board.path@[k] as int].visited
        &&& !self.done ==> board.path@.len() > 0 && board.path@.last() == self.current
        &&& Self::settled(board)
        &&& self.done ==> board.path@.len() == 0 && board.finish
    }

    open spec fn finished(&self) -> bool {
        self.done
    }

    open spec fn thorough(&self) -> bool {
        true
    }

    fn step(&mut self, board: &mut Board) -> (next: State)
        ensures
            old(self).stepped(old(board), final(self), final(board)),
            old(self).drew(old(board), final(self), final(board)),
    {
        if self.done {
            proof {
                self.lemma_stack_empty(board);
            }
            return State::GenerationDone;
        }
        let free = board.neighbors_visited(self.current as usize, false);
        let choice = self.dice.pick(&free);
        let state = self.advance(board, choice);
        proof {
            assert(old(self).after_move(old(board), choice, self, board));
        }
        state
    }

    fn draw(&self, board: &Board) {
    }

    proof fn lemma_finished(&self, board: &Board) {
        self.lemma_stack_empty(board);
    }
}

} // verus!
