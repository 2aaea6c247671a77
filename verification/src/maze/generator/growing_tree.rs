//! Growing tree: keep a list of active cells, grow the maze from one of
//! them, and drop a cell from the list once it has no new neighbour left.
//! Growing always from the newest cell walks like a backtracker; growing
//! from a random one spreads like Prim.

use crate::maze::dice::Dice;
use crate::maze::generator::{lemma_push_contains, Growth};
use crate::maze::graph::lemma_count_down_bounds;
use crate::maze::{Board, Generator, State};
use vstd::prelude::*;

verus! {

pub struct GrowingTree {
    pub visited: Growth,
    pub active: Vec<usize>,
    pub newest: bool,
    pub done: bool,
    pub dice: Dice,
}

impl GrowingTree {
    /// Every cell of the maze that is no longer active has neighbours in
    /// the maze only.
    pub open spec fn settled(board: &Board, joined: Seq<bool>, active: Seq<usize>) -> bool {
        forall|v: int, j: int|
            #[trigger] board.adjacent(v, j) && joined[v] && !active.contains(v as usize)
                ==> joined[j]
    }

    /// How a generator starts out: with some cell of the grid as the maze
    /// and as the one active cell.
    pub open spec fn begins(&self, board: &Board, newest: bool) -> bool {
        &&& board.in_grid(self.visited.root as int)
        &&& self.visited.joined@ == Seq::new(
            board.cells@.len(),
            |i: int| i == self.visited.root,
        )
        &&& self.visited.left == board.cells@.len() - 1
        &&& self.active@ == seq![self.visited.root]
        &&& self.newest == newest
        &&& !self.done
    }

    /// A generator for `board` that grows from a random active cell and
    /// draws from the thread's source of randomness.
    pub fn new(board: &Board) -> (generator: Self)
        requires
            board.wf(),
            board.walled(),
        ensures
            generator.inv(board),
            generator.begins(board, false),
    {
        Self::with_dice(board, Dice::fresh(), false)
    }

    /// A generator for `board` that draws from `dice`, starting with the
    /// cell from which the maze grows. It grows from the newest active cell
    /// if `newest`, from a random one otherwise.
    pub fn with_dice(board: &Board, dice: Dice, newest: bool) -> (generator: Self)
        requires
            board.wf(),
            board.walled(),
        ensures
            generator.inv(board),
            generator.begins(board, newest),
            generator.visited.root == Dice::below_of(dice.state(), board.cells@.len() as usize),
            generator.dice.state() == Dice::after_below(
                dice.state(),
                board.cells@.len() as usize,
            ),
    {
        let mut dice = dice;
        assert(board.cells@.len() >= 1) by (nonlinear_arith)
            requires
                board.cells@.len() == board.board_size * board.board_size,
                1 <= board.board_size,
        ;
        let start: usize = dice.below(board.cells.len());
        let mut active: Vec<usize> = Vec::new();
        active.push(start);
        proof {
            assert(active@ =~= seq![start]);
            assert(active@.contains(start)) by {
                assert(active@[0] == start);
            }
        }
        Self { visited: Growth::plant(board, start), active, newest, done: false, dice }
    }

    /// The cells next to the active cell at `index` that the maze has not
    /// reached.
    pub open spec fn ways_from(&self, board: &Board, index: usize) -> Seq<usize> {
        board.around_with(self.active@[index as int] as int, self.visited.joined@, false)
    }

    /// Whether `choice` may have been chosen among `ways`: one of them, or
    /// none where there are none.
    pub open spec fn chosen_among(ways: Seq<usize>, choice: Option<usize>) -> bool {
        match choice {
            Some(w) => ways.contains(w),
            None => ways.len() == 0,
        }
    }

    /// What a step from the active cell at `index` leaves behind. With a
    /// way on, the wall towards it is down and it is the newest active
    /// cell. Without, the cell has left the list; and with the list empty
    /// the maze is complete.
    pub open spec fn after_grow(
        &self,
        board: &Board,
        index: usize,
        choice: Option<usize>,
        then: &GrowingTree,
        after: &Board,
    ) -> bool {
        let cell = self.active@[index as int];
        &&& then.newest == self.newest
        &&& then.visited.root == self.visited.root
        &&& after.path@ == board.path@
        &&& match choice {
            Some(next) => {
                &&& board.carved_into(cell as int, next as int, after)
                &&& then.visited.joined@ == self.visited.joined@.update(next as int, true)
                &&& then.visited.left == self.visited.left - 1
                &&& then.active@ == self.active@.push(next)
                &&& !then.done
                &&& after.finish == board.finish
            },
            None => {
                &&& board.same_grid(after)
                &&& then.visited.joined@ == self.visited.joined@
                &&& then.visited.left == self.visited.left
                &&& then.active@ == self.active@.remove(index as int)
                &&& then.done == (then.active@.len() == 0)
                &&& after.finish == (board.finish || then.done)
            },
        }
    }

    /// Whether `then` is this generator but for its dice.
    pub open spec fn same_course(&self, then: &GrowingTree) -> bool {
        &&& then.visited.joined@ == self.visited.joined@
        &&& then.visited.left == self.visited.left
        &&& then.visited.root == self.visited.root
        &&& then.active@ == self.active@
        &&& then.newest == self.newest
        &&& then.done == self.done
    }

    /// The same draw gives the same step: whatever the dice, two steps
    /// from one state that were decided alike leave the same generator and
    /// the same maze behind.
    pub proof fn lemma_repeatable(
        &self,
        board: &Board,
        index: usize,
        choice: Option<usize>,
        then: &GrowingTree,
        after: &Board,
        again: &GrowingTree,
        anew: &Board,
    )
        ensures
            self.after_grow(board, index, choice, then, after) && self.after_grow(
                board,
                index,
                choice,
                again,
                anew,
            ) ==> then.same_course(again) && after.same_maze(anew),
    {
    }

    /// What one step does with the dice as they stand: the maze grows from
    /// the newest active cell, or from the one at the place that the dice
    /// give, to the new neighbour that the dice give next.
    pub open spec fn drew(&self, board: &Board, then: &GrowingTree, after: &Board) -> bool {
        let len = self.active@.len() as usize;
        let index = if self.newest {
            (len - 1) as usize
        } else {
            Dice::below_of(self.dice.state(), len)
        };
        let rolled = if self.newest {
            self.dice.state()
        } else {
            Dice::after_below(self.dice.state(), len)
        };
        let ways = self.ways_from(board, index);
        if self.done {
            *after == *board && *then == *self
        } else if self.active@.len() == 0 {
            &&& then.done
            &&& then.active@ == self.active@
            &&& then.newest == self.newest
            &&& then.visited.joined@ == self.visited.joined@
            &&& then.visited.left == self.visited.left
            &&& then.visited.root == self.visited.root
            &&& then.dice.state() == self.dice.state()
            &&& board.same_grid(after)
            &&& after.path@ == board.path@
            &&& after.finish
        } else {
            &&& self.after_grow(board, index, Dice::pick_of(rolled, ways), then, after)
            &&& then.dice.state() == Dice::after_pick(rolled, ways.len())
        }
    }

    /// Whether `other` stands where this generator stands, with dice in
    /// the same state.
    pub open spec fn alike(&self, other: &GrowingTree) -> bool {
        self.same_course(other) && other.dice.state() == self.dice.state()
    }

    /// Two generators that stand alike on the same maze take the same
    /// step: they stand alike afterwards, on the same maze.
    pub proof fn lemma_same_step(
        &self,
        board: &Board,
        then: &GrowingTree,
        after: &Board,
        other: &GrowingTree,
        maze: &Board,
        again: &GrowingTree,
        anew: &Board,
    )
        requires
            self.alike(other),
            board.same_maze(maze),
            self.drew(board, then, after),
            other.drew(maze, again, anew),
        ensures
            then.alike(again),
            after.same_maze(anew),
    {
    }

    /// What one step may do, whatever the dice give.
    pub open spec fn stepped(&self, board: &Board, then: &GrowingTree, after: &Board) -> bool {
        if self.done {
            *after == *board
        } else if self.active@.len() == 0 {
            &&& then.done
            &&& then.active@ == self.active@
            &&& then.newest == self.newest
            &&& then.visited.joined@ == self.visited.joined@
            &&& then.visited.left == self.visited.left
            &&& then.visited.root == self.visited.root
            &&& board.same_grid(after)
            &&& after.path@ == board.path@
            &&& after.finish
        } else {
            exists|index: usize, choice: Option<usize>|
                index < self.active@.len() && (self.newest ==> index == self.active@.len() - 1)
                    && Self::chosen_among(self.ways_from(board, index), choice)
                    && #[trigger] self.after_grow(board, index, choice, then, after)
        }
    }

    /// With no active cell left, the maze has reached every cell.
    pub proof fn lemma_none_active(&self, board: &Board)
        requires
            self.visited.inv(board),
            Self::settled(board, self.visited.joined@, self.active@),
            self.active@.len() == 0,
        ensures
            self.visited.left == 0,
            board.is_perfect(),
    {
        let flags = self.visited.joined@;
        assert forall|a: int, b: int| #[trigger] board.adjacent(a, b) && flags[a] implies flags[b] by {
            assert(!self.active@.contains(a as usize));
        }
        board.lemma_flood(flags, self.visited.root as int);
        lemma_count_down_bounds(flags);
        self.visited.lemma_complete(board);
    }

    /// The step that the dice have decided: the maze grows from the active
    /// cell at `index` to its new neighbour `choice`, or that cell leaves
    /// the list.
    pub fn grow(&mut self, board: &mut Board, index: usize, choice: Option<usize>) -> (state: State)
        requires
            old(self).inv(old(board)),
            !old(self).done,
            index < old(self).active@.len(),
            Self::chosen_among(old(self).ways_from(old(board), index), choice),
        ensures
            final(self).inv(final(board)),
            old(board).same_place(final(board)),
            old(self).after_grow(old(board), index, choice, final(self), final(board)),
            final(self).dice == old(self).dice,
            final(self).done ==> final(board).is_perfect(),
            state == (if final(self).done {
                State::GenerationDone
            } else {
                State::Generate
            }),
    {
        let cell: usize = self.active[index];
        let ghost joined = self.visited.joined@;
        let ghost list = self.active@;
        proof {
            board.lemma_around_with(cell as int, joined, false);
        }
        match choice {
            Some(next) => {
                self.visited.attach(board, cell, next);
                self.active.push(next);
                proof {
                    old(board).lemma_carved(cell as int, next as int, board);
                    lemma_push_contains(list, next);
                    assert forall|v: int, j: int|
                        #[trigger] board.adjacent(v, j) && self.visited.joined@[v]
                            && !self.active@.contains(v as usize) implies self.visited.joined@[j] by {
                        assert(old(board).adjacent(v, j));
                        assert(!list.contains(v as usize));
                    }
                    assert forall|k: int| 0 <= k < self.active@.len() implies self.visited.holds(
                        #[trigger] self.active@[k] as int,
                    ) by {
                        if k < list.len() {
                            assert(old(self).visited.holds(list[k] as int));
                        }
                    }
                }
                State::Generate
            },
            None => {
                let _ = self.active.remove(index);
                proof {
                    assert forall|v: int, j: int|
                        #[trigger] board.adjacent(v, j) && joined[v] && !self.active@.contains(
                            v as usize,
                        ) implies joined[j] by {
                        if list.contains(v as usize) {
                            let at = choose|at: int| 0 <= at < list.len() && list[at] == v as usize;
                            if at != index {
                                let k = if at < index {
                                    at
                                } else {
                                    at - 1
                                };
                                assert(self.active@[k] == v as usize);
                            } else if !joined[j] {
                                assert(old(self).ways_from(old(board), index).contains(j as usize));
                            }
                        }
                    }
                    assert forall|k: int| 0 <= k < self.active@.len() implies self.visited.holds(
                        #[trigger] self.active@[k] as int,
                    ) by {
                        let at = if k < index {
                            k
                        } else {
                            k + 1
                        };
                        assert(old(self).visited.holds(list[at] as int));
                    }
                }
                if self.active.len() == 0 {
                    let ghost before = *board;
                    self.done = true;
                    board.finish = true;
                    proof {
                        self.lemma_none_active(&before);
                        before.lemma_same_grid(board);
                        assert(Self::settled(board, joined, self.active@)) by {
                            assert forall|v: int, j: int|
                                #[trigger] board.adjacent(v, j) && joined[v]
                                    && !self.active@.contains(v as usize) implies joined[j] by {
                                assert(before.adjacent(v, j));
                            }
                        }
                    }
                    State::GenerationDone
                } else {
                    State::Generate
                }
            },
        }
    }
}

impl Generator for GrowingTree {
    open spec fn inv(&self, board: &Board) -> bool {
        &&& self.visited.inv(board)
        &&& forall|k: int|
            0 <= k < self.active@.len() ==> self.visited.holds(#[trigger] self.active@[k] as int)
        &&& Self::settled(board, self.visited.joined@, self.active@)
        &&& self.done ==> self.active@.len() == 0 && board.finish
    }

    open spec fn finished(&self) -> bool {
        self.done
    }

    open spec fn thorough(&self) -> bool {
        true
    }

    fn step(&mut self, board: &mut Board) -> (next: State)
        ensures
            old(self).stepped(old(board), final(self), final(board)),
            old(self).drew(old(board), final(self), final(board)),
    {
        if self.done {
            proof {
                self.lemma_none_active(board);
            }
            return State::GenerationDone;
        }
        if self.active.len() == 0 {
            let ghost before = *board;
            self.done = true;
            board.finish = true;
            proof {
                self.lemma_none_active(&before);
                before.lemma_same_grid(board);
                assert(Self::settled(board, self.visited.joined@, self.active@)) by {
                    assert forall|v: int, j: int|
                        #[trigger] board.adjacent(v, j) && self.visited.joined@[v]
                            && !self.active@.contains(v as usize) implies self.visited.joined@[j] by {
                        assert(before.adjacent(v, j));
                    }
                }
            }
            return State::GenerationDone;
        }
        let index: usize = if self.newest {
            self.active.len() - 1
        } else {
            self.dice.below(self.active.len())
        };
        let cell: usize = self.active[index];
        let fresh = board.neighbors_with(cell, &self.visited.joined, false);
        let choice = self.dice.pick(&fresh);
        let state = self.grow(board, index, choice);
        proof {
            assert(old(self).after_grow(old(board), index, choice, self, board));
        }
        state
    }

    fn draw(&self, board: &Board) {
    }

    proof fn lemma_finished(&self, board: &Board) {
        self.lemma_none_active(board);
    }
}

} // verus!
