//! Sidewinder: scan each row from the left, extending a run of joined cells
//! to the east or closing it; a closed run opens one passage down from one
//! of its cells. The last row is one run.

use crate::maze::dice::Dice;
use crate::maze::generator::binary_tree::BinaryTree;
use crate::maze::graph::{merged_labels, own_labels};
use crate::maze::{carve_pair, Board, Generator, State};
use vstd::prelude::*;

verus! {

pub struct Sidewinder {
    pub x: i32,
    pub y: i32,
    pub run_start: i32,
    pub done: bool,
    pub dice: Dice,
}

impl Sidewinder {
    /// A generator that starts at the top left and draws from the thread's
    /// source of randomness.
    pub fn new() -> (generator: Self)
        ensures
            generator.x == 0,
            generator.y == 0,
            generator.run_start == 0,
            !generator.done,
    {
        Self::with_dice(Dice::fresh())
    }

    /// A generator that starts at the top left and draws from `dice`.
    pub fn with_dice(dice: Dice) -> (generator: Self)
        ensures
            generator.x == 0,
            generator.y == 0,
            generator.run_start == 0,
            !generator.done,
            generator.dice == dice,
    {
        Self { x: 0, y: 0, run_start: 0, done: false, dice }
    }

    /// What the scan has achieved when it stands at `(x, y)` with a run
    /// that began in column `run_start`: the passages are a forest in which
    /// every tree holds exactly one cell that the scan has yet to deal
    /// with, and the cells of the run hang on the cell under the cursor.
    pub open spec fn course(
        board: &Board,
        labels: Seq<int>,
        x: int,
        y: int,
        run_start: int,
    ) -> bool {
        &&& BinaryTree::course(board, labels, x, y)
        &&& forall|column: int|
            run_start <= column <= x ==> labels[#[trigger] board.slot(column, y)] == board.slot(
                x,
                y,
            )
    }

    /// A new generator is ready for a board without passages.
    pub proof fn lemma_ready(&self, board: &Board)
        requires
            board.wf(),
            board.walled(),
            self.x == 0,
            self.y == 0,
            self.run_start == 0,
            !self.done,
        ensures
            self.inv(board),
    {
        board.lemma_walled_forest();
        board.lemma_slot(0, 0);
        assert(Self::course(board, own_labels(board.cells@.len()), 0, 0, 0));
    }

    /// Whether the cursor stands on the last cell.
    pub open spec fn at_end(&self, board: &Board) -> bool {
        self.x >= board.board_size - 1 && self.y >= board.board_size - 1
    }

    /// What extending the run leaves behind: the wall to the east of the
    /// cell under the cursor is down, and the cursor has moved there.
    pub open spec fn after_extend(&self, board: &Board, then: &Sidewinder, after: &Board) -> bool {
        &&& board.carved_into(
            board.slot(self.x as int, self.y as int),
            board.slot(self.x + 1, self.y as int),
            after,
        )
        &&& then.x == self.x + 1
        &&& then.y == self.y
        &&& then.run_start == self.run_start
        &&& !then.done
        &&& after.path@ == board.path@
        &&& after.finish == board.finish
    }

    /// What closing the run leaves behind: the wall below the cell of the
    /// run in column `member` is down, and the cursor has moved on to where
    /// the next run begins, in this row or at the start of the next.
    pub open spec fn after_close(
        &self,
        board: &Board,
        member: i32,
        then: &Sidewinder,
        after: &Board,
    ) -> bool {
        let row_ends = self.x == board.board_size - 1;
        &&& board.carved_into(
            board.slot(member as int, self.y as int),
            board.slot(member as int, self.y + 1),
            after,
        )
        &&& then.x == (if row_ends {
            0
        } else {
            self.x + 1
        })
        &&& then.y == (if row_ends {
            self.y + 1
        } else {
            self.y as int
        })
        &&& then.run_start == then.x
        &&& !then.done
        &&& after.path@ == board.path@
        &&& after.finish == board.finish
    }

    /// The same draw gives the same step: whatever the dice, two steps
    /// from one state that were decided alike leave the same generator and
    /// the same maze behind.
    pub proof fn lemma_repeatable(
        &self,
        board: &Board,
        member: i32,
        then: &Sidewinder,
        after: &Board,
        again: &Sidewinder,
        anew: &Board,
    )
        ensures
            self.after_extend(board, then, after) && self.after_extend(board, again, anew)
                ==> then.same_course(again) && after.same_maze(anew),
            self.after_close(board, member, then, after) && self.after_close(
                board,
                member,
                again,
                anew,
            ) ==> then.same_course(again) && after.same_maze(anew),
    {
    }

    /// Whether `then` is this generator but for its dice.
    pub open spec fn same_course(&self, then: &Sidewinder) -> bool {
        &&& then.x == self.x
        &&& then.y == self.y
        &&& then.run_start == self.run_start
        &&& then.done == self.done
    }

    /// What one step does with the dice as they stand. In the last row the
    /// run is extended, and at the end of another row it is closed; else the
    /// coin decides between the two. A run is closed below the member at
    /// the place in the run that the dice give next.
    pub open spec fn drew(&self, board: &Board, then: &Sidewinder, after: &Board) -> bool {
        let n = board.board_size;
        let tossed = self.y != n - 1 && self.x != n - 1;
        let east = self.y == n - 1 || (self.x != n - 1 && Dice::coin_of(self.dice.state()));
        let rolled = if tossed {
            Dice::after_coin(self.dice.state())
        } else {
            self.dice.state()
        };
        let length = (self.x - self.run_start + 1) as usize;
        if self.done {
            *after == *board && *then == *self
        } else if self.at_end(board) {
            &&& then.done
            &&& then.x == self.x
            &&& then.y == self.y
            &&& then.run_start == self.run_start
            &&& then.dice.state() == self.dice.state()
            &&& board.same_grid(after)
            &&& after.path@ == board.path@
            &&& after.finish
        } else if east {
            self.after_extend(board, then, after) && then.dice.state() == rolled
        } else {
            &&& self.after_close(
                board,
                (self.run_start + Dice::below_of(rolled, length)) as i32,
                then,
                after,
            )
            &&& then.dice.state() == Dice::after_below(rolled, length)
        }
    }

    /// Whether `other` stands where this generator stands, with dice in
    /// the same state.
    pub open spec fn alike(&self, other: &Sidewinder) -> bool {
        self.same_course(other) && other.dice.state() == self.dice.state()
    }

    /// Two generators that stand alike on the same maze take the same
    /// step: they stand alike afterwards, on the same maze.
    pub proof fn lemma_same_step(
        &self,
        board: &Board,
        then: &Sidewinder,
        after: &Board,
        other: &Sidewinder,
        maze: &Board,
        again: &Sidewinder,
        anew: &Board,
    )
        requires
            self.alike(other),
            board.same_maze(maze),
            self.drew(board, then, after),
            other.drew(maze, again, anew),
        ensures
            then.alike(again),
            after.same_maze(anew),
    {
    }

    /// What one step may do, whatever the dice give. In the last row the
    /// run can only be extended; at the end of any other row it can only
    /// be closed.
    pub open spec fn stepped(&self, board: &Board, then: &Sidewinder, after: &Board) -> bool {
        let n = board.board_size;
        if self.done {
            *after == *board
        } else if self.at_end(board) {
            &&& then.done
            &&& then.x == self.x
            &&& then.y == self.y
            &&& then.run_start == self.run_start
            &&& board.same_grid(after)
            &&& after.path@ == board.path@
            &&& after.finish
        } else {
            ||| self.x < n - 1 && self.after_extend(board, then, after)
            ||| self.y < n - 1 && exists|member: i32|
                self.run_start <= member <= self.x && #[trigger] self.after_close(
                    board,
                    member,
                    then,
                    after,
                )
        }
    }

    /// The step that extends the run to the east.
    pub fn extend(&mut self, board: &mut Board) -> (state: State)
        requires
            old(self).inv(old(board)),
            !old(self).done,
            old(self).x < old(board).board_size - 1,
        ensures
            final(self).inv(final(board)),
            old(board).same_place(final(board)),
            old(self).after_extend(old(board), final(self), final(board)),
            final(self).dice == old(self).dice,
            state == State::Generate,
    {
        let ghost labels = choose|labels: Seq<int>| #[trigger]
            Self::course(board, labels, self.x as int, self.y as int, self.run_start as int);
        let cell: usize = board.get_index(self.x, self.y) as usize;
        let neighbor: usize = board.get_index(self.x + 1, self.y) as usize;
        proof {
            assert(board.adjacent(cell as int, neighbor as int));
            assert(BinaryTree::ahead(board, self.x as int, self.y as int, cell as int));
            assert(BinaryTree::ahead(board, self.x as int, self.y as int, neighbor as int));
        }
        board.remove_wall(cell, neighbor);
        let ghost x0 = self.x as int;
        let ghost y0 = self.y as int;
        self.x += 1;
        proof {
            let merged = merged_labels(labels, labels[cell as int], labels[neighbor as int]);
            assert(carve_pair(old(board).cells@, cell as int, neighbor as int) =~= carve_pair(
                old(board).cells@,
                neighbor as int,
                cell as int,
            ));
            old(board).lemma_join(labels, neighbor as int, cell as int, board);
            old(board).lemma_carved(cell as int, neighbor as int, board);
            Self::lemma_cursor_moved(
                old(board),
                board,
                labels,
                x0,
                y0,
                self.x as int,
                y0,
                neighbor as int,
            );
            assert forall|column: int| self.run_start <= column <= self.x implies merged[
            #[trigger] board.slot(column, y0)] == board.slot(self.x as int, y0) by {
                assert(board.slot(column, y0) == old(board).slot(column, y0));
                if column <= x0 {
                    old(board).lemma_slot(column, y0);
                    assert(labels[old(board).slot(column, y0)] == cell);
                }
            }
            assert(Self::course(
                board,
                merged,
                self.x as int,
                self.y as int,
                self.run_start as int,
            ));
            assert(self.inv(board));
        }
        State::Generate
    }

    /// After the tree of the cell under the cursor has been hung on a cell
    /// `onto` that the scan has yet to deal with, and the cursor has moved
    /// one cell on, every tree still holds exactly one such cell.
    pub proof fn lemma_cursor_moved(
        board: &Board,
        after: &Board,
        labels: Seq<int>,
        x0: int,
        y0: int,
        x1: int,
        y1: int,
        onto: int,
    )
        requires
            board.shaped(),
            0 <= x0 < board.board_size,
            0 <= y0 < board.board_size,
            (x1 == x0 + 1 && y1 == y0) || (x0 == board.board_size - 1 && x1 == 0 && y1 == y0 + 1),
            BinaryTree::course(board, labels, x0, y0),
            BinaryTree::ahead(board, x1, y1, onto),
            after.forest(merged_labels(labels, board.slot(x0, y0), onto)),
            after.cells@.len() == board.cells@.len(),
            forall|i: int|
                board.in_grid(i) ==> (#[trigger] after.cells@[i]).x == board.cells@[i].x
                    && after.cells@[i].y == board.cells@[i].y,
        ensures
            BinaryTree::course(after, merged_labels(labels, board.slot(x0, y0), onto), x1, y1),
    {
        let cell = board.slot(x0, y0);
        board.lemma_slot(x0, y0);
        let merged = merged_labels(labels, cell, onto);
        assert forall|u: int| #[trigger] BinaryTree::ahead(after, x1, y1, u) implies merged[u]
            == u by {
            assert(BinaryTree::ahead(board, x0, y0, u));
            if u == cell {
                board.lemma_same_place(u, cell);
            }
        }
        assert forall|i: int| after.in_grid(i) implies BinaryTree::ahead(
            after,
            x1,
            y1,
            #[trigger] merged[i],
        ) by {
            assert(BinaryTree::ahead(board, x0, y0, labels[i]));
            let l = merged[i];
            if l != onto {
                assert(l == labels[i] && l != cell);
                if board.cells@[l].x == x0 && board.cells@[l].y == y0 {
                    board.lemma_same_place(l, cell);
                }
            }
        }
    }

    /// The step that closes the run: the cell of the run in column
    /// `member` opens its wall to the south.
    pub fn close(&mut self, board: &mut Board, member: i32) -> (state: State)
        requires
            old(self).inv(old(board)),
            !old(self).done,
            old(self).y < old(board).board_size - 1,
            old(self).run_start <= member <= old(self).x,
        ensures
            final(self).inv(final(board)),
            old(board).same_place(final(board)),
            old(self).after_close(old(board), member, final(self), final(board)),
            final(self).dice == old(self).dice,
            state == State::Generate,
    {
        let ghost labels = choose|labels: Seq<int>| #[trigger]
            Self::course(board, labels, self.x as int, self.y as int, self.run_start as int);
        let cell: usize = board.get_index(member, self.y) as usize;
        let neighbor: usize = board.get_index(member, self.y + 1) as usize;
        let ghost x0 = self.x as int;
        let ghost y0 = self.y as int;
        let ghost head = board.slot(x0, y0);
        proof {
            board.lemma_slot(x0, y0);
            assert(board.adjacent(cell as int, neighbor as int));
            assert(labels[board.slot(member as int, y0)] == head);
            assert(BinaryTree::ahead(board, x0, y0, neighbor as int));
            assert(BinaryTree::ahead(board, x0, y0, head));
        }
        board.remove_wall(cell, neighbor);
        if self.x == board.board_size - 1 {
            self.x = 0;
            self.y += 1;
        } else {
            self.x += 1;
        }
        self.run_start = self.x;
        proof {
            let merged = merged_labels(labels, labels[cell as int], labels[neighbor as int]);
            assert(carve_pair(old(board).cells@, cell as int, neighbor as int) =~= carve_pair(
                old(board).cells@,
                neighbor as int,
                cell as int,
            ));
            old(board).lemma_join(labels, neighbor as int, cell as int, board);
            old(board).lemma_carved(cell as int, neighbor as int, board);
            Self::lemma_cursor_moved(
                old(board),
                board,
                labels,
                x0,
                y0,
                self.x as int,
                self.y as int,
                neighbor as int,
            );
            assert forall|column: int| self.run_start <= column <= self.x implies merged[
            #[trigger] board.slot(column, self.y as int)] == board.slot(
                self.x as int,
                self.y as int,
            ) by {
                board.lemma_slot(self.x as int, self.y as int);
                assert(BinaryTree::ahead(
                    board,
                    self.x as int,
                    self.y as int,
                    board.slot(self.x as int, self.y as int),
                ));
            }
            assert(Self::course(
                board,
                merged,
                self.x as int,
                self.y as int,
                self.run_start as int,
            ));
        }
        State::Generate
    }

    /// With the cursor on the last cell, every cell hangs on that one.
    pub proof fn lemma_scanned(&self, board: &Board)
        requires
            self.inv(board),
            !self.done,
            self.at_end(board),
        ensures
            board.is_perfect(),
    {
        let n = board.board_size as int;
        let labels = choose|labels: Seq<int>| #[trigger]
            Self::course(board, labels, self.x as int, self.y as int, self.run_start as int);
        board.lemma_slot(n - 1, n - 1);
        let last = board.slot(n - 1, n - 1);
        assert forall|i: int| 0 <= i < labels.len() implies #[trigger] labels[i] == last by {
            assert(BinaryTree::ahead(board, self.x as int, self.y as int, labels[i]));
            board.lemma_same_place(labels[i], last);
        }
        board.lemma_single_tree(labels);
    }
}

impl Generator for Sidewinder {
    open spec fn inv(&self, board: &Board) -> bool {
        &&& board.wf()
        &&& 0 <= self.run_start <= self.x < board.board_size
        &&& 0 <= self.y < board.board_size
        &&& if self.done {
            board.finish && board.is_perfect()
        } else {
            exists|labels: Seq<int>| #[trigger]
                Self::course(board, labels, self.x as int, self.y as int, self.run_start as int)
        }
    }

    open spec fn finished(&self) -> bool {
        self.done
    }

    open spec fn thorough(&self) -> bool {
        true
    }

    fn step(&mut self, board: &mut Board) -> (next: State)
        ensures
            old(self).stepped(old(board), final(self), final(board)),
            old(self).drew(old(board), final(self), final(board)),
    {
        if self.done {
            return State::GenerationDone;
        }
        let n: i32 = board.board_size;
        if self.x >= n - 1 && self.y >= n - 1 {
            proof {
                self.lemma_scanned(board);
            }
            let ghost before = *board;
            self.done = true;
            board.finish = true;
            proof {
                before.lemma_same_grid(board);
            }
            return State::GenerationDone;
        }
        let east = if self.y == n - 1 {
            true
        } else if self.x == n - 1 {
            false
        } else {
            self.dice.coin()
        };
        if east {
            self.extend(board)
        } else {
            let length: usize = (self.x - self.run_start + 1) as usize;
            let member: i32 = self.run_start + self.dice.below(length) as i32;
            let state = self.close(board, member);
            proof {
                assert(old(self).after_close(old(board), member, self, board));
            }
            state
        }
    }

    fn draw(&self, board: &Board) {
    }

    proof fn lemma_finished(&self, board: &Board) {
        
    }
}

} // verus!
