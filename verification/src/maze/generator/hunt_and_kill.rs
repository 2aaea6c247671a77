//! Hunt-and-kill: walk at random over new ground until stuck, then scan the
//! grid for the first new cell that borders the maze and go on from there.

use crate::maze::dice::Dice;
use crate::maze::generator::Growth;
use crate::maze::graph::lemma_count_down_bounds;
use crate::maze::{Board, Generator, State};
use vstd::prelude::*;

verus! {

/// Which of its two phases the generator is in.
#[derive(Debug, Clone, Copy, PartialEq, Eq, Structural)]
pub enum Phase {
    Hunt,
    Kill,
}

pub struct HuntAndKill {
    pub visited: Growth,
    pub current_cell: usize,
    pub state: Phase,
    pub done: bool,
    pub dice: Dice,
}

impl HuntAndKill {
    /// Whether cell `i` is still outside the maze, whose cells `joined`
    /// flags, but borders it.
    pub open spec fn is_quarry(board: &Board, joined: Seq<bool>, i: int) -> bool {
        board.in_grid(i) && !joined[i] && exists|j: int| #[trigger]
            board.adjacent(i, j) && joined[j]
    }

    /// Whether the hunt looks at cell `i` before cell `j`: it scans row by
    /// row from the top, and each row from the left.
    pub open spec fn scanned_before(board: &Board, i: int, j: int) -> bool {
        board.cells@[i].y < board.cells@[j].y || (board.cells@[i].y == board.cells@[j].y
            && board.cells@[i].x < board.cells@[j].x)
    }

    /// Whether `c` is the first cell in scan order that borders the maze
    /// from outside.
    pub open spec fn is_first_quarry(board: &Board, joined: Seq<bool>, c: int) -> bool {
        Self::is_quarry(board, joined, c) && forall|i: int|
            board.in_grid(i) && Self::scanned_before(board, i, c) ==> !#[trigger] Self::is_quarry(
                board,
                joined,
                i,
            )
    }

    /// The cells next to the current one that the maze has not reached.
    pub open spec fn ways_on(&self, board: &Board) -> Seq<usize> {
        board.around_with(self.current_cell as int, self.visited.joined@, false)
    }

    /// Whether `then` is this generator but for its dice.
    pub open spec fn same_course(&self, then: &HuntAndKill) -> bool {
        &&& then.visited.joined@ == self.visited.joined@
        &&& then.visited.left == self.visited.left
        &&& then.visited.root == self.visited.root
        &&& then.current_cell == self.current_cell
        &&& then.state == self.state
        &&& then.done == self.done
    }

    /// What a kill step to `next` leaves behind: the wall between the current
    /// cell and `next` is down, `next` is in the maze and is the new current
    /// cell, and the maze is complete if no cell is left.
    pub open spec fn after_kill(
        &self,
        board: &Board,
        next: usize,
        then: &HuntAndKill,
        after: &Board,
    ) -> bool {
        &&& board.carved_into(self.current_cell as int, next as int, after)
        &&& after.path@ == board.path@
        &&& then.visited.joined@ == self.visited.joined@.update(next as int, true)
        &&& then.visited.left == self.visited.left - 1
        &&& then.visited.root == self.visited.root
        &&& then.current_cell == next
        &&& then.state == Phase::Kill
        &&& then.done == (self.visited.left == 1)
        &&& after.finish == (board.finish || then.done)
    }

    /// What a hunt that found `cell` and joined it to `anchor` leaves behind:
    /// the wall between the two is down, `cell` is in the maze and is the new
    /// current cell, and the walk resumes.
    pub open spec fn after_hunt(
        &self,
        board: &Board,
        cell: usize,
        anchor: usize,
        then: &HuntAndKill,
        after: &Board,
    ) -> bool {
        &&& board.carved_into(anchor as int, cell as int, after)
        &&& after.path@ == board.path@
        &&& after.finish == board.finish
        &&& then.visited.joined@ == self.visited.joined@.update(cell as int, true)
        &&& then.visited.left == self.visited.left - 1
        &&& then.visited.root == self.visited.root
        &&& then.current_cell == cell
        &&& then.state == Phase::Kill
        &&& !then.done
    }

    /// What one step does with the dice as they stand. The walk goes on to
    /// the new neighbour that the dice give; the hunt joins the cell that it
    /// finds to the neighbour in the maze that the dice give.
    pub open spec fn drew(&self, board: &Board, then: &HuntAndKill, after: &Board) -> bool {
        let ways = self.ways_on(board);
        if self.done {
            self.same_course(then) && then.dice.state() == self.dice.state() && *after == *board
        } else if self.state == Phase::Kill {
            &&& match Dice::pick_of(self.dice.state(), ways) {
                Some(next) => self.after_kill(board, next, then, after),
                None => {
                    &&& then.state == Phase::Hunt
                    &&& then.visited.joined@ == self.visited.joined@
                    &&& then.visited.left == self.visited.left
                    &&& then.visited.root == self.visited.root
                    &&& then.current_cell == self.current_cell
                    &&& !then.done
                    &&& *after == *board
                },
            }
            &&& then.dice.state() == Dice::after_pick(self.dice.state(), ways.len())
        } else {
            if forall|i: int| !#[trigger] Self::is_quarry(board, self.visited.joined@, i) {
                &&& then.done
                &&& then.visited.joined@ == self.visited.joined@
                &&& then.visited.left == self.visited.left
                &&& then.visited.root == self.visited.root
                &&& then.current_cell == self.current_cell
                &&& then.state == self.state
                &&& then.dice.state() == self.dice.state()
                &&& board.same_grid(after)
                &&& after.path@ == board.path@
                &&& after.finish
            } else {
                exists|cell: usize| #[trigger]
                    Self::is_first_quarry(board, self.visited.joined@, cell as int)
                        && self.drew_from(board, cell, then, after)
            }
        }
    }

    /// What the hunt that has found `cell` does with the dice as they
    /// stand: it joins the cell to the neighbour in the maze that they give.
    pub open spec fn drew_from(
        &self,
        board: &Board,
        cell: usize,
        then: &HuntAndKill,
        after: &Board,
    ) -> bool {
        let near = board.around_with(cell as int, self.visited.joined@, true);
        &&& match Dice::pick_of(self.dice.state(), near) {
            Some(anchor) => self.after_hunt(board, cell, anchor, then, after),
            None => self.same_course(then) && board.same_maze(after),
        }
        &&& then.dice.state() == Dice::after_pick(self.dice.state(), near.len())
    }

    /// Whether `other` stands where this generator stands, with dice in
    /// the same state.
    pub open spec fn alike(&self, other: &HuntAndKill) -> bool {
        self.same_course(other) && other.dice.state() == self.dice.state()
    }

    /// Two generators that stand alike on the same maze take the same
    /// step: they stand alike afterwards, on the same maze.
    pub proof fn lemma_same_step(
        &self,
        board: &Board,
        then: &HuntAndKill,
        after: &Board,
        other: &HuntAndKill,
        maze: &Board,
        again: &HuntAndKill,
        anew: &Board,
    )
        requires
            board.shaped(),
            self.alike(other),
            board.same_maze(maze),
            self.drew(board, then, after),
            other.drew(maze, again, anew),
        ensures
            then.alike(again),
            after.same_maze(anew),
    {
        let joined = self.visited.joined@;
        assert forall|i: int| Self::is_quarry(board, joined, i) == Self::is_quarry(
            maze,
            joined,
            i,
        ) by {
            if Self::is_quarry(board, joined, i) {
                let j = choose|j: int| #[trigger] board.adjacent(i, j) && joined[j];
                assert(maze.adjacent(i, j));
            }
            if Self::is_quarry(maze, joined, i) {
                let j = choose|j: int| #[trigger] maze.adjacent(i, j) && joined[j];
                assert(board.adjacent(i, j));
            }
        }
        if !self.done && self.state == Phase::Hunt && exists|i: int| #[trigger]
            Self::is_quarry(board, joined, i) {
            let c = choose|cell: usize| #[trigger]
                Self::is_first_quarry(board, joined, cell as int) && self.drew_from(
                    board,
                    cell,
                    then,
                    after,
                );
            let d = choose|cell: usize| #[trigger]
                Self::is_first_quarry(maze, joined, cell as int) && other.drew_from(
                    maze,
                    cell,
                    again,
                    anew,
                );
            if c != d {
                board.lemma_same_place(c as int, d as int);
                assert(Self::scanned_before(board, c as int, d as int) || Self::scanned_before(
                    board,
                    d as int,
                    c as int,
                ));
                assert(Self::is_quarry(board, joined, c as int));
                assert(Self::is_quarry(maze, joined, d as int));
            }
        }
    }

    /// What one step may do, whatever the dice give.
    pub open spec fn stepped(&self, board: &Board, then: &HuntAndKill, after: &Board) -> bool {
        if self.done {
            self.same_course(then) && *after == *board
        } else if self.state == Phase::Kill {
            if self.ways_on(board).len() == 0 {
                &&& then.state == Phase::Hunt
                &&& then.visited.joined@ == self.visited.joined@
                &&& then.visited.left == self.visited.left
                &&& then.visited.root == self.visited.root
                &&& then.current_cell == self.current_cell
                &&& !then.done
                &&& *after == *board
            } else {
                exists|next: usize|
                    self.ways_on(board).contains(next) && #[trigger] self.after_kill(
                        board,
                        next,
                        then,
                        after,
                    )
            }
        } else {
            if forall|i: int| !#[trigger] Self::is_quarry(board, self.visited.joined@, i) {
                &&& then.done
                &&& then.visited.joined@ == self.visited.joined@
                &&& then.visited.left == self.visited.left
                &&& then.visited.root == self.visited.root
                &&& then.current_cell == self.current_cell
                &&& then.state == self.state
                &&& board.same_grid(after)
                &&& after.path@ == board.path@
                &&& after.finish
            } else {
                exists|cell: usize, anchor: usize|
                    Self::is_first_quarry(board, self.visited.joined@, cell as int) && board.around_with(
                        cell as int,
                        self.visited.joined@,
                        true,
                    ).contains(anchor) && #[trigger] self.after_hunt(
                        board,
                        cell,
                        anchor,
                        then,
                        after,
                    )
            }
        }
    }

    /// The same draw gives the same step: whatever the dice, two steps
    /// from one state that were decided alike leave the same generator and
    /// the same maze behind.
    pub proof fn lemma_repeatable(
        &self,
        board: &Board,
        next: usize,
        cell: usize,
        anchor: usize,
        then: &HuntAndKill,
        after: &Board,
        again: &HuntAndKill,
        anew: &Board,
    )
        ensures
            self.after_kill(board, next, then, after) && self.after_kill(board, next, again, anew)
                ==> then.same_course(again) && after.same_maze(anew),
            self.after_hunt(board, cell, anchor, then, after) && self.after_hunt(
                board,
                cell,
                anchor,
                again,
                anew,
            ) ==> then.same_course(again) && after.same_maze(anew),
    {
    }

    /// A generator for `board` that starts its walk on a cell drawn from
    /// the thread's source of randomness.
    pub fn new(board: &Board) -> (generator: Self)
        requires
            board.wf(),
            board.walled(),
        ensures
            generator.inv(board),
            generator.begins(board),
    {
        Self::with_dice(board, Dice::fresh())
    }

    /// How a generator starts out: in the kill phase, on some cell of the
    /// grid that alone makes up the maze.
    pub open spec fn begins(&self, board: &Board) -> bool {
        &&& board.in_grid(self.current_cell as int)
        &&& self.visited.root == self.current_cell
        &&& self.visited.joined@ == Seq::new(
            board.cells@.len(),
            |i: int| i == self.current_cell,
        )
        &&& self.visited.left == board.cells@.len() - 1
        &&& self.state == Phase::Kill
        &&& !self.done
    }

    /// A generator for `board` that draws from `dice`, starting with the
    /// cell on which its walk begins.
    pub fn with_dice(board: &Board, dice: Dice) -> (generator: Self)
        requires
            board.wf(),
            board.walled(),
        ensures
            generator.inv(board),
            generator.begins(board),
            generator.current_cell == Dice::below_of(dice.state(), board.cells@.len() as usize),
            generator.dice.state() == Dice::after_below(
                dice.state(),
                board.cells@.len() as usize,
            ),
    {
        let mut dice = dice;
        assert(board.cells@.len() >= 1) by (nonlinear_arith)
            requires
                board.cells@.len() == board.board_size * board.board_size,
                1 <= board.board_size,
        ;
        let current_cell: usize = dice.below(board.cells.len());
        Self {
            visited: Growth::plant(board, current_cell),
            current_cell,
            state: Phase::Kill,
            done: false,
            dice,
        }
    }

    /// Whether the maze has reached the cell at `index`.
    pub fn contains(&self, index: &usize) -> (reached: bool)
        ensures
            reached == self.visited.holds(*index as int),
    {
        self.visited.contains(*index)
    }

    /// The hunt: the first cell, row by row from the top and from the left
    /// in each row, that lies outside the maze and borders it; `None` if
    /// there is no such cell.
    pub fn seek(&self, board: &Board) -> (found: Option<usize>)
        requires
            board.shaped(),
            self.visited.joined@.len() == board.cells@.len(),
        ensures
            match found {
                Some(c) => Self::is_first_quarry(board, self.visited.joined@, c as int),
                None => forall|i: int| !#[trigger] Self::is_quarry(board, self.visited.joined@, i),
            },
    {
        let n: i32 = board.board_size;
        let mut y: i32 = 0;
        while y < n
            invariant
                0 <= y <= n,
                n == board.board_size,
                board.shaped(),
                self.visited.joined@.len() == board.cells@.len(),
                forall|i: int|
                    board.in_grid(i) && board.cells@[i].y < y ==> !#[trigger] Self::is_quarry(
                        board,
                        self.visited.joined@,
                        i,
                    ),
            decreases n - y,
        {
            let mut x: i32 = 0;
            while x < n
                invariant
                    0 <= y < n,
                    0 <= x <= n,
                    n == board.board_size,
                    board.shaped(),
                    self.visited.joined@.len() == board.cells@.len(),
                    forall|i: int|
                        board.in_grid(i) && (board.cells@[i].y < y || (board.cells@[i].y == y
                            && board.cells@[i].x < x)) ==> !#[trigger] Self::is_quarry(
                            board,
                            self.visited.joined@,
                            i,
                        ),
                decreases n - x,
            {
                let current: usize = board.get_index(x, y) as usize;
                if !self.contains(&current) {
                    let near = board.neighbors_with(current, &self.visited.joined, true);
                    if near.len() > 0 {
                        proof {
                            let j = near@[0];
                            assert(near@.contains(j));
                            assert(board.adjacent(current as int, j as int));
                        }
                        return Some(current);
                    }
                    proof {
                        if Self::is_quarry(board, self.visited.joined@, current as int) {
                            let j = choose|j: int| #[trigger]
                                board.adjacent(current as int, j) && self.visited.joined@[j];
                            assert(near@.contains(j as usize));
                        }
                    }
                }
                proof {
                    assert forall|i: int|
                        board.in_grid(i) && (board.cells@[i].y < y || (board.cells@[i].y == y
                            && board.cells@[i].x < x + 1)) implies !#[trigger] Self::is_quarry(
                        board,
                        self.visited.joined@,
                        i,
                    ) by {
                        if board.cells@[i].y == y && board.cells@[i].x == x {
                            board.lemma_same_place(i, current as int);
                        }
                    }
                }
                x += 1;
            }
            y += 1;
        }
        None
    }

    /// The kill step that the dice have decided: carves from the current
    /// cell to its new neighbour `next` and moves there.
    pub fn kill(&mut self, board: &mut Board, next: usize) -> (state: State)
        requires
            old(self).inv(old(board)),
            !old(self).done,
            old(self).state == Phase::Kill,
            old(self).ways_on(old(board)).contains(next),
        ensures
            final(self).inv(final(board)),
            old(board).same_place(final(board)),
            old(self).after_kill(old(board), next, final(self), final(board)),
            final(self).dice == old(self).dice,
            final(self).done ==> final(board).is_perfect(),
            state == (if final(self).done {
                State::GenerationDone
            } else {
                State::Generate
            }),
    {
        proof {
            board.lemma_around_with(self.current_cell as int, self.visited.joined@, false);
        }
        self.visited.attach(board, self.current_cell, next);
        self.current_cell = next;
        if self.visited.is_complete() {
            let ghost carved = *board;
            self.done = true;
            board.finish = true;
            proof {
                carved.lemma_same_grid(board);
                self.visited.lemma_complete(board);
            }
            State::GenerationDone
        } else {
            State::Generate
        }
    }

    /// The hunt step that the dice have decided: joins the cell that the
    /// hunt found to its neighbour `anchor` in the maze and resumes the walk
    /// from the cell found.
    pub fn hunt(&mut self, board: &mut Board, cell: usize, anchor: usize) -> (state: State)
        requires
            old(self).inv(old(board)),
            !old(self).done,
            old(self).state == Phase::Hunt,
            Self::is_first_quarry(old(board), old(self).visited.joined@, cell as int),
            old(board).around_with(cell as int, old(self).visited.joined@, true).contains(anchor),
        ensures
            final(self).inv(final(board)),
            old(board).same_place(final(board)),
            old(self).after_hunt(old(board), cell, anchor, final(self), final(board)),
            final(self).dice == old(self).dice,
            state == State::Generate,
    {
        proof {
            board.lemma_around_with(cell as int, self.visited.joined@, true);
            board.lemma_adjacent_offsets(cell as int, anchor as int);
        }
        self.visited.attach(board, anchor, cell);
        self.current_cell = cell;
        self.state = Phase::Kill;
        State::Generate
    }

    /// When the hunt finds nothing, the maze has reached every cell.
    pub proof fn lemma_hunt_over(&self, board: &Board)
        requires
            self.inv(board),
            forall|i: int| !#[trigger] Self::is_quarry(board, self.visited.joined@, i),
        ensures
            self.visited.left == 0,
            board.is_perfect(),
    {
        let flags = self.visited.joined@;
        assert forall|a: int, b: int| #[trigger] board.adjacent(a, b) && flags[a] implies flags[b] by {
            if !flags[b] {
                assert(board.adjacent(b, a));
                assert(Self::is_quarry(board, flags, b));
            }
        }
        board.lemma_flood(flags, self.current_cell as int);
        lemma_count_down_bounds(flags);
        self.visited.lemma_complete(board);
    }
}

impl Generator for HuntAndKill {
    open spec fn inv(&self, board: &Board) -> bool {
        &&& self.visited.inv(board)
        &&& board.in_grid(self.current_cell as int)
        &&& self.visited.holds(self.current_cell as int)
        &&& self.done ==> self.visited.left == 0 && board.finish
    }

    open spec fn finished(&self) -> bool {
        self.done
    }

    open spec fn thorough(&self) -> bool {
        true
    }

    fn step(&mut self, board: &mut Board) -> (next: State)
        ensures
            old(self).stepped(old(board), final(self), final(board)),
            old(self).drew(old(board), final(self), final(board)),
    {
        if self.done {
            proof {
                self.visited.lemma_complete(board);
            }
            return State::GenerationDone;
        }
        match self.state {
            Phase::Kill => {
                let fresh = board.neighbors_with(self.current_cell, &self.visited.joined, false);
                match self.dice.pick(&fresh) {
                    Some(next) => {
                        let state = self.kill(board, next);
                        proof {
                            assert(old(self).after_kill(old(board), next, self, board));
                        }
                        state
                    },
                    None => {
                        self.state = Phase::Hunt;
                        State::Generate
                    },
                }
            },
            Phase::Hunt => {
                match self.seek(board) {
                    Some(cell) => {
                        let near = board.neighbors_with(cell, &self.visited.joined, true);
                        proof {
                            let j = choose|j: int| #[trigger]
                                board.adjacent(cell as int, j) && self.visited.joined@[j];
                            assert(near@.contains(j as usize));
                        }
                        match self.dice.pick(&near) {
                            Some(anchor) => {
                                let state = self.hunt(board, cell, anchor);
                                proof {
                                    assert(old(self).after_hunt(
                                        old(board),
                                        cell,
                                        anchor,
                                        self,
                                        board,
                                    ));
                                    assert(Self::is_first_quarry(
                                        old(board),
                                        old(self).visited.joined@,
                                        cell as int,
                                    ));
                                    assert(old(self).drew_from(old(board), cell, self, board));
                                }
                                state
                            },
                            None => State::Generate,
                        }
                    },
                    None => {
                        proof {
                            self.lemma_hunt_over(board);
                        }
                        let ghost before = *board;
                        self.done = true;
                        board.finish = true;
                        proof {
                            before.lemma_same_grid(board);
                        }
                        State::GenerationDone
                    },
                }
            },
        }
    }

    fn draw(&self, board: &Board) {
    }

    proof fn lemma_finished(&self, board: &Board) {
        self.visited.lemma_complete(board);
    }
}

} // verus!
