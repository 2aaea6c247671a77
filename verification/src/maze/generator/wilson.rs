//! Wilson's algorithm: walk at random from a cell outside the maze, erasing
//! every loop as it closes, until the walk meets the maze; then carve the
//! walk into it.

use crate::maze::dice::Dice;
use crate::maze::generator::{lemma_push_contains, Growth};
use crate::maze::graph::count_down;
use crate::maze::{carve_pair, Board, Cell, Generator, State};
use vstd::prelude::*;

verus! {

/// `cells` after a walk has been carved into the maze from its head back:
/// the head of `walk` is joined to `anchor`, the cell before it to the head,
/// and so on down to the first cell.
pub open spec fn carved_along(cells: Seq<Cell>, walk: Seq<usize>, anchor: int) -> Seq<Cell>
    decreases walk.len(),
{
    if walk.len() == 0 {
        cells
    } else {
        carved_along(
            carve_pair(cells, anchor, walk.last() as int),
            walk.drop_last(),
            walk.last() as int,
        )
    }
}

/// `flags` with the flag of every cell of `walk` up.
pub open spec fn raised_along(flags: Seq<bool>, walk: Seq<usize>) -> Seq<bool>
    decreases walk.len(),
{
    if walk.len() == 0 {
        flags
    } else {
        raised_along(flags.update(walk.last() as int, true), walk.drop_last())
    }
}

pub struct Wilson {
    pub visited: Growth,
    pub current_cell: usize,
    pub walk: Vec<usize>,
    pub done: bool,
    pub dice: Dice,
}

impl Wilson {
    /// A walk outside the maze: its cells lie outside, no cell occurs
    /// twice, and each is next to the one before.
    pub open spec fn walk_ok(board: &Board, joined: Seq<bool>, walk: Seq<usize>) -> bool {
        &&& forall|k: int|
            0 <= k < walk.len() ==> board.in_grid(#[trigger] walk[k] as int) && !joined[walk[k] as int]
        &&& walk.no_duplicates()
        &&& forall|k: int|
            0 <= k < walk.len() - 1 ==> board.adjacent(#[trigger] walk[k] as int, walk[k + 1] as int)
    }

    /// How a generator starts out: with some cell of the grid as the maze,
    /// and no walk under way.
    pub open spec fn begins(&self, board: &Board) -> bool {
        &&& board.in_grid(self.current_cell as int)
        &&& self.visited.root == self.current_cell
        &&& self.visited.joined@ == Seq::new(
            board.cells@.len(),
            |i: int| i == self.current_cell,
        )
        &&& self.visited.left == board.cells@.len() - 1
        &&& self.walk@.len() == 0
        &&& !self.done
    }

    /// A generator for `board` that draws from the thread's source of
    /// randomness.
    pub fn new(board: &Board) -> (generator: Self)
        requires
            board.wf(),
            board.walled(),
        ensures
            generator.inv(board),
            generator.begins(board),
    {
        Self::with_dice(board, Dice::fresh())
    }

    /// A generator for `board` that draws from `dice`, starting with the
    /// cell that is the maze at first.
    pub fn with_dice(board: &Board, dice: Dice) -> (generator: Self)
        requires
            board.wf(),
            board.walled(),
        ensures
            generator.inv(board),
            generator.begins(board),
            generator.current_cell == Dice::below_of(dice.state(), board.cells@.len() as usize),
            generator.dice.state() == Dice::after_below(
                dice.state(),
                board.cells@.len() as usize,
            ),
    {
        let mut dice = dice;
        assert(board.cells@.len() >= 1) by (nonlinear_arith)
            requires
                board.cells@.len() == board.board_size * board.board_size,
                1 <= board.board_size,
        ;
        let current_cell: usize = dice.below(board.cells.len());
        Self {
            visited: Growth::plant(board, current_cell),
            current_cell,
            walk: Vec::new(),
            done: false,
            dice,
        }
    }

    /// Whether the maze has reached the cell at `index`.
    pub fn contains(&self, index: &usize) -> (reached: bool)
        ensures
            reached == self.visited.holds(*index as int),
    {
        self.visited.contains(*index)
    }

    /// Whether `cell` is the one outside the maze that has exactly `nth`
    /// cells outside the maze before it.
    pub open spec fn is_nth_outside(joined: Seq<bool>, nth: usize, cell: int) -> bool {
        0 <= cell < joined.len() && !joined[cell] && count_down(joined.take(cell)) == nth
    }

    /// The cell outside the maze that has exactly `nth` cells outside the
    /// maze before it.
    pub fn nth_outside(&self, nth: usize) -> (cell: usize)
        requires
            nth < count_down(self.visited.joined@),
        ensures
            Self::is_nth_outside(self.visited.joined@, nth, cell as int),
    {
        let ghost joined = self.visited.joined@;
        let mut seen: usize = 0;
        let mut i: usize = 0;
        while i < self.visited.joined.len()
            invariant
                i <= joined.len(),
                joined == self.visited.joined@,
                seen == count_down(joined.take(i as int)),
                seen <= nth,
                nth < count_down(joined),
            decreases joined.len() - i,
        {
            proof {
                assert(joined.take(i + 1).drop_last() =~= joined.take(i as int));
            }
            if !self.visited.joined[i] {
                if seen == nth {
                    return i;
                }
                seen += 1;
            }
            i += 1;
        }
        proof {
            assert(joined.take(i as int) =~= joined);
        }
        0
    }

    /// What beginning a walk leaves behind: the walk consists of the cell
    /// outside the maze that has `nth` such cells before it.
    pub open spec fn after_begin(&self, board: &Board, nth: usize, then: &Wilson, after: &Board) -> bool {
        &&& *after == *board
        &&& then.visited == self.visited
        &&& then.walk@.len() == 1
        &&& Self::is_nth_outside(self.visited.joined@, nth, then.walk@[0] as int)
        &&& then.current_cell == then.walk@[0]
        &&& !then.done
    }

    /// The position of `cell` in the walk, if it is on it.
    pub fn position(&self, cell: usize) -> (at: Option<usize>)
        ensures
            match at {
                Some(p) => p < self.walk@.len() && self.walk@[p as int] == cell,
                None => !self.walk@.contains(cell),
            },
    {
        let mut k: usize = 0;
        while k < self.walk.len()
            invariant
                k <= self.walk@.len(),
                forall|j: int| 0 <= j < k ==> self.walk@[j] != cell,
            decreases self.walk@.len() - k,
        {
            if self.walk[k] == cell {
                return Some(k);
            }
            k += 1;
        }
        None
    }

    /// What a step of the walk to `next` leaves behind. If `next` is in the
    /// maze, the walk is carved into it from its head back and is over; the
    /// maze is complete if no cell is left. If `next` is on the walk, the
    /// loop that this closes is erased. Otherwise `next` is the new head.
    pub open spec fn after_wander(
        &self,
        board: &Board,
        next: usize,
        then: &Wilson,
        after: &Board,
    ) -> bool {
        let joined = self.visited.joined@;
        &&& then.visited.root == self.visited.root
        &&& after.path@ == board.path@
        &&& after.board_size == board.board_size
        &&& if joined[next as int] {
            &&& after.cells@ == carved_along(board.cells@, self.walk@, next as int)
            &&& then.visited.joined@ == raised_along(joined, self.walk@)
            &&& then.visited.left == self.visited.left - self.walk@.len()
            &&& then.walk@.len() == 0
            &&& then.current_cell == self.walk@[0]
            &&& then.done == (then.visited.left == 0)
            &&& after.finish == (board.finish || then.done)
        } else {
            &&& after.cells@ == board.cells@
            &&& then.visited.joined@ == joined
            &&& then.visited.left == self.visited.left
            &&& then.current_cell == next
            &&& !then.done
            &&& after.finish == board.finish
            &&& if self.walk@.contains(next) {
                then.walk@ == self.walk@.take(self.walk@.index_of(next) + 1)
            } else {
                then.walk@ == self.walk@.push(next)
            }
        }
    }

    /// Whether `then` is this generator but for its dice.
    pub open spec fn same_course(&self, then: &Wilson) -> bool {
        &&& then.visited.joined@ == self.visited.joined@
        &&& then.visited.left == self.visited.left
        &&& then.visited.root == self.visited.root
        &&& then.walk@ == self.walk@
        &&& then.current_cell == self.current_cell
        &&& then.done == self.done
    }

    /// Counting the cells outside the maze from the first cell on never
    /// goes down.
    pub proof fn lemma_count_grows(joined: Seq<bool>, a: int, b: int)
        requires
            0 <= a <= b <= joined.len(),
        ensures
            count_down(joined.take(a)) <= count_down(joined.take(b)),
            a < b && !joined[a] ==> count_down(joined.take(a)) < count_down(joined.take(b)),
        decreases b - a,
    {
        if a < b {
            Self::lemma_count_grows(joined, a + 1, b);
            assert(joined.take(a + 1).drop_last() =~= joined.take(a));
        }
    }

    /// The same draw gives the same step: whatever the dice, two steps
    /// from one state that were decided alike leave the same generator and
    /// the same maze behind.
    pub proof fn lemma_repeatable(
        &self,
        board: &Board,
        nth: usize,
        next: usize,
        then: &Wilson,
        after: &Board,
        again: &Wilson,
        anew: &Board,
    )
        ensures
            self.after_begin(board, nth, then, after) && self.after_begin(board, nth, again, anew)
                ==> then.same_course(again) && after.same_maze(anew),
            self.after_wander(board, next, then, after) && self.after_wander(
                board,
                next,
                again,
                anew,
            ) ==> then.same_course(again) && after.same_maze(anew),
    {
        if self.after_begin(board, nth, then, after) && self.after_begin(board, nth, again, anew) {
            let a = then.walk@[0] as int;
            let b = again.walk@[0] as int;
            if a < b {
                Self::lemma_count_grows(self.visited.joined@, a, b);
            }
            if b < a {
                Self::lemma_count_grows(self.visited.joined@, b, a);
            }
            assert(then.walk@ =~= again.walk@);
        }
        if self.after_wander(board, next, then, after) && self.after_wander(
            board,
            next,
            again,
            anew,
        ) {
            assert(then.walk@ =~= again.walk@);
        }
    }

    /// What one step does with the dice as they stand: a walk begins on
    /// the cell outside the maze at the place that the dice give, and goes
    /// on to the neighbour that they give.
    pub open spec fn drew(&self, board: &Board, then: &Wilson, after: &Board) -> bool {
        let around = board.around(self.current_cell as int);
        if self.done {
            *after == *board && *then == *self
        } else if self.visited.left == 0 {
            &&& then.done
            &&& then.visited.joined@ == self.visited.joined@
            &&& then.visited.left == self.visited.left
            &&& then.visited.root == self.visited.root
            &&& then.walk@ == self.walk@
            &&& then.current_cell == self.current_cell
            &&& then.dice.state() == self.dice.state()
            &&& board.same_grid(after)
            &&& after.path@ == board.path@
            &&& after.finish
        } else if self.walk@.len() == 0 {
            &&& self.after_begin(
                board,
                Dice::below_of(self.dice.state(), self.visited.left),
                then,
                after,
            )
            &&& then.dice.state() == Dice::after_below(self.dice.state(), self.visited.left)
        } else {
            &&& match Dice::pick_of(self.dice.state(), around) {
                Some(next) => self.after_wander(board, next, then, after),
                None => self.same_course(then) && board.same_maze(after),
            }
            &&& then.dice.state() == Dice::after_pick(self.dice.state(), around.len())
        }
    }

    /// Whether `other` stands where this generator stands, with dice in
    /// the same state.
    pub open spec fn alike(&self, other: &Wilson) -> bool {
        self.same_course(other) && other.dice.state() == self.dice.state()
    }

    /// Two generators that stand alike on the same maze take the same
    /// step: they stand alike afterwards, on the same maze.
    pub proof fn lemma_same_step(
        &self,
        board: &Board,
        then: &Wilson,
        after: &Board,
        other: &Wilson,
        maze: &Board,
        again: &Wilson,
        anew: &Board,
    )
        requires
            self.alike(other),
            board.same_maze(maze),
            self.drew(board, then, after),
            other.drew(maze, again, anew),
        ensures
            then.alike(again),
            after.same_maze(anew),
    {
        if !self.done && self.visited.left != 0 && self.walk@.len() == 0 {
            let a = then.walk@[0] as int;
            let b = again.walk@[0] as int;
            if a < b {
                Self::lemma_count_grows(self.visited.joined@, a, b);
            }
            if b < a {
                Self::lemma_count_grows(self.visited.joined@, b, a);
            }
            assert(then.walk@ =~= again.walk@);
        } else if !self.done && self.visited.left != 0 {
            assert(then.walk@ =~= again.walk@);
        }
    }

    /// What one step may do, whatever the dice give.
    pub open spec fn stepped(&self, board: &Board, then: &Wilson, after: &Board) -> bool {
        if self.done {
            *after == *board
        } else if self.visited.left == 0 {
            &&& then.done
            &&& then.visited.joined@ == self.visited.joined@
            &&& then.visited.left == self.visited.left
            &&& then.visited.root == self.visited.root
            &&& then.walk@ == self.walk@
            &&& then.current_cell == self.current_cell
            &&& board.same_grid(after)
            &&& after.path@ == board.path@
            &&& after.finish
        } else if self.walk@.len() == 0 {
            exists|nth: usize|
                nth < self.visited.left && #[trigger] self.after_begin(board, nth, then, after)
        } else {
            exists|next: usize|
                board.around(self.current_cell as int).contains(next) && #[trigger] self.after_wander(
                    board,
                    next,
                    then,
                    after,
                )
        }
    }

    /// The beginning of a walk that the dice have decided.
    pub fn begin_walk(&mut self, board: &Board, nth: usize) -> (state: State)
        requires
            old(self).inv(board),
            !old(self).done,
            old(self).walk@.len() == 0,
            nth < old(self).visited.left,
        ensures
            final(self).inv(board),
            old(self).after_begin(board, nth, final(self), board),
            final(self).dice == old(self).dice,
            state == State::Generate,
    {
        let start: usize = self.nth_outside(nth);
        self.walk.push(start);
        self.current_cell = start;
        proof {
            assert(self.walk@ =~= seq![start]);
        }
        State::Generate
    }

    /// Carves the walk into the maze from its head back, beginning with
    /// the passage from `next` to the head.
    fn carve_walk(&mut self, board: &mut Board, next: usize)
        requires
            old(self).inv(old(board)),
            !old(self).done,
            old(self).walk@.len() > 0,
            old(self).visited.holds(next as int),
            old(board).adjacent(old(self).walk@.last() as int, next as int),
        ensures
            final(self).visited.inv(final(board)),
            old(board).same_place(final(board)),
            final(board).path@ == old(board).path@,
            final(board).finish == old(board).finish,
            final(board).board_size == old(board).board_size,
            final(board).cells@ == carved_along(old(board).cells@, old(self).walk@, next as int),
            final(self).visited.joined@ == raised_along(old(self).visited.joined@, old(self).walk@),
            final(self).visited.left == old(self).visited.left - old(self).walk@.len(),
            final(self).visited.root == old(self).visited.root,
            final(self).walk@.len() == 0,
            final(self).current_cell == old(self).walk@[0],
            final(self).visited.holds(final(self).current_cell as int),
            final(self).done == old(self).done,
            final(self).dice == old(self).dice,
    {
        let mut anchor: usize = next;
        let ghost first = self.walk@[0];
        while self.walk.len() > 0
            invariant
                self.visited.inv(board),
                Self::walk_ok(board, self.visited.joined@, self.walk@),
                self.visited.holds(anchor as int),
                self.walk@.len() > 0 ==> board.adjacent(self.walk@.last() as int, anchor as int)
                    && self.walk@[0] == first,
                self.walk@.len() == 0 ==> anchor == first,
                old(board).same_place(board),
                board.path@ == old(board).path@,
                board.finish == old(board).finish,
                board.board_size == old(board).board_size,
                carved_along(board.cells@, self.walk@, anchor as int) == carved_along(
                    old(board).cells@,
                    old(self).walk@,
                    next as int,
                ),
                raised_along(self.visited.joined@, self.walk@) == raised_along(
                    old(self).visited.joined@,
                    old(self).walk@,
                ),
                self.visited.left - self.walk@.len() == old(self).visited.left - old(
                    self,
                ).walk@.len(),
                self.visited.root == old(self).visited.root,
                self.done == old(self).done,
                self.dice == old(self).dice,
            decreases self.walk@.len(),
        {
            let ghost trail = self.walk@;
            let ghost before = *board;
            let cell: usize = self.walk[self.walk.len() - 1];
            let _ = self.walk.pop();
            proof {
                before.lemma_adjacent_offsets(cell as int, anchor as int);
            }
            self.visited.attach(board, anchor, cell);
            proof {
                before.lemma_carved(anchor as int, cell as int, board);
                assert(self.walk@ =~= trail.drop_last());
                assert forall|k: int| 0 <= k < self.walk@.len() implies board.in_grid(
                    #[trigger] self.walk@[k] as int,
                ) && !self.visited.joined@[self.walk@[k] as int] by {
                    assert(trail[k] != trail[trail.len() - 1]);
                }
                assert forall|k: int| 0 <= k < self.walk@.len() - 1 implies board.adjacent(
                    #[trigger] self.walk@[k] as int,
                    self.walk@[k + 1] as int,
                ) by {
                    assert(before.adjacent(trail[k] as int, trail[k + 1] as int));
                }
                if self.walk@.len() > 0 {
                    let j = trail.len() - 2;
                    assert(before.adjacent(trail[j] as int, trail[j + 1] as int));
                }
            }
            anchor = cell;
        }
        self.current_cell = anchor;
    }

    /// The step of the walk that the dice have decided: on to the
    /// neighbour `next` of its head.
    pub fn wander(&mut self, board: &mut Board, next: usize) -> (state: State)
        requires
            old(self).inv(old(board)),
            !old(self).done,
            old(self).walk@.len() > 0,
            old(board).around(old(self).current_cell as int).contains(next),
        ensures
            final(self).inv(final(board)),
            old(board).same_place(final(board)),
            old(self).after_wander(old(board), next, final(self), final(board)),
            final(self).dice == old(self).dice,
            final(self).done ==> final(board).is_perfect(),
            state == (if final(self).done {
                State::GenerationDone
            } else {
                State::Generate
            }),
    {
        proof {
            board.lemma_around(self.current_cell as int);
        }
        let ghost trail = self.walk@;
        if self.contains(&next) {
            self.carve_walk(board, next);
            if self.visited.is_complete() {
                let ghost carved = *board;
                self.done = true;
                board.finish = true;
                proof {
                    carved.lemma_same_grid(board);
                    self.visited.lemma_complete(board);
                }
                return State::GenerationDone;
            }
            State::Generate
        } else {
            match self.position(next) {
                Some(at) => {
                    assert(at < self.walk.len());
                    self.walk.truncate(at + 1);
                    proof {
                        assert(trail.index_of(next) == at) by {
                            let i = trail.index_of(next);
                            assert(trail[at as int] == next);
                            assert(0 <= i < trail.len() && trail[i] == next);
                        }
                        assert(self.walk@ =~= trail.take(at + 1));
                        assert forall|k: int| 0 <= k < self.walk@.len() - 1 implies board.adjacent(
                            #[trigger] self.walk@[k] as int,
                            self.walk@[k + 1] as int,
                        ) by {
                            assert(board.adjacent(trail[k] as int, trail[k + 1] as int));
                        }
                    }
                },
                None => {
                    self.walk.push(next);
                    proof {
                        lemma_push_contains(trail, next);
                        assert forall|k: int| 0 <= k < self.walk@.len() - 1 implies board.adjacent(
                            #[trigger] self.walk@[k] as int,
                            self.walk@[k + 1] as int,
                        ) by {
                            if k < trail.len() - 1 {
                                assert(board.adjacent(trail[k] as int, trail[k + 1] as int));
                            }
                        }
                    }
                },
            }
            self.current_cell = next;
            State::Generate
        }
    }
}

impl Generator for Wilson {
    open spec fn inv(&self, board: &Board) -> bool {
        &&& self.visited.inv(board)
        &&& board.in_grid(self.current_cell as int)
        &&& Self::walk_ok(board, self.visited.joined@, self.walk@)
        &&& self.walk@.len() > 0 ==> self.walk@.last() == self.current_cell
        &&& self.done ==> self.visited.left == 0 && board.finish
    }

    open spec fn finished(&self) -> bool {
        self.done
    }

    open spec fn thorough(&self) -> bool {
        true
    }

    fn step(&mut self, board: &mut Board) -> (next: State)
        ensures
            old(self).stepped(old(board), final(self), final(board)),
            old(self).drew(old(board), final(self), final(board)),
    {
        if self.done {
            proof {
                self.visited.lemma_complete(board);
            }
            return State::GenerationDone;
        }
        if self.visited.is_complete() {
            let ghost before = *board;
            self.done = true;
            board.finish = true;
            proof {
                before.lemma_same_grid(board);
                self.visited.lemma_complete(board);
                assert(Self::walk_ok(board, self.visited.joined@, self.walk@)) by {
                    assert forall|k: int| 0 <= k < self.walk@.len() - 1 implies board.adjacent(
                        #[trigger] self.walk@[k] as int,
                        self.walk@[k + 1] as int,
                    ) by {
                        assert(before.adjacent(self.walk@[k] as int, self.walk@[k + 1] as int));
                    }
                }
            }
            return State::GenerationDone;
        }
        if self.walk.len() == 0 {
            let nth: usize = self.dice.below(self.visited.left);
            let state = self.begin_walk(board, nth);
            proof {
                assert(old(self).after_begin(old(board), nth, self, board));
            }
            return state;
        }
        let neighbors = board.neighbors_of(self.current_cell);
        proof {
            if board.board_size < 2 {
                assert(board.cells@.len() == 1) by (nonlinear_arith)
                    requires
                        board.cells@.len() == board.board_size * board.board_size,
                        board.board_size == 1,
                ;
                assert(self.visited.joined@[self.visited.root as int]);
                assert(!self.visited.joined@[self.walk@[0] as int]);
            }
        }
        match self.dice.pick(&neighbors) {
            Some(next) => {
                let state = self.wander(board, next);
                proof {
                    assert(old(self).after_wander(old(board), next, self, board));
                }
                state
            },
            None => State::Generate,
        }
    }

    fn draw(&self, board: &Board) {
    }

    proof fn lemma_finished(&self, board: &Board) {
        self.visited.lemma_complete(board);
    }
}

} // verus!
