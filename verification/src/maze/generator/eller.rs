//! Eller's algorithm: row by row, join neighbours in the row at random, then
//! let every class of the row reach down into the next one. The last row
//! joins whatever is still apart.

use crate::maze::dice::Dice;
use crate::maze::generator::lemma_push_contains;
use crate::maze::graph::{merged_labels, own_labels};
use crate::maze::partition::Partition;
use crate::maze::{lemma_index_bounds, Board, Generator, State};
use vstd::prelude::*;

verus! {

/// What the generator does with the current row.
#[derive(Debug, Clone, Copy, PartialEq, Eq, Structural)]
pub enum Stage {
    /// Joining cells to their right neighbour.
    Merge,
    /// Opening passages to the row below at random.
    Bottom,
    /// Giving each class of the row that has no passage down one.
    Close,
}

pub struct Eller {
    pub x: i32,
    pub y: i32,
    pub merged: Partition,
    pub state: Stage,
    pub done: bool,
    pub dice: Dice,
}

impl Eller {
    /// Whether cell `i` shares its class with some cell of row `y`.
    pub open spec fn reaches(board: &Board, labels: Seq<int>, i: int, y: int) -> bool {
        exists|x2: int|
            0 <= x2 < board.board_size && labels[i] == labels[#[trigger] board.slot(x2, y)]
    }

    /// Whether the class of cell `i` has a member in row `y` that shares
    /// its class with the cell below it.
    pub open spec fn roped(board: &Board, labels: Seq<int>, i: int, y: int) -> bool {
        exists|x2: int|
            0 <= x2 < board.board_size && labels[i] == labels[#[trigger] board.slot(x2, y)]
                && labels[board.slot(x2, y)] == labels[board.slot(x2, y + 1)]
    }

    /// Every cell above row `y` shares its class with some cell of row `y`.
    pub open spec fn above_reach(board: &Board, labels: Seq<int>, y: int) -> bool {
        forall|i: int|
            board.in_grid(i) && board.cells@[i].y < y ==> #[trigger] Self::reaches(
                board,
                labels,
                i,
                y,
            )
    }

    /// In row `y`, the class of every cell left of column `x` reaches down.
    pub open spec fn left_roped(board: &Board, labels: Seq<int>, x: int, y: int) -> bool {
        forall|i: int|
            board.in_grid(i) && board.cells@[i].y == y && board.cells@[i].x < x
                ==> #[trigger] Self::roped(board, labels, i, y)
    }

    /// In row `y`, the cells up to column `x` are all in one class.
    pub open spec fn left_level(board: &Board, labels: Seq<int>, x: int, y: int) -> bool {
        forall|x2: int|
            0 <= x2 <= x && x2 < board.board_size ==> labels[#[trigger] board.slot(x2, y)]
                == labels[board.slot(0, y)]
    }

    /// What has been achieved so far, by stage: the rows above hang on the
    /// current row; while closing, so do the classes left of the cursor on
    /// the next; and in the last row, the cells up to the cursor are one
    /// class.
    pub open spec fn course(
        board: &Board,
        labels: Seq<int>,
        state: Stage,
        x: int,
        y: int,
    ) -> bool {
        &&& Self::above_reach(board, labels, y)
        &&& state == Stage::Close ==> Self::left_roped(board, labels, x, y)
        &&& state == Stage::Merge && y == board.board_size - 1 ==> Self::left_level(
            board,
            labels,
            x,
            y,
        )
    }

    /// Where the cursor may stand, by stage.
    pub open spec fn cursor_fits(&self, board: &Board) -> bool {
        let n = board.board_size;
        &&& 0 <= self.x < n
        &&& 0 <= self.y < n
        &&& match self.state {
            Stage::Merge => self.x + 1 < n || (n == 1 && self.x == 0 && self.y == 0),
            Stage::Bottom => self.y + 1 < n,
            Stage::Close => self.y + 1 < n,
        }
    }

    /// Joining two classes keeps what has been achieved.
    pub proof fn lemma_course_merged(
        board: &Board,
        labels: Seq<int>,
        from: int,
        to: int,
        state: Stage,
        x: int,
        y: int,
    )
        requires
            board.shaped(),
            labels.len() == board.cells@.len(),
            0 <= y < board.board_size,
            state != Stage::Merge ==> y + 1 < board.board_size,
            Self::course(board, labels, state, x, y),
        ensures
            Self::course(board, merged_labels(labels, from, to), state, x, y),
    {
        let n = board.board_size as int;
        let merged = merged_labels(labels, from, to);
        assert forall|i: int| board.in_grid(i) && board.cells@[i].y < y implies #[trigger] Self::reaches(
            board,
            merged,
            i,
            y,
        ) by {
            assert(Self::reaches(board, labels, i, y));
            let x2 = choose|x2: int|
                0 <= x2 < board.board_size && labels[i] == labels[#[trigger] board.slot(x2, y)];
            lemma_index_bounds(n, x2, y);
            assert(merged[i] == merged[board.slot(x2, y)]);
        }
        if state == Stage::Close {
            assert forall|i: int|
                board.in_grid(i) && board.cells@[i].y == y && board.cells@[i].x
                    < x implies #[trigger] Self::roped(board, merged, i, y) by {
                assert(Self::roped(board, labels, i, y));
                let x2 = choose|x2: int|
                    0 <= x2 < board.board_size && labels[i] == labels[#[trigger] board.slot(x2, y)]
                        && labels[board.slot(x2, y)] == labels[board.slot(x2, y + 1)];
                lemma_index_bounds(n, x2, y);
                lemma_index_bounds(n, x2, y + 1);
                assert(merged[i] == merged[board.slot(x2, y)] && merged[board.slot(x2, y)]
                    == merged[board.slot(x2, y + 1)]);
            }
        }
        if state == Stage::Merge && y == n - 1 {
            assert forall|x2: int| 0 <= x2 <= x && x2 < n implies merged[#[trigger] board.slot(
                x2,
                y,
            )] == merged[board.slot(0, y)] by {
                lemma_index_bounds(n, x2, y);
                lemma_index_bounds(n, 0, y);
                assert(labels[board.slot(x2, y)] == labels[board.slot(0, y)]);
            }
        }
    }

    /// The cells of row `y` in the columns before `k` that share the class
    /// of cell `a`, from the left.
    pub open spec fn member_seq(board: &Board, labels: Seq<int>, a: int, y: int, k: int) -> Seq<
        usize,
    >
        decreases k,
    {
        if k <= 0 {
            Seq::empty()
        } else {
            let rest = Self::member_seq(board, labels, a, y, k - 1);
            if labels[board.slot(k - 1, y)] == labels[a] {
                rest.push(board.slot(k - 1, y) as usize)
            } else {
                rest
            }
        }
    }

    /// What `member_seq` lists.
    pub proof fn lemma_member_seq(board: &Board, labels: Seq<int>, a: int, y: int, k: int)
        requires
            board.shaped(),
            0 <= y < board.board_size,
            0 <= k <= board.board_size,
        ensures
            forall|c: usize| #[trigger]
                Self::member_seq(board, labels, a, y, k).contains(c) <==> exists|x2: int|
                    0 <= x2 < k && c == #[trigger] board.slot(x2, y) && labels[board.slot(x2, y)]
                        == labels[a],
        decreases k,
    {
        if k > 0 {
            Self::lemma_member_seq(board, labels, a, y, k - 1);
            let rest = Self::member_seq(board, labels, a, y, k - 1);
            let all = Self::member_seq(board, labels, a, y, k);
            let last = board.slot(k - 1, y);
            lemma_index_bounds(board.board_size as int, k - 1, y);
            lemma_push_contains(rest, last as usize);
            assert forall|c: usize| #[trigger] all.contains(c) <==> exists|x2: int|
                0 <= x2 < k && c == #[trigger] board.slot(x2, y) && labels[board.slot(x2, y)]
                    == labels[a] by {
                if all.contains(c) {
                    if rest.contains(c) {
                        let x2 = choose|x2: int|
                            0 <= x2 < k - 1 && c == #[trigger] board.slot(x2, y)
                                && labels[board.slot(x2, y)] == labels[a];
                        assert(0 <= x2 < k && c == board.slot(x2, y));
                    } else {
                        assert(c == board.slot(k - 1, y));
                    }
                }
                if exists|x2: int|
                    0 <= x2 < k && c == #[trigger] board.slot(x2, y) && labels[board.slot(x2, y)]
                        == labels[a] {
                    let x2 = choose|x2: int|
                        0 <= x2 < k && c == #[trigger] board.slot(x2, y) && labels[board.slot(
                            x2,
                            y,
                        )] == labels[a];
                    if x2 < k - 1 {
                        assert(rest.contains(c));
                    }
                }
            }
        }
    }

    /// The cells among which the closing stage must choose one to open
    /// downwards: the members of the class of the cell under the cursor in
    /// its row, if none of them shares its class with the cell below it;
    /// none otherwise.
    pub open spec fn orphan_seq(&self, board: &Board) -> Seq<usize> {
        let a = board.slot(self.x as int, self.y as int);
        if Self::roped(board, self.merged.labels(), a, self.y as int) {
            Seq::empty()
        } else {
            Self::member_seq(
                board,
                self.merged.labels(),
                a,
                self.y as int,
                board.board_size as int,
            )
        }
    }

    /// The cells among which the closing stage must choose.
    pub fn orphans(&self, board: &Board) -> (members: Vec<usize>)
        requires
            self.inv(board),
            !self.done,
            self.state == Stage::Close,
        ensures
            members@ == self.orphan_seq(board),
    {
        let n: i32 = board.board_size;
        let here: usize = board.get_index(self.x, self.y) as usize;
        let ghost labels = self.merged.labels();
        let ghost a = here as int;
        let ghost y = self.y as int;
        let mut members: Vec<usize> = Vec::new();
        let mut linked: bool = false;
        let mut k: i32 = 0;
        while k < n
            invariant
                0 <= k <= n,
                n == board.board_size,
                board.shaped(),
                self.merged.wf(),
                self.merged.len() == board.cells@.len(),
                labels == self.merged.labels(),
                0 <= self.y,
                self.y + 1 < n,
                y == self.y,
                a == here,
                board.in_grid(a),
                members@ == Self::member_seq(board, labels, a, y, k as int),
                linked == exists|x2: int|
                    0 <= x2 < k && labels[a] == labels[#[trigger] board.slot(x2, y)]
                        && labels[board.slot(x2, y)] == labels[board.slot(x2, y + 1)],
            decreases n - k,
        {
            let cell: usize = board.get_index(k, self.y) as usize;
            if self.merged.same(cell, here) {
                members.push(cell);
                let below: usize = board.get_index(k, self.y + 1) as usize;
                if self.merged.same(cell, below) {
                    linked = true;
                }
            }
            proof {
                let k1 = k + 1;
                if linked {
                    if labels[a] == labels[board.slot(k as int, y)] && labels[board.slot(
                        k as int,
                        y,
                    )] == labels[board.slot(k as int, y + 1)] {
                        assert(0 <= k < k1);
                    } else {
                        let x2 = choose|x2: int|
                            0 <= x2 < k && labels[a] == labels[#[trigger] board.slot(x2, y)]
                                && labels[board.slot(x2, y)] == labels[board.slot(x2, y + 1)];
                        assert(0 <= x2 < k1);
                    }
                } else {
                    assert forall|x2: int| 0 <= x2 < k1 implies !(labels[a]
                        == labels[#[trigger] board.slot(x2, y)] && labels[board.slot(x2, y)]
                        == labels[board.slot(x2, y + 1)]) by {
                        if x2 < k {
                        }
                    }
                }
            }
            k += 1;
        }
        if linked {
            Vec::new()
        } else {
            members
        }
    }

    /// How a generator starts out: at the top left, merging, with every
    /// cell in a class of its own.
    pub open spec fn begins(&self, board: &Board) -> bool {
        &&& self.x == 0
        &&& self.y == 0
        &&& self.state == Stage::Merge
        &&& self.merged.labels() == own_labels(board.cells@.len())
        &&& !self.done
    }

    /// A generator for `board` that draws from the thread's source of
    /// randomness.
    pub fn new(board: &Board) -> (generator: Self)
        requires
            board.wf(),
            board.walled(),
        ensures
            generator.inv(board),
            generator.begins(board),
    {
        Self::with_dice(board, Dice::fresh())
    }

    /// A generator for `board` that draws from `dice`.
    pub fn with_dice(board: &Board, dice: Dice) -> (generator: Self)
        requires
            board.wf(),
            board.walled(),
        ensures
            generator.inv(board),
            generator.begins(board),
            generator.dice == dice,
    {
        proof {
            board.lemma_walled_forest();
            let labels = own_labels(board.cells@.len());
            assert(Self::left_level(board, labels, 0, 0));
        }
        Self {
            x: 0,
            y: 0,
            merged: Partition::new(board.cells.len()),
            state: Stage::Merge,
            done: false,
            dice,
        }
    }

    /// Whether `then` and `after` are this generator and `board` with the
    /// wall between `a` and `b` opened and their classes made one.
    pub open spec fn joins(
        &self,
        board: &Board,
        a: int,
        b: int,
        then: &Eller,
        after: &Board,
    ) -> bool {
        let labels = self.merged.labels();
        &&& board.carved_into(a, b, after)
        &&& then.merged.labels() == merged_labels(labels, labels[b], labels[a])
    }

    /// Whether `then` and `after` have the cells and classes of this
    /// generator and `board`.
    pub open spec fn keeps(&self, board: &Board, then: &Eller, after: &Board) -> bool {
        &&& board.same_grid(after)
        &&& then.merged.labels() == self.merged.labels()
    }

    /// What a merging step leaves behind. The cell under the cursor is
    /// joined to its right neighbour unless they share a class already, if
    /// the coin says so or the row is the last. The cursor moves right; at
    /// the end of the row the stage changes, and at the end of the last row
    /// the maze is complete.
    pub open spec fn after_merge(
        &self,
        board: &Board,
        coin: bool,
        then: &Eller,
        after: &Board,
    ) -> bool {
        let n = board.board_size;
        let labels = self.merged.labels();
        let a = board.slot(self.x as int, self.y as int);
        let b = board.slot(self.x + 1, self.y as int);
        let row_ends = self.x + 1 >= n - 1;
        &&& if labels[a] != labels[b] && (coin || self.y >= n - 1) {
            self.joins(board, a, b, then, after)
        } else {
            self.keeps(board, then, after)
        }
        &&& then.x == (if row_ends {
            0
        } else {
            self.x + 1
        })
        &&& then.y == self.y
        &&& then.state == (if row_ends && self.y < n - 1 {
            Stage::Bottom
        } else {
            Stage::Merge
        })
        &&& then.done == (row_ends && self.y >= n - 1)
        &&& after.path@ == board.path@
        &&& after.finish == (board.finish || then.done)
    }

    /// What a step of the random descent leaves behind. The cell under the
    /// cursor is joined to the one below it if the coin says so and they
    /// are not in one class yet. The cursor moves right, and at the end of
    /// the row the closing stage begins.
    pub open spec fn after_descend(
        &self,
        board: &Board,
        coin: bool,
        then: &Eller,
        after: &Board,
    ) -> bool {
        let n = board.board_size;
        let labels = self.merged.labels();
        let a = board.slot(self.x as int, self.y as int);
        let b = board.slot(self.x as int, self.y + 1);
        let row_ends = self.x + 1 >= n;
        &&& if labels[a] != labels[b] && coin {
            self.joins(board, a, b, then, after)
        } else {
            self.keeps(board, then, after)
        }
        &&& then.x == (if row_ends {
            0
        } else {
            self.x + 1
        })
        &&& then.y == self.y
        &&& then.state == (if row_ends {
            Stage::Close
        } else {
            Stage::Bottom
        })
        &&& !then.done
        &&& after.path@ == board.path@
        &&& after.finish == board.finish
    }

    /// What a closing step leaves behind. The chosen member of a class
    /// without a passage down, if there is one, is joined to the cell below
    /// it. The cursor moves right, and at the end of the row the next row
    /// begins.
    pub open spec fn after_close(
        &self,
        board: &Board,
        member: Option<usize>,
        then: &Eller,
        after: &Board,
    ) -> bool {
        let n = board.board_size;
        let row_ends = self.x + 1 >= n;
        &&& match member {
            Some(m) => self.joins(board, m as int, m + 1, then, after),
            None => self.keeps(board, then, after),
        }
        &&& then.x == (if row_ends {
            0
        } else {
            self.x + 1
        })
        &&& then.y == (if row_ends {
            self.y + 1
        } else {
            self.y as int
        })
        &&& then.state == (if row_ends {
            Stage::Merge
        } else {
            Stage::Close
        })
        &&& !then.done
        &&& after.path@ == board.path@
        &&& after.finish == board.finish
    }

    /// Whether `member` may have been chosen among the orphans: one of
    /// them, or none where there are none.
    pub open spec fn chosen_among(orphans: Seq<usize>, member: Option<usize>) -> bool {
        match member {
            Some(m) => orphans.contains(m),
            None => orphans.len() == 0,
        }
    }

    /// Whether `then` is this generator but for its dice.
    pub open spec fn same_course(&self, then: &Eller) -> bool {
        &&& then.x == self.x
        &&& then.y == self.y
        &&& then.state == self.state
        &&& then.done == self.done
        &&& then.merged.labels() == self.merged.labels()
    }

    /// The same draw gives the same step: whatever the dice, two steps
    /// from one state that were decided alike leave the same generator and
    /// the same maze behind.
    pub proof fn lemma_repeatable(
        &self,
        board: &Board,
        coin: bool,
        member: Option<usize>,
        then: &Eller,
        after: &Board,
        again: &Eller,
        anew: &Board,
    )
        ensures
            self.after_merge(board, coin, then, after) && self.after_merge(board, coin, again, anew)
                ==> then.same_course(again) && after.same_maze(anew),
            self.after_descend(board, coin, then, after) && self.after_descend(
                board,
                coin,
                again,
                anew,
            ) ==> then.same_course(again) && after.same_maze(anew),
            self.after_close(board, member, then, after) && self.after_close(
                board,
                member,
                again,
                anew,
            ) ==> then.same_course(again) && after.same_maze(anew),
    {
    }

    /// What one step does with the dice as they stand: the coin decides
    /// whether two classes are merged and whether a cell opens downwards,
    /// and the orphan that opens downwards is the one that the dice give.
    pub open spec fn drew(&self, board: &Board, then: &Eller, after: &Board) -> bool {
        let orphans = self.orphan_seq(board);
        if self.done {
            *after == *board && *then == *self
        } else if board.board_size == 1 {
            &&& self.keeps(board, then, after)
            &&& then.x == self.x
            &&& then.y == self.y
            &&& then.state == self.state
            &&& then.done
            &&& then.dice.state() == self.dice.state()
            &&& after.path@ == board.path@
            &&& after.finish
        } else {
            match self.state {
                Stage::Merge => {
                    &&& self.after_merge(board, Dice::coin_of(self.dice.state()), then, after)
                    &&& then.dice.state() == Dice::after_coin(self.dice.state())
                },
                Stage::Bottom => {
                    &&& self.after_descend(board, Dice::coin_of(self.dice.state()), then, after)
                    &&& then.dice.state() == Dice::after_coin(self.dice.state())
                },
                Stage::Close => {
                    &&& self.after_close(
                        board,
                        Dice::pick_of(self.dice.state(), orphans),
                        then,
                        after,
                    )
                    &&& then.dice.state() == Dice::after_pick(self.dice.state(), orphans.len())
                },
            }
        }
    }

    /// Whether `other` stands where this generator stands, with dice in
    /// the same state.
    pub open spec fn alike(&self, other: &Eller) -> bool {
        self.same_course(other) && other.dice.state() == self.dice.state()
    }

    /// Two generators that stand alike on the same maze take the same
    /// step: they stand alike afterwards, on the same maze.
    pub proof fn lemma_same_step(
        &self,
        board: &Board,
        then: &Eller,
        after: &Board,
        other: &Eller,
        maze: &Board,
        again: &Eller,
        anew: &Board,
    )
        requires
            self.alike(other),
            board.same_maze(maze),
            self.drew(board, then, after),
            other.drew(maze, again, anew),
        ensures
            then.alike(again),
            after.same_maze(anew),
    {
        let labels = self.merged.labels();
        let a = board.slot(self.x as int, self.y as int);
        Self::lemma_members_alike(board, maze, labels, a, self.y as int, board.board_size as int);
        if Self::roped(board, labels, a, self.y as int) {
            let x2 = choose|x2: int|
                0 <= x2 < board.board_size && labels[a] == labels[#[trigger] board.slot(
                    x2,
                    self.y as int,
                )] && labels[board.slot(x2, self.y as int)] == labels[board.slot(x2, self.y + 1)];
            assert(labels[a] == labels[maze.slot(x2, self.y as int)]);
        }
        if Self::roped(maze, labels, a, self.y as int) {
            let x2 = choose|x2: int|
                0 <= x2 < maze.board_size && labels[a] == labels[#[trigger] maze.slot(
                    x2,
                    self.y as int,
                )] && labels[maze.slot(x2, self.y as int)] == labels[maze.slot(x2, self.y + 1)];
            assert(labels[a] == labels[board.slot(x2, self.y as int)]);
        }
        assert(self.orphan_seq(board) == other.orphan_seq(maze));
    }

    /// Boards of one size list the same members of a class in a row.
    pub proof fn lemma_members_alike(
        board: &Board,
        maze: &Board,
        labels: Seq<int>,
        a: int,
        y: int,
        k: int,
    )
        requires
            board.board_size == maze.board_size,
        ensures
            Self::member_seq(board, labels, a, y, k) == Self::member_seq(maze, labels, a, y, k),
        decreases k,
    {
        if k > 0 {
            Self::lemma_members_alike(board, maze, labels, a, y, k - 1);
        }
    }

    /// What one step may do, whatever the dice give.
    pub open spec fn stepped(&self, board: &Board, then: &Eller, after: &Board) -> bool {
        if self.done {
            *after == *board
        } else if board.board_size == 1 {
            &&& self.keeps(board, then, after)
            &&& then.x == self.x
            &&& then.y == self.y
            &&& then.state == self.state
            &&& then.done
            &&& after.path@ == board.path@
            &&& after.finish
        } else {
            match self.state {
                Stage::Merge => exists|coin: bool| #[trigger]
                    self.after_merge(board, coin, then, after),
                Stage::Bottom => exists|coin: bool| #[trigger]
                    self.after_descend(board, coin, then, after),
                Stage::Close => exists|member: Option<usize>|
                    Self::chosen_among(self.orphan_seq(board), member) && #[trigger] self.after_close(
                        board,
                        member,
                        then,
                        after,
                    ),
            }
        }
    }

    /// Opens the wall between the neighbours `a` and `b` and makes their
    /// classes one, if they are in different classes and `wanted` is set.
    fn link(&mut self, board: &mut Board, a: usize, b: usize, wanted: bool)
        requires
            old(self).inv(old(board)),
            !old(self).done,
            old(board).adjacent(a as int, b as int),
        ensures
            final(self).merged.wf(),
            final(board).forest(final(self).merged.labels()),
            old(board).same_place(final(board)),
            final(board).path@ == old(board).path@,
            final(board).finish == old(board).finish,
            final(self).x == old(self).x,
            final(self).y == old(self).y,
            final(self).state == old(self).state,
            final(self).done == old(self).done,
            final(self).dice == old(self).dice,
            final(self).merged.labels()[a as int] == final(self).merged.labels()[b as int] || !wanted,
            Self::course(
                final(board),
                final(self).merged.labels(),
                old(self).state,
                old(self).x as int,
                old(self).y as int,
            ),
            if old(self).merged.labels()[a as int] != old(self).merged.labels()[b as int]
                && wanted {
                old(self).joins(old(board), a as int, b as int, final(self), final(board))
            } else {
                old(self).keeps(old(board), final(self), final(board))
            },
    {
        let ghost labels = self.merged.labels();
        if wanted && !self.merged.same(a, b) {
            self.merged.unite(a, b);
            board.remove_wall(a, b);
            proof {
                old(board).lemma_join(labels, a as int, b as int, board);
                Self::lemma_course_merged(
                    old(board),
                    labels,
                    labels[b as int],
                    labels[a as int],
                    self.state,
                    self.x as int,
                    self.y as int,
                );
                Self::lemma_course_moved(
                    old(board),
                    board,
                    self.merged.labels(),
                    self.state,
                    self.x as int,
                    self.y as int,
                );
            }
        }
    }

    /// What has been achieved depends on the board by its grid alone.
    pub proof fn lemma_course_moved(
        board: &Board,
        other: &Board,
        labels: Seq<int>,
        state: Stage,
        x: int,
        y: int,
    )
        requires
            other.board_size == board.board_size,
            other.cells@.len() == board.cells@.len(),
            forall|i: int|
                board.in_grid(i) ==> (#[trigger] other.cells@[i]).x == board.cells@[i].x
                    && other.cells@[i].y == board.cells@[i].y,
            Self::course(board, labels, state, x, y),
        ensures
            Self::course(other, labels, state, x, y),
    {
        assert forall|i: int| other.in_grid(i) && other.cells@[i].y < y implies #[trigger] Self::reaches(
            other,
            labels,
            i,
            y,
        ) by {
            assert(Self::reaches(board, labels, i, y));
            let x2 = choose|x2: int|
                0 <= x2 < board.board_size && labels[i] == labels[#[trigger] board.slot(x2, y)];
            assert(other.slot(x2, y) == board.slot(x2, y));
        }
        if state == Stage::Close {
            assert forall|i: int|
                other.in_grid(i) && other.cells@[i].y == y && other.cells@[i].x
                    < x implies #[trigger] Self::roped(other, labels, i, y) by {
                assert(Self::roped(board, labels, i, y));
                let x2 = choose|x2: int|
                    0 <= x2 < board.board_size && labels[i] == labels[#[trigger] board.slot(x2, y)]
                        && labels[board.slot(x2, y)] == labels[board.slot(x2, y + 1)];
                assert(other.slot(x2, y) == board.slot(x2, y));
                assert(other.slot(x2, y + 1) == board.slot(x2, y + 1));
            }
        }
        if state == Stage::Merge && y == board.board_size - 1 {
            assert forall|x2: int|
                0 <= x2 <= x && x2 < other.board_size implies labels[#[trigger] other.slot(x2, y)]
                == labels[other.slot(0, y)] by {
                assert(labels[board.slot(x2, y)] == labels[board.slot(0, y)]);
            }
        }
    }

    /// With the last row in one class and every row above hanging on it,
    /// all cells are in one class.
    pub proof fn lemma_all_level(board: &Board, labels: Seq<int>)
        requires
            board.shaped(),
            labels.len() == board.cells@.len(),
            Self::above_reach(board, labels, board.board_size - 1),
            Self::left_level(board, labels, board.board_size - 1, board.board_size - 1),
        ensures
            forall|i: int| 0 <= i < labels.len() ==> #[trigger] labels[i] == labels[0],
    {
        let n = board.board_size as int;
        let y = n - 1;
        let base = labels[board.slot(0, y)];
        assert forall|i: int| 0 <= i < labels.len() implies #[trigger] labels[i] == base by {
            let c = board.cells@[i];
            if c.y < y {
                assert(Self::reaches(board, labels, i, y));
                let x2 = choose|x2: int|
                    0 <= x2 < board.board_size && labels[i] == labels[#[trigger] board.slot(x2, y)];
                assert(labels[board.slot(x2, y)] == base);
            } else {
                assert(i == board.slot(c.x as int, y));
            }
        }
    }

    /// The merging step that the dice have decided.
    pub fn merge(&mut self, board: &mut Board, coin: bool) -> (state: State)
        requires
            old(self).inv(old(board)),
            !old(self).done,
            old(self).state == Stage::Merge,
            old(board).board_size > 1,
        ensures
            final(self).inv(final(board)),
            old(board).same_place(final(board)),
            old(self).after_merge(old(board), coin, final(self), final(board)),
            final(self).dice == old(self).dice,
            final(self).done ==> final(board).is_perfect(),
            state == (if final(self).done {
                State::GenerationDone
            } else {
                State::Generate
            }),
    {
        let n: i32 = board.board_size;
        let last_row: bool = self.y >= n - 1;
        let cell: usize = board.get_index(self.x, self.y) as usize;
        let neighbor: usize = board.get_index(self.x + 1, self.y) as usize;
        assert(board.adjacent(cell as int, neighbor as int));
        self.link(board, cell, neighbor, coin || last_row);
        let ghost labels = self.merged.labels();
        proof {
            assert(board.slot(self.x as int, self.y as int) == old(board).slot(
                self.x as int,
                self.y as int,
            ));
            assert(board.slot(self.x + 1, self.y as int) == old(board).slot(
                self.x + 1,
                self.y as int,
            ));
            if last_row {
                assert forall|x2: int|
                    0 <= x2 <= self.x + 1 && x2 < n implies labels[#[trigger] board.slot(
                    x2,
                    self.y as int,
                )] == labels[board.slot(0, self.y as int)] by {
                    if x2 <= self.x {
                    } else {
                        assert(labels[board.slot(self.x as int, self.y as int)] == labels[board.slot(
                            0,
                            self.y as int,
                        )]);
                    }
                }
            }
        }
        self.x = self.x + 1;
        if self.x >= n - 1 {
            self.x = 0;
            if last_row {
                let ghost linked = *board;
                self.done = true;
                board.finish = true;
                proof {
                    Self::lemma_all_level(&linked, labels);
                    linked.lemma_single_tree(labels);
                    linked.lemma_same_grid(board);
                    Self::lemma_course_moved(&linked, board, labels, self.state, 0, self.y as int);
                }
                return State::GenerationDone;
            }
            self.state = Stage::Bottom;
        }
        State::Generate
    }

    /// The step of the random descent that the dice have decided.
    pub fn descend(&mut self, board: &mut Board, coin: bool) -> (state: State)
        requires
            old(self).inv(old(board)),
            !old(self).done,
            old(self).state == Stage::Bottom,
        ensures
            final(self).inv(final(board)),
            old(board).same_place(final(board)),
            old(self).after_descend(old(board), coin, final(self), final(board)),
            final(self).dice == old(self).dice,
            state == State::Generate,
    {
        let n: i32 = board.board_size;
        let cell: usize = board.get_index(self.x, self.y) as usize;
        let neighbor: usize = board.get_index(self.x, self.y + 1) as usize;
        assert(board.adjacent(cell as int, neighbor as int));
        self.link(board, cell, neighbor, coin);
        proof {
            assert(board.slot(self.x as int, self.y as int) == old(board).slot(
                self.x as int,
                self.y as int,
            ));
            assert(board.slot(self.x as int, self.y + 1) == old(board).slot(
                self.x as int,
                self.y + 1,
            ));
        }
        self.x = self.x + 1;
        if self.x >= n {
            self.x = 0;
            self.state = Stage::Close;
        }
        State::Generate
    }

    /// The closing step that the dice have decided: `member` is the cell
    /// chosen among the orphans, if there are any.
    pub fn close(&mut self, board: &mut Board, member: Option<usize>) -> (state: State)
        requires
            old(self).inv(old(board)),
            !old(self).done,
            old(self).state == Stage::Close,
            Self::chosen_among(old(self).orphan_seq(old(board)), member),
        ensures
            final(self).inv(final(board)),
            old(board).same_place(final(board)),
            old(self).after_close(old(board), member, final(self), final(board)),
            final(self).dice == old(self).dice,
            state == State::Generate,
    {
        let n: i32 = board.board_size;
        let ghost before = self.merged.labels();
        let ghost y = self.y as int;
        let ghost a = board.slot(self.x as int, y);
        proof {
            Self::lemma_member_seq(board, before, a, y, n as int);
            lemma_index_bounds(n as int, self.x as int, y);
        }
        match member {
            Some(m) => {
                let ghost x2 = choose|x2: int|
                    0 <= x2 < n && m == #[trigger] board.slot(x2, y) && before[board.slot(x2, y)]
                        == before[a];
                proof {
                    lemma_index_bounds(n as int, x2, y);
                    lemma_index_bounds(n as int, x2, y + 1);
                    board.lemma_neighbors(m as int);
                    assert(board.cells@[m as int].y == y) by {
                        let c = board.cells@[m as int];
                        crate::maze::lemma_coords_unique(n as int, c.x as int, c.y as int, x2, y);
                    }
                    assert(board.adjacent(m as int, m + 1));
                    assert(m + 1 == board.slot(x2, y + 1));
                }
                self.link(board, m, m + 1, true);
                proof {
                    let now = self.merged.labels();
                    assert(board.slot(x2, y) == m);
                    assert(board.slot(x2, y + 1) == m + 1);
                    assert(now[m as int] == now[a]);
                    assert(now[m as int] == now[m + 1]);
                    assert(Self::roped(board, now, a, y));
                }
            },
            None => {
                proof {
                    if !Self::roped(board, before, a, y) {
                        let all = Self::member_seq(board, before, a, y, n as int);
                        assert(a == board.slot(self.x as int, y));
                        assert(all.contains(a as usize));
                    }
                }
            },
        }
        proof {
            let now = self.merged.labels();
            assert(Self::roped(board, now, a, y)) by {
                if member is None {
                    let x2 = choose|x2: int|
                        0 <= x2 < old(board).board_size && before[a] == before[#[trigger] old(
                            board,
                        ).slot(x2, y)] && before[old(board).slot(x2, y)] == before[old(
                            board,
                        ).slot(x2, y + 1)];
                    assert(board.slot(x2, y) == old(board).slot(x2, y));
                    assert(board.slot(x2, y + 1) == old(board).slot(x2, y + 1));
                }
            }
            assert forall|i: int|
                board.in_grid(i) && board.cells@[i].y == y && board.cells@[i].x < self.x
                    + 1 implies #[trigger] Self::roped(board, now, i, y) by {
                if board.cells@[i].x == self.x {
                    assert(i == a);
                }
            }
        }
        self.x = self.x + 1;
        if self.x >= n {
            proof {
                let now = self.merged.labels();
                assert forall|i: int|
                    board.in_grid(i) && board.cells@[i].y < y + 1 implies #[trigger] Self::reaches(
                    board,
                    now,
                    i,
                    y + 1,
                ) by {
                    if board.cells@[i].y == y {
                        assert(Self::roped(board, now, i, y));
                        let x2 = choose|x2: int|
                            0 <= x2 < board.board_size && now[i] == now[#[trigger] board.slot(
                                x2,
                                y,
                            )] && now[board.slot(x2, y)] == now[board.slot(x2, y + 1)];
                        assert(now[i] == now[board.slot(x2, y + 1)]);
                    } else {
                        assert(Self::reaches(board, now, i, y));
                        let x1 = choose|x1: int|
                            0 <= x1 < board.board_size && now[i] == now[#[trigger] board.slot(
                                x1,
                                y,
                            )];
                        let j = board.slot(x1, y);
                        lemma_index_bounds(n as int, x1, y);
                        let cj = board.cells@[j];
                        crate::maze::lemma_coords_unique(n as int, cj.x as int, cj.y as int, x1, y);
                        assert(Self::roped(board, now, j, y));
                        let x2 = choose|x2: int|
                            0 <= x2 < board.board_size && now[j] == now[#[trigger] board.slot(
                                x2,
                                y,
                            )] && now[board.slot(x2, y)] == now[board.slot(x2, y + 1)];
                        assert(now[i] == now[board.slot(x2, y + 1)]);
                    }
                }
                assert(Self::left_level(board, now, 0, y + 1));
            }
            self.x = 0;
            self.y = self.y + 1;
            self.state = Stage::Merge;
        }
        State::Generate
    }
}

impl Generator for Eller {
    open spec fn inv(&self, board: &Board) -> bool {
        &&& self.merged.wf()
        &&& board.forest(self.merged.labels())
        &&& self.cursor_fits(board)
        &&& Self::course(
            board,
            self.merged.labels(),
            self.state,
            self.x as int,
            self.y as int,
        )
        &&& self.done ==> board.finish && board.is_perfect()
    }

    open spec fn finished(&self) -> bool {
        self.done
    }

    open spec fn thorough(&self) -> bool {
        true
    }

    fn step(&mut self, board: &mut Board) -> (next: State)
        ensures
            old(self).stepped(old(board), final(self), final(board)),
            old(self).drew(old(board), final(self), final(board)),
    {
        if self.done {
            return State::GenerationDone;
        }
        if board.board_size == 1 {
            let ghost before = *board;
            self.done = true;
            board.finish = true;
            proof {
                let labels = self.merged.labels();
                assert(board.cells@.len() == 1) by (nonlinear_arith)
                    requires
                        board.cells@.len() == board.board_size * board.board_size,
                        board.board_size == 1,
                ;
                before.lemma_single_tree(labels);
                before.lemma_same_grid(board);
                Self::lemma_course_moved(
                    &before,
                    board,
                    labels,
                    self.state,
                    self.x as int,
                    self.y as int,
                );
            }
            return State::GenerationDone;
        }
        match self.state {
            Stage::Merge => {
                let coin = self.dice.coin();
                let state = self.merge(board, coin);
                proof {
                    assert(old(self).after_merge(old(board), coin, self, board));
                }
                state
            },
            Stage::Bottom => {
                let coin = self.dice.coin();
                let state = self.descend(board, coin);
                proof {
                    assert(old(self).after_descend(old(board), coin, self, board));
                }
                state
            },
            Stage::Close => {
                let candidates = self.orphans(board);
                let member = self.dice.pick(&candidates);
                let state = self.close(board, member);
                proof {
                    assert(old(self).after_close(old(board), member, self, board));
                }
                state
            },
        }
    }

    fn draw(&self, board: &Board) {
    }

    proof fn lemma_finished(&self, board: &Board) {
        
    }
}

} // verus!
