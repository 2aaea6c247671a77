//! Randomised Prim: keep a frontier of cells that border the maze, take one
//! of them at random into the maze, and add its new neighbours to the
//! frontier.

use crate::maze::dice::Dice;
use crate::maze::generator::Growth;
use crate::maze::graph::lemma_count_down_bounds;
use crate::maze::{carve_pair, Board, Generator, State};
use vstd::prelude::*;

verus! {

/// A cell on the frontier, with the neighbour in the maze through which it
/// was found.
#[derive(Debug, Clone, Copy)]
pub struct FreeCell {
    pub index: usize,
    pub neighbor: usize,
}

/// Whether the frontier lists the cell `index`.
pub open spec fn listed(frontier: Seq<FreeCell>, index: usize) -> bool {
    exists|k: int| 0 <= k < frontier.len() && (#[trigger] frontier[k]).index == index
}

/// The frontier after the neighbours `around` of the cell `from` have been
/// looked at in turn: each one that is neither listed yet nor in the maze
/// is added, with `from` as the neighbour through which it was found.
pub open spec fn extended(
    frontier: Seq<FreeCell>,
    around: Seq<usize>,
    joined: Seq<bool>,
    from: usize,
) -> Seq<FreeCell>
    decreases around.len(),
{
    if around.len() == 0 {
        frontier
    } else {
        let rest = extended(frontier, around.drop_last(), joined, from);
        let next = around.last();
        if listed(rest, next) || (next < joined.len() && joined[next as int]) {
            rest
        } else {
            rest.push(FreeCell { index: next, neighbor: from })
        }
    }
}

pub struct Prim {
    pub visited: Growth,
    pub cells: Vec<FreeCell>,
    pub done: bool,
    pub dice: Dice,
}

impl Prim {
    /// Every cell of the frontier is outside the maze and next to the cell
    /// in the maze that it names, and no cell is listed twice.
    pub open spec fn frontier_ok(board: &Board, joined: Seq<bool>, frontier: Seq<FreeCell>) -> bool {
        &&& forall|k: int|
            0 <= k < frontier.len() ==> board.adjacent(
                (#[trigger] frontier[k]).neighbor as int,
                frontier[k].index as int,
            ) && joined[frontier[k].neighbor as int] && !joined[frontier[k].index as int]
        &&& forall|j: int, k: int|
            0 <= j < k < frontier.len() ==> (#[trigger] frontier[j]).index
                != (#[trigger] frontier[k]).index
    }

    /// Every cell outside the maze that borders it is on the frontier.
    pub open spec fn frontier_full(board: &Board, joined: Seq<bool>, frontier: Seq<FreeCell>) -> bool {
        forall|a: int, b: int|
            #[trigger] board.adjacent(a, b) && joined[a] && !joined[b] ==> listed(
                frontier,
                b as usize,
            )
    }

    /// How a generator starts out: with some cell of the grid as the maze,
    /// and its neighbours as the frontier.
    pub open spec fn begins(&self, board: &Board) -> bool {
        &&& board.in_grid(self.visited.root as int)
        &&& self.visited.joined@ == Seq::new(
            board.cells@.len(),
            |i: int| i == self.visited.root,
        )
        &&& self.visited.left == board.cells@.len() - 1
        &&& self.cells@ == extended(
            Seq::empty(),
            board.around(self.visited.root as int),
            self.visited.joined@,
            self.visited.root,
        )
        &&& !self.done
    }

    /// A generator for `board` that starts from a cell drawn from the
    /// thread's source of randomness.
    pub fn new(board: &Board) -> (generator: Self)
        requires
            board.wf(),
            board.walled(),
        ensures
            generator.inv(board),
            generator.begins(board),
    {
        Self::with_dice(board, Dice::fresh())
    }

    /// A generator for `board` that draws from `dice`, starting with the
    /// cell from which the maze grows.
    pub fn with_dice(board: &Board, dice: Dice) -> (generator: Self)
        requires
            board.wf(),
            board.walled(),
        ensures
            generator.inv(board),
            generator.begins(board),
            generator.visited.root == Dice::below_of(dice.state(), board.cells@.len() as usize),
            generator.dice.state() == Dice::after_below(
                dice.state(),
                board.cells@.len() as usize,
            ),
    {
        let mut dice = dice;
        assert(board.cells@.len() >= 1) by (nonlinear_arith)
            requires
                board.cells@.len() == board.board_size * board.board_size,
                1 <= board.board_size,
        ;
        let current: usize = dice.below(board.cells.len());
        let mut generator = Self {
            visited: Growth::plant(board, current),
            cells: Vec::new(),
            done: false,
            dice,
        };
        proof {
            assert forall|a: int, b: int|
                #[trigger] board.adjacent(a, b) && generator.visited.joined@[a]
                    && !generator.visited.joined@[b] && a != current implies listed(
                generator.cells@,
                b as usize,
            ) by {}
        }
        generator.extend(board, current);
        generator
    }

    /// Whether the cell at `index` is on the frontier or in the maze.
    pub fn contains(&self, index: &usize) -> (known: bool)
        ensures
            known == (listed(self.cells@, *index) || self.visited.holds(*index as int)),
    {
        let mut k: usize = 0;
        while k < self.cells.len()
            invariant
                k <= self.cells@.len(),
                forall|j: int| 0 <= j < k ==> (#[trigger] self.cells@[j]).index != *index,
            decreases self.cells@.len() - k,
        {
            if self.cells[k].index == *index {
                return true;
            }
            k += 1;
        }
        self.visited.contains(*index)
    }

    /// Adds to the frontier the neighbours of `from` that are neither on it
    /// nor in the maze.
    pub fn extend(&mut self, board: &Board, from: usize)
        requires
            old(self).visited.inv(board),
            old(self).visited.holds(from as int),
            Self::frontier_ok(board, old(self).visited.joined@, old(self).cells@),
            forall|a: int, b: int|
                #[trigger] board.adjacent(a, b) && old(self).visited.joined@[a] && !old(
                    self,
                ).visited.joined@[b] && a != from ==> listed(old(self).cells@, b as usize),
        ensures
            final(self).cells@ == extended(
                old(self).cells@,
                board.around(from as int),
                old(self).visited.joined@,
                from,
            ),
            final(self).visited == old(self).visited,
            final(self).done == old(self).done,
            final(self).dice == old(self).dice,
            Self::frontier_ok(board, final(self).visited.joined@, final(self).cells@),
            Self::frontier_full(board, final(self).visited.joined@, final(self).cells@),
    {
        let neighbors = board.neighbors_of(from);
        let ghost joined = self.visited.joined@;
        let ghost start = self.cells@;
        let mut k: usize = 0;
        while k < neighbors.len()
            invariant
                k <= neighbors@.len(),
                neighbors@ == board.around(from as int),
                forall|j: usize|
                    #[trigger] neighbors@.contains(j) <==> board.adjacent(from as int, j as int),
                self.visited == old(self).visited,
                self.done == old(self).done,
                self.dice == old(self).dice,
                joined == self.visited.joined@,
                joined.len() == board.cells@.len(),
                joined[from as int],
                board.shaped(),
                self.cells@ == extended(start, neighbors@.take(k as int), joined, from),
                Self::frontier_ok(board, joined, self.cells@),
                start.len() <= self.cells@.len(),
                forall|i: int| 0 <= i < start.len() ==> self.cells@[i] == #[trigger] start[i],
                forall|i: int|
                    0 <= i < k && !joined[neighbors@[i] as int] ==> listed(
                        self.cells@,
                        #[trigger] neighbors@[i],
                    ),
            decreases neighbors@.len() - k,
        {
            let next: usize = neighbors[k];
            let ghost before = self.cells@;
            proof {
                assert(neighbors@.take(k + 1).drop_last() =~= neighbors@.take(k as int));
                assert(neighbors@.contains(next));
            }
            if !self.contains(&next) {
                self.cells.push(FreeCell { index: next, neighbor: from });
                proof {
                    let added = FreeCell { index: next, neighbor: from };
                    assert(self.cells@[before.len() as int] == added);
                    assert forall|i: int, j: int| 0 <= i < j < self.cells@.len() implies (
                    #[trigger] self.cells@[i]).index != (#[trigger] self.cells@[j]).index by {
                        if j == before.len() {
                            assert(before[i].index != next);
                        }
                    }
                }
            }
            proof {
                assert forall|i: int| 0 <= i < start.len() implies self.cells@[i]
                    == #[trigger] start[i] by {
                    assert(before[i] == start[i]);
                }
                assert forall|i: int| 0 <= i < k + 1 && !joined[neighbors@[i] as int] implies listed(
                    self.cells@,
                    #[trigger] neighbors@[i],
                ) by {
                    if i < k {
                        let at = choose|at: int|
                            0 <= at < before.len() && (#[trigger] before[at]).index
                                == neighbors@[i];
                        assert(self.cells@[at].index == neighbors@[i]);
                    } else if listed(before, next) {
                        let at = choose|at: int|
                            0 <= at < before.len() && (#[trigger] before[at]).index == next;
                        assert(self.cells@[at].index == next);
                    } else {
                        assert(self.cells@[before.len() as int].index == next);
                    }
                }
            }
            k += 1;
        }
        proof {
            assert(neighbors@.take(k as int) =~= neighbors@);
            assert forall|a: int, b: int|
                #[trigger] board.adjacent(a, b) && joined[a] && !joined[b] implies listed(
                self.cells@,
                b as usize,
            ) by {
                if a == from {
                    assert(neighbors@.contains(b as usize));
                    let i = choose|i: int| 0 <= i < neighbors@.len() && neighbors@[i] == b as usize;
                    assert(listed(self.cells@, neighbors@[i]));
                } else {
                    let at = choose|at: int|
                        0 <= at < start.len() && (#[trigger] start[at]).index == b as usize;
                    assert(self.cells@[at].index == b as usize);
                }
            }
        }
    }

    /// What a step leaves behind: the frontier cell at `pick` is in the
    /// maze, joined to the neighbour through which it was found; its own
    /// new neighbours are on the frontier; and the maze is complete if the
    /// frontier is empty.
    pub open spec fn after_grow(
        &self,
        board: &Board,
        pick: usize,
        then: &Prim,
        after: &Board,
    ) -> bool {
        let item = self.cells@[pick as int];
        &&& board.carved_into(item.index as int, item.neighbor as int, after)
        &&& after.path@ == board.path@
        &&& then.visited.joined@ == self.visited.joined@.update(item.index as int, true)
        &&& then.visited.left == self.visited.left - 1
        &&& then.visited.root == self.visited.root
        &&& then.cells@ == extended(
            self.cells@.remove(pick as int),
            board.around(item.index as int),
            then.visited.joined@,
            item.index,
        )
        &&& then.done == (then.cells@.len() == 0)
        &&& after.finish == (board.finish || then.done)
    }

    /// Whether `then` is this generator but for its dice.
    pub open spec fn same_course(&self, then: &Prim) -> bool {
        &&& then.visited.joined@ == self.visited.joined@
        &&& then.visited.left == self.visited.left
        &&& then.visited.root == self.visited.root
        &&& then.cells@ == self.cells@
        &&& then.done == self.done
    }

    /// The same draw gives the same step: whatever the dice, two steps
    /// from one state that were decided alike leave the same generator and
    /// the same maze behind.
    pub proof fn lemma_repeatable(
        &self,
        board: &Board,
        pick: usize,
        then: &Prim,
        after: &Board,
        again: &Prim,
        anew: &Board,
    )
        ensures
            self.after_grow(board, pick, then, after) && self.after_grow(board, pick, again, anew)
                ==> then.same_course(again) && after.same_maze(anew),
    {
    }

    /// What one step does with the dice as they stand: the frontier cell
    /// at the place that they give joins the maze.
    pub open spec fn drew(&self, board: &Board, then: &Prim, after: &Board) -> bool {
        if self.done {
            *after == *board && *then == *self
        } else if self.cells@.len() == 0 {
            &&& then.done
            &&& then.cells@ == self.cells@
            &&& then.visited.joined@ == self.visited.joined@
            &&& then.visited.left == self.visited.left
            &&& then.visited.root == self.visited.root
            &&& then.dice.state() == self.dice.state()
            &&& board.same_grid(after)
            &&& after.path@ == board.path@
            &&& after.finish
        } else {
            &&& self.after_grow(
                board,
                Dice::below_of(self.dice.state(), self.cells@.len() as usize),
                then,
                after,
            )
            &&& then.dice.state() == Dice::after_below(
                self.dice.state(),
                self.cells@.len() as usize,
            )
        }
    }

    /// Whether `other` stands where this generator stands, with dice in
    /// the same state.
    pub open spec fn alike(&self, other: &Prim) -> bool {
        self.same_course(other) && other.dice.state() == self.dice.state()
    }

    /// Two generators that stand alike on the same maze take the same
    /// step: they stand alike afterwards, on the same maze.
    pub proof fn lemma_same_step(
        &self,
        board: &Board,
        then: &Prim,
        after: &Board,
        other: &Prim,
        maze: &Board,
        again: &Prim,
        anew: &Board,
    )
        requires
            self.alike(other),
            board.same_maze(maze),
            self.drew(board, then, after),
            other.drew(maze, again, anew),
        ensures
            then.alike(again),
            after.same_maze(anew),
    {
    }

    /// What one step may do, whatever the dice give.
    pub open spec fn stepped(&self, board: &Board, then: &Prim, after: &Board) -> bool {
        if self.done {
            *after == *board
        } else if self.cells@.len() == 0 {
            &&& then.done
            &&& then.cells@ == self.cells@
            &&& then.visited.joined@ == self.visited.joined@
            &&& then.visited.left == self.visited.left
            &&& then.visited.root == self.visited.root
            &&& board.same_grid(after)
            &&& after.path@ == board.path@
            &&& after.finish
        } else {
            exists|pick: usize|
                pick < self.cells@.len() && #[trigger] self.after_grow(board, pick, then, after)
        }
    }

    /// With the frontier empty, the maze has reached every cell.
    pub proof fn lemma_frontier_empty(&self, board: &Board)
        requires
            self.visited.inv(board),
            Self::frontier_full(board, self.visited.joined@, self.cells@),
            self.cells@.len() == 0,
        ensures
            self.visited.left == 0,
            board.is_perfect(),
    {
        let flags = self.visited.joined@;
        assert forall|a: int, b: int| #[trigger] board.adjacent(a, b) && flags[a] implies flags[b] by {
            if !flags[b] {
                assert(listed(self.cells@, b as usize));
            }
        }
        board.lemma_flood(flags, self.visited.root as int);
        lemma_count_down_bounds(flags);
        self.visited.lemma_complete(board);
    }

    /// The step that the dice have decided: the frontier cell at `pick`
    /// joins the maze.
    pub fn grow(&mut self, board: &mut Board, pick: usize) -> (state: State)
        requires
            old(self).inv(old(board)),
            !old(self).done,
            pick < old(self).cells@.len(),
        ensures
            final(self).inv(final(board)),
            old(board).same_place(final(board)),
            old(self).after_grow(old(board), pick, final(self), final(board)),
            final(self).dice == old(self).dice,
            final(self).done ==> final(board).is_perfect(),
            state == (if final(self).done {
                State::GenerationDone
            } else {
                State::Generate
            }),
    {
        let ghost listed_before = self.cells@;
        let ghost joined = self.visited.joined@;
        let item: FreeCell = self.cells.remove(pick);
        let ghost rest = self.cells@;
        proof {
            assert forall|k: int| 0 <= k < rest.len() implies (#[trigger] rest[k]).index
                != item.index && rest[k] == listed_before[if k < pick {
                k
            } else {
                k + 1
            }] by {
                if k < pick {
                    assert(listed_before[k].index != listed_before[pick as int].index);
                } else {
                    assert(listed_before[pick as int].index != listed_before[k + 1].index);
                }
            }
            old(board).lemma_adjacent_offsets(item.neighbor as int, item.index as int);
        }
        // remove wall
        self.visited.attach(board, item.neighbor, item.index);
        proof {
            assert(carve_pair(old(board).cells@, item.index as int, item.neighbor as int)
                =~= carve_pair(old(board).cells@, item.neighbor as int, item.index as int));
            old(board).lemma_carved(item.neighbor as int, item.index as int, board);
            let now = self.visited.joined@;
            assert forall|k: int| 0 <= k < rest.len() implies board.adjacent(
                (#[trigger] rest[k]).neighbor as int,
                rest[k].index as int,
            ) && now[rest[k].neighbor as int] && !now[rest[k].index as int] by {
                let at = if k < pick {
                    k
                } else {
                    k + 1
                };
                assert(old(board).adjacent(
                    listed_before[at].neighbor as int,
                    listed_before[at].index as int,
                ));
            }
            assert forall|j: int, k: int| 0 <= j < k < rest.len() implies (#[trigger] rest[j]).index
                != (#[trigger] rest[k]).index by {
                let at_j = if j < pick {
                    j
                } else {
                    j + 1
                };
                let at_k = if k < pick {
                    k
                } else {
                    k + 1
                };
                assert(listed_before[at_j].index != listed_before[at_k].index);
            }
            assert forall|a: int, b: int|
                #[trigger] board.adjacent(a, b) && now[a] && !now[b] && a
                    != item.index implies listed(rest, b as usize) by {
                assert(old(board).adjacent(a, b));
                assert(listed(listed_before, b as usize));
                let at = choose|at: int|
                    0 <= at < listed_before.len() && (#[trigger] listed_before[at]).index
                        == b as usize;
                assert(at != pick);
                let k = if at < pick {
                    at
                } else {
                    at - 1
                };
                assert(rest[k].index == b as usize);
            }
        }
        // calc next cells
        self.extend(board, item.index);
        if self.cells.len() == 0 {
            let ghost grown = *board;
            self.done = true;
            board.finish = true;
            proof {
                self.lemma_frontier_empty(&grown);
                grown.lemma_same_grid(board);
            }
            State::GenerationDone
        } else {
            State::Generate
        }
    }
}

impl Generator for Prim {
    open spec fn inv(&self, board: &Board) -> bool {
        &&& self.visited.inv(board)
        &&& Self::frontier_ok(board, self.visited.joined@, self.cells@)
        &&& Self::frontier_full(board, self.visited.joined@, self.cells@)
        &&& self.done ==> self.cells@.len() == 0 && board.finish
    }

    open spec fn finished(&self) -> bool {
        self.done
    }

    open spec fn thorough(&self) -> bool {
        true
    }

    fn step(&mut self, board: &mut Board) -> (next: State)
        ensures
            old(self).stepped(old(board), final(self), final(board)),
            old(self).drew(old(board), final(self), final(board)),
    {
        if self.done {
            proof {
                self.lemma_frontier_empty(board);
            }
            return State::GenerationDone;
        }
        if self.cells.len() == 0 {
            let ghost before = *board;
            self.done = true;
            board.finish = true;
            proof {
                self.lemma_frontier_empty(&before);
                before.lemma_same_grid(board);
                assert(Self::frontier_ok(board, self.visited.joined@, self.cells@));
                assert(Self::frontier_full(board, self.visited.joined@, self.cells@)) by {
                    assert forall|a: int, b: int|
                        #[trigger] board.adjacent(a, b) && self.visited.joined@[a]
                            && !self.visited.joined@[b] implies listed(self.cells@, b as usize) by {
                        assert(before.adjacent(a, b));
                    }
                }
            }
            return State::GenerationDone;
        }
        let index: usize = self.dice.below(self.cells.len());
        let state = self.grow(board, index);
        proof {
            assert(old(self).after_grow(old(board), index, self, board));
        }
        state
    }

    fn draw(&self, board: &Board) {
    }

    proof fn lemma_finished(&self, board: &Board) {
        self.lemma_frontier_empty(board);
    }
}

} // verus!
