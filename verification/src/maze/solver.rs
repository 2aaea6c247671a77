//! What every solver offers: a search that goes on one step at a time,
//! ends with a route from the end of the maze back to its start, and says
//! so when there is none.

use crate::maze::djikstra::Solver;
use crate::maze::{Board, MazeError, State};
use vstd::prelude::*;

pub mod a_star;
pub mod backtracker;
pub mod dead_end_filling;

verus! {

/// The slot of the cell at `place`, given as column and row, on a grid of
/// side `side`; `-1` if the place is not on the grid.
pub open spec fn slot_of(place: (usize, usize), side: int) -> int {
    if place.0 < side && place.1 < side {
        place.0 * side + place.1
    } else {
        -1
    }
}

/// Whether `route` leads from `target` to `source` through passages of the
/// board.
pub open spec fn is_route(board: &Board, route: Seq<usize>, source: int, target: int) -> bool {
    &&& route.len() > 0
    &&& route[0] == target
    &&& route.last() == source
    &&& forall|k: int|
        0 <= k < route.len() - 1 ==> board.linked(#[trigger] route[k] as int, route[k + 1] as int)
}

/// A solver that searches a board step by step.
pub trait Pathfinder: Sized {
    /// What the solver relies on between steps: the board is the one it
    /// has searched so far.
    spec fn inv(&self, board: &Board) -> bool;

    /// Whether the route is complete.
    spec fn solved(&self) -> bool;

    /// The slot of the cell where the search starts.
    spec fn source(&self) -> int;

    /// The slot of the cell that the search is for; `-1` if that cell is not
    /// on the grid.
    spec fn target(&self) -> int;

    /// The route as far as it is known: from the end of the maze back
    /// towards its start.
    spec fn route(&self) -> Seq<usize>;

    /// What a step that succeeds makes of a solver that has not solved the
    /// maze yet.
    spec fn advanced(&self, board: &Board, then: &Self) -> bool;

    /// One step of the search. It answers `Solve` while there is more to
    /// do and `Done` once the route is complete, which then leads from the
    /// target to the source through passages. It reports `Unreachable`,
    /// and changes nothing, only when no walk leads from the source to the
    /// target. A solved maze stays as it is.
    fn advance(&mut self, board: &Board) -> (outcome: Result<State, MazeError>)
        requires
            old(self).inv(board),
        ensures
            final(self).inv(board),
            final(self).source() == old(self).source(),
            final(self).target() == old(self).target(),
            old(self).solved() ==> *final(self) == *old(self),
            outcome is Ok && !old(self).solved() ==> old(self).advanced(board, final(self)),
            match outcome {
                Ok(state) => state == (if final(self).solved() {
                    State::Done
                } else {
                    State::Solve
                }),
                Err(e) => e == MazeError::Unreachable && *final(self) == *old(self)
                    && !board.connected(old(self).source(), old(self).target()),
            },
            final(self).solved() ==> is_route(
                board,
                final(self).route(),
                final(self).source(),
                final(self).target(),
            ),
    ;

    /// The route as far as it is known.
    fn get_path(&self) -> (path: &Vec<usize>)
        ensures
            path@ == self.route(),
    ;

    /// Whether the route is complete.
    fn is_solved(&self) -> (solved: bool)
        ensures
            solved == self.solved(),
    ;

    /// The route of a solver that has solved the maze leads from the
    /// target to the source through passages, for as long as solver and
    /// board stay as they are.
    proof fn lemma_route(&self, board: &Board)
        requires
            self.inv(board),
            self.solved(),
        ensures
            is_route(board, self.route(), self.source(), self.target()),
    ;
}

impl Pathfinder for Solver {
    open spec fn inv(&self, board: &Board) -> bool {
        self.wf(board)
    }

    open spec fn solved(&self) -> bool {
        self.solved
    }

    open spec fn source(&self) -> int {
        self.start_slot()
    }

    open spec fn target(&self) -> int {
        slot_of(self.end, self.board_size as int)
    }

    open spec fn route(&self) -> Seq<usize> {
        self.path@
    }

    open spec fn advanced(&self, board: &Board, then: &Self) -> bool {
        if self.reached_end {
            self.stepped_back(board, then)
        } else {
            self.spread(board, then)
        }
    }

    fn advance(&mut self, board: &Board) -> (outcome: Result<State, MazeError>) {
        proof {
            if !self.end_on_grid() && board.connected(self.source(), self.target()) {
                board.lemma_connected_in_grid(self.source(), self.target());
            }
        }
        let outcome = Solver::advance(self, board);
        proof {
            self.lemma_shortest_path(board);
        }
        outcome
    }

    fn get_path(&self) -> (path: &Vec<usize>) {
        &self.path
    }

    fn is_solved(&self) -> (solved: bool) {
        self.solved
    }

    proof fn lemma_route(&self, board: &Board) {
        self.lemma_shortest_path(board);
        if !self.end_on_grid() {
            board.lemma_slot(self.start.0 as int, self.start.1 as int);
        }
    }
}

} // verus!
