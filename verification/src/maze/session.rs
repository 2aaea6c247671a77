//! One generate-and-solve cycle: a board, the generator that carves it and
//! the solver that walks it, driven one step at a time through the states
//! `Wait`, `Generate`, `GenerationDone`, `Solve` and `Done`.

use crate::maze::dice::{seeded_state, Dice};
use crate::maze::djikstra::Solver;
use crate::maze::generator::aldous_broder::AldousBroder;
use crate::maze::generator::backtracking::Backtracking;
use crate::maze::generator::binary_tree::BinaryTree;
use crate::maze::generator::eller::Eller;
use crate::maze::generator::growing_tree::GrowingTree;
use crate::maze::generator::hunt_and_kill::HuntAndKill;
use crate::maze::generator::kruskal::Kruskal;
use crate::maze::generator::prim::Prim;
use crate::maze::generator::recursive_division::RecursiveDivision;
use crate::maze::generator::sidewinder::Sidewinder;
use crate::maze::generator::wilson::Wilson;
use crate::maze::solver::a_star::AStar;
use crate::maze::solver::backtracker::Backtracker;
use crate::maze::solver::dead_end_filling::DeadEndFilling;
use crate::maze::solver::{is_route, Pathfinder};
use crate::maze::{Board, Generator, MazeError, State};
use vstd::prelude::*;

verus! {

/// The generation algorithms on offer.
#[derive(Debug, Clone, Copy, PartialEq, Eq, Structural)]
pub enum GeneratorKind {
    Backtracking,
    Kruskal,
    Eller,
    Prim,
    RecursiveDivision,
    AldousBroder,
    Wilson,
    HuntAndKill,
    GrowingTree,
    BinaryTree,
    Sidewinder,
}

impl GeneratorKind {
    /// The generators in the order in which they are offered.
    pub open spec fn list() -> Seq<GeneratorKind> {
        seq![
            GeneratorKind::Backtracking,
            GeneratorKind::Kruskal,
            GeneratorKind::Eller,
            GeneratorKind::Prim,
            GeneratorKind::RecursiveDivision,
            GeneratorKind::AldousBroder,
            GeneratorKind::Wilson,
            GeneratorKind::HuntAndKill,
            GeneratorKind::GrowingTree,
            GeneratorKind::BinaryTree,
            GeneratorKind::Sidewinder,
        ]
    }

    /// The kind with the given number in the list of generators, counted
    /// from nought; `None` for a number that is not on the list.
    pub fn from_index(index: i32) -> (kind: Option<GeneratorKind>)
        ensures
            kind == (if 0 <= index < 11 {
                Some(Self::list()[index as int])
            } else {
                None
            }),
    {
        match index {
            0 => Some(GeneratorKind::Backtracking),
            1 => Some(GeneratorKind::Kruskal),
            2 => Some(GeneratorKind::Eller),
            3 => Some(GeneratorKind::Prim),
            4 => Some(GeneratorKind::RecursiveDivision),
            5 => Some(GeneratorKind::AldousBroder),
            6 => Some(GeneratorKind::Wilson),
            7 => Some(GeneratorKind::HuntAndKill),
            8 => Some(GeneratorKind::GrowingTree),
            9 => Some(GeneratorKind::BinaryTree),
            10 => Some(GeneratorKind::Sidewinder),
            _ => None,
        }
    }
}

/// A generator of any kind.
pub enum AnyGenerator {
    Backtracking(Backtracking),
    Kruskal(Kruskal),
    Eller(Eller),
    Prim(Prim),
    RecursiveDivision(RecursiveDivision),
    AldousBroder(AldousBroder),
    Wilson(Wilson),
    HuntAndKill(HuntAndKill),
    GrowingTree(GrowingTree),
    BinaryTree(BinaryTree),
    Sidewinder(Sidewinder),
}

impl AnyGenerator {
    /// The kind of the generator.
    pub open spec fn kind(&self) -> GeneratorKind {
        match self {
            AnyGenerator::Backtracking(_) => GeneratorKind::Backtracking,
            AnyGenerator::Kruskal(_) => GeneratorKind::Kruskal,
            AnyGenerator::Eller(_) => GeneratorKind::Eller,
            AnyGenerator::Prim(_) => GeneratorKind::Prim,
            AnyGenerator::RecursiveDivision(_) => GeneratorKind::RecursiveDivision,
            AnyGenerator::AldousBroder(_) => GeneratorKind::AldousBroder,
            AnyGenerator::Wilson(_) => GeneratorKind::Wilson,
            AnyGenerator::HuntAndKill(_) => GeneratorKind::HuntAndKill,
            AnyGenerator::GrowingTree(_) => GeneratorKind::GrowingTree,
            AnyGenerator::BinaryTree(_) => GeneratorKind::BinaryTree,
            AnyGenerator::Sidewinder(_) => GeneratorKind::Sidewinder,
        }
    }

    /// What one step may do, whatever the dice give: what a step of the
    /// generator of its kind may do.
    pub open spec fn stepped(&self, board: &Board, then: &AnyGenerator, after: &Board) -> bool {
        match (self, then) {
            (AnyGenerator::Backtracking(g), AnyGenerator::Backtracking(t)) => g.stepped(
                board,
                t,
                after,
            ),
            (AnyGenerator::Kruskal(g), AnyGenerator::Kruskal(t)) => g.stepped(board, t, after),
            (AnyGenerator::Eller(g), AnyGenerator::Eller(t)) => g.stepped(board, t, after),
            (AnyGenerator::Prim(g), AnyGenerator::Prim(t)) => g.stepped(board, t, after),
            (AnyGenerator::RecursiveDivision(g), AnyGenerator::RecursiveDivision(t)) => g.stepped(
                board,
                t,
                after,
            ),
            (AnyGenerator::AldousBroder(g), AnyGenerator::AldousBroder(t)) => g.stepped(
                board,
                t,
                after,
            ),
            (AnyGenerator::Wilson(g), AnyGenerator::Wilson(t)) => g.stepped(board, t, after),
            (AnyGenerator::HuntAndKill(g), AnyGenerator::HuntAndKill(t)) => g.stepped(
                board,
                t,
                after,
            ),
            (AnyGenerator::GrowingTree(g), AnyGenerator::GrowingTree(t)) => g.stepped(
                board,
                t,
                after,
            ),
            (AnyGenerator::BinaryTree(g), AnyGenerator::BinaryTree(t)) => g.stepped(
                board,
                t,
                after,
            ),
            (AnyGenerator::Sidewinder(g), AnyGenerator::Sidewinder(t)) => g.stepped(
                board,
                t,
                after,
            ),
            _ => false,
        }
    }

    /// What one step does with the dice as they stand: what a step of the
    /// generator of its kind does with them.
    pub open spec fn drew(&self, board: &Board, then: &AnyGenerator, after: &Board) -> bool {
        match (self, then) {
            (AnyGenerator::Backtracking(g), AnyGenerator::Backtracking(t)) => g.drew(board, t, after),
            (AnyGenerator::Kruskal(g), AnyGenerator::Kruskal(t)) => g.stepped(board, t, after),
            (AnyGenerator::Eller(g), AnyGenerator::Eller(t)) => g.drew(board, t, after),
            (AnyGenerator::Prim(g), AnyGenerator::Prim(t)) => g.drew(board, t, after),
            (AnyGenerator::RecursiveDivision(g), AnyGenerator::RecursiveDivision(t)) => g.drew(board, t, after),
            (AnyGenerator::AldousBroder(g), AnyGenerator::AldousBroder(t)) => g.drew(board, t, after),
            (AnyGenerator::Wilson(g), AnyGenerator::Wilson(t)) => g.drew(board, t, after),
            (AnyGenerator::HuntAndKill(g), AnyGenerator::HuntAndKill(t)) => g.drew(board, t, after),
            (AnyGenerator::GrowingTree(g), AnyGenerator::GrowingTree(t)) => g.drew(board, t, after),
            (AnyGenerator::BinaryTree(g), AnyGenerator::BinaryTree(t)) => g.drew(board, t, after),
            (AnyGenerator::Sidewinder(g), AnyGenerator::Sidewinder(t)) => g.drew(board, t, after),
            _ => false,
        }
    }

    /// Whether `other` is a generator of the same kind that stands where
    /// this one stands, with dice in the same state.
    pub open spec fn alike(&self, other: &AnyGenerator) -> bool {
        match (self, other) {
            (AnyGenerator::Backtracking(g), AnyGenerator::Backtracking(t)) => g.alike(t),
            (AnyGenerator::Kruskal(g), AnyGenerator::Kruskal(t)) => g.alike(t),
            (AnyGenerator::Eller(g), AnyGenerator::Eller(t)) => g.alike(t),
            (AnyGenerator::Prim(g), AnyGenerator::Prim(t)) => g.alike(t),
            (AnyGenerator::RecursiveDivision(g), AnyGenerator::RecursiveDivision(t)) => g.alike(t),
            (AnyGenerator::AldousBroder(g), AnyGenerator::AldousBroder(t)) => g.alike(t),
            (AnyGenerator::Wilson(g), AnyGenerator::Wilson(t)) => g.alike(t),
            (AnyGenerator::HuntAndKill(g), AnyGenerator::HuntAndKill(t)) => g.alike(t),
            (AnyGenerator::GrowingTree(g), AnyGenerator::GrowingTree(t)) => g.alike(t),
            (AnyGenerator::BinaryTree(g), AnyGenerator::BinaryTree(t)) => g.alike(t),
            (AnyGenerator::Sidewinder(g), AnyGenerator::Sidewinder(t)) => g.alike(t),
            _ => false,
        }
    }

    /// Whether this is the generator that `new` makes for the board
    /// `before` with dice in `state`, and `board` the board as `new` leaves
    /// it. A generator that begins on a random cell draws it from the dice,
    /// and Kruskal's has its walls dealt by them.
    pub open spec fn made_with(&self, state: Seq<u8>, before: &Board, board: &Board) -> bool {
        let cells = board.cells@.len() as usize;
        let n = board.board_size as int;
        &&& board.board_size == before.board_size
        &&& board.path@ == before.path@
        &&& board.finish == before.finish
        &&& match self {
            AnyGenerator::RecursiveDivision(_) => board.cells@ == Seq::new(
                before.cells@.len(),
                |i: int| RecursiveDivision::cleared_cell(before.cells@[i], before.board_size as int),
            ),
            _ => board.cells@ == before.cells@,
        }
        &&& match self {
            AnyGenerator::Backtracking(g) => g.current == 0 && !g.done && g.dice.state() == state,
            AnyGenerator::Kruskal(g) => g.begins(board, g.edges@) && Kruskal::dealt(
                state,
                n,
                g.edges@,
            ),
            AnyGenerator::Eller(g) => g.begins(board) && g.dice.state() == state,
            AnyGenerator::Prim(g) => g.begins(board) && g.visited.root == Dice::below_of(
                state,
                cells,
            ) && g.dice.state() == Dice::after_below(state, cells),
            AnyGenerator::RecursiveDivision(g) => g.begins(board, None) && g.dice.state()
                == state,
            AnyGenerator::AldousBroder(g) => g.begins(board) && g.current_cell == Dice::below_of(
                state,
                cells,
            ) && g.dice.state() == Dice::after_below(state, cells),
            AnyGenerator::Wilson(g) => g.begins(board) && g.current_cell == Dice::below_of(
                state,
                cells,
            ) && g.dice.state() == Dice::after_below(state, cells),
            AnyGenerator::HuntAndKill(g) => g.begins(board) && g.current_cell == Dice::below_of(
                state,
                cells,
            ) && g.dice.state() == Dice::after_below(state, cells),
            AnyGenerator::GrowingTree(g) => g.begins(board, false) && g.visited.root
                == Dice::below_of(state, cells) && g.dice.state() == Dice::after_below(
                state,
                cells,
            ),
            AnyGenerator::BinaryTree(g) => g.x == 0 && g.y == 0 && !g.done && g.dice.state()
                == state,
            AnyGenerator::Sidewinder(g) => g.x == 0 && g.y == 0 && g.run_start == 0 && !g.done
                && g.dice.state() == state,
        }
    }

    /// Generators that stand alike have both finished or neither.
    pub proof fn lemma_alike_finished(&self, other: &AnyGenerator)
        requires
            self.alike(other),
        ensures
            self.finished() == other.finished(),
    {
    }

    /// Dice in one state make one generator: two generators of one kind
    /// made for the same board with dice in the same state start out alike,
    /// on the same board.
    pub proof fn lemma_same_start(
        &self,
        before: &Board,
        board: &Board,
        other: &AnyGenerator,
        first: &Board,
        maze: &Board,
        state: Seq<u8>,
    )
        requires
            self.kind() == other.kind(),
            before.same_maze(first),
            self.made_with(state, before, board),
            other.made_with(state, first, maze),
        ensures
            self.alike(other),
            board.same_maze(maze),
    {
        match (self, other) {
            (AnyGenerator::Kruskal(g), AnyGenerator::Kruskal(t)) => {
                assert(board.cells@ == maze.cells@);
                g.lemma_same_deal(t, state, board, maze);
            },
            (AnyGenerator::RecursiveDivision(g), AnyGenerator::RecursiveDivision(t)) => {
                assert(board.cells@ =~= maze.cells@);
            },
            (AnyGenerator::Prim(g), AnyGenerator::Prim(t)) => {
                assert(g.visited.joined@ =~= t.visited.joined@);
            },
            (AnyGenerator::AldousBroder(g), AnyGenerator::AldousBroder(t)) => {
                assert(g.visited.joined@ =~= t.visited.joined@);
            },
            (AnyGenerator::Wilson(g), AnyGenerator::Wilson(t)) => {
                assert(g.visited.joined@ =~= t.visited.joined@);
                assert(g.walk@ =~= t.walk@);
            },
            (AnyGenerator::HuntAndKill(g), AnyGenerator::HuntAndKill(t)) => {
                assert(g.visited.joined@ =~= t.visited.joined@);
            },
            (AnyGenerator::GrowingTree(g), AnyGenerator::GrowingTree(t)) => {
                assert(g.visited.joined@ =~= t.visited.joined@);
            },
            _ => {},
        }
    }

    /// Two generators that stand alike on the same maze take the same
    /// step: they stand alike afterwards, on the same maze.
    pub proof fn lemma_same_step(
        &self,
        board: &Board,
        then: &AnyGenerator,
        after: &Board,
        other: &AnyGenerator,
        maze: &Board,
        again: &AnyGenerator,
        anew: &Board,
    )
        requires
            board.shaped(),
            self.alike(other),
            board.same_maze(maze),
            self.drew(board, then, after),
            other.drew(maze, again, anew),
        ensures
            then.alike(again),
            after.same_maze(anew),
    {
        match (self, then, other, again) {
            (
                AnyGenerator::Backtracking(g),
                AnyGenerator::Backtracking(t),
                AnyGenerator::Backtracking(o),
                AnyGenerator::Backtracking(a),
            ) => g.lemma_same_step(board, t, after, o, maze, a, anew),
            (
                AnyGenerator::Kruskal(g),
                AnyGenerator::Kruskal(t),
                AnyGenerator::Kruskal(o),
                AnyGenerator::Kruskal(a),
            ) => g.lemma_same_step(board, t, after, o, maze, a, anew),
            (
                AnyGenerator::Eller(g),
                AnyGenerator::Eller(t),
                AnyGenerator::Eller(o),
                AnyGenerator::Eller(a),
            ) => g.lemma_same_step(board, t, after, o, maze, a, anew),
            (
                AnyGenerator::Prim(g),
                AnyGenerator::Prim(t),
                AnyGenerator::Prim(o),
                AnyGenerator::Prim(a),
            ) => g.lemma_same_step(board, t, after, o, maze, a, anew),
            (
                AnyGenerator::RecursiveDivision(g),
                AnyGenerator::RecursiveDivision(t),
                AnyGenerator::RecursiveDivision(o),
                AnyGenerator::RecursiveDivision(a),
            ) => g.lemma_same_step(board, t, after, o, maze, a, anew),
            (
                AnyGenerator::AldousBroder(g),
                AnyGenerator::AldousBroder(t),
                AnyGenerator::AldousBroder(o),
                AnyGenerator::AldousBroder(a),
            ) => g.lemma_same_step(board, t, after, o, maze, a, anew),
            (
                AnyGenerator::Wilson(g),
                AnyGenerator::Wilson(t),
                AnyGenerator::Wilson(o),
                AnyGenerator::Wilson(a),
            ) => g.lemma_same_step(board, t, after, o, maze, a, anew),
            (
                AnyGenerator::HuntAndKill(g),
                AnyGenerator::HuntAndKill(t),
                AnyGenerator::HuntAndKill(o),
                AnyGenerator::HuntAndKill(a),
            ) => g.lemma_same_step(board, t, after, o, maze, a, anew),
            (
                AnyGenerator::GrowingTree(g),
                AnyGenerator::GrowingTree(t),
                AnyGenerator::GrowingTree(o),
                AnyGenerator::GrowingTree(a),
            ) => g.lemma_same_step(board, t, after, o, maze, a, anew),
            (
                AnyGenerator::BinaryTree(g),
                AnyGenerator::BinaryTree(t),
                AnyGenerator::BinaryTree(o),
                AnyGenerator::BinaryTree(a),
            ) => g.lemma_same_step(board, t, after, o, maze, a, anew),
            (
                AnyGenerator::Sidewinder(g),
                AnyGenerator::Sidewinder(t),
                AnyGenerator::Sidewinder(o),
                AnyGenerator::Sidewinder(a),
            ) => g.lemma_same_step(board, t, after, o, maze, a, anew),
            _ => {},
        }
    }

    /// A generator of the given kind for a board as `Board::new` makes it,
    /// drawing from `dice`. A recursive division takes down the inner walls
    /// of the board; the other kinds leave it as it is.
    pub fn new(kind: GeneratorKind, board: &mut Board, dice: Dice) -> (generator: Self)
        requires
            old(board).wf(),
            old(board).walled(),
            old(board).is_fresh(),
            old(board).path@ == seq![0usize],
        ensures
            generator.kind() == kind,
            generator.inv(final(board)),
            !generator.finished(),
            generator.thorough(),
            final(board).wf(),
            final(board).board_size == old(board).board_size,
            old(board).same_place(final(board)),
            final(board).finish == old(board).finish,
            kind != GeneratorKind::RecursiveDivision ==> *final(board) == *old(board),
            generator.made_with(dice.state(), old(board), final(board)),
    {
        match kind {
            GeneratorKind::Backtracking => {
                let g = Backtracking::with_dice(dice);
                proof {
                    g.lemma_ready(board);
                }
                AnyGenerator::Backtracking(g)
            },
            GeneratorKind::Kruskal => {
                let mut dice = dice;
                AnyGenerator::Kruskal(Kruskal::with_dice(board, &mut dice))
            },
            GeneratorKind::Eller => AnyGenerator::Eller(Eller::with_dice(board, dice)),
            GeneratorKind::Prim => AnyGenerator::Prim(Prim::with_dice(board, dice)),
            GeneratorKind::RecursiveDivision => AnyGenerator::RecursiveDivision(
                RecursiveDivision::with_dice(board, dice, None),
            ),
            GeneratorKind::AldousBroder => AnyGenerator::AldousBroder(
                AldousBroder::with_dice(board, dice),
            ),
            GeneratorKind::Wilson => AnyGenerator::Wilson(Wilson::with_dice(board, dice)),
            GeneratorKind::HuntAndKill => AnyGenerator::HuntAndKill(
                HuntAndKill::with_dice(board, dice),
            ),
            GeneratorKind::GrowingTree => AnyGenerator::GrowingTree(
                GrowingTree::with_dice(board, dice, false),
            ),
            GeneratorKind::BinaryTree => {
                let g = BinaryTree::with_dice(dice);
                proof {
                    g.lemma_ready(board);
                }
                AnyGenerator::BinaryTree(g)
            },
            GeneratorKind::Sidewinder => {
                let g = Sidewinder::with_dice(dice);
                proof {
                    g.lemma_ready(board);
                }
                AnyGenerator::Sidewinder(g)
            },
        }
    }
}

impl Generator for AnyGenerator {
    open spec fn inv(&self, board: &Board) -> bool {
        match self {
            AnyGenerator::Backtracking(g) => g.inv(board),
            AnyGenerator::Kruskal(g) => g.inv(board),
            AnyGenerator::Eller(g) => g.inv(board),
            AnyGenerator::Prim(g) => g.inv(board),
            AnyGenerator::RecursiveDivision(g) => g.inv(board),
            AnyGenerator::AldousBroder(g) => g.inv(board),
            AnyGenerator::Wilson(g) => g.inv(board),
            AnyGenerator::HuntAndKill(g) => g.inv(board),
            AnyGenerator::GrowingTree(g) => g.inv(board),
            AnyGenerator::BinaryTree(g) => g.inv(board),
            AnyGenerator::Sidewinder(g) => g.inv(board),
        }
    }

    open spec fn finished(&self) -> bool {
        match self {
            AnyGenerator::Backtracking(g) => g.finished(),
            AnyGenerator::Kruskal(g) => g.finished(),
            AnyGenerator::Eller(g) => g.finished(),
            AnyGenerator::Prim(g) => g.finished(),
            AnyGenerator::RecursiveDivision(g) => g.finished(),
            AnyGenerator::AldousBroder(g) => g.finished(),
            AnyGenerator::Wilson(g) => g.finished(),
            AnyGenerator::HuntAndKill(g) => g.finished(),
            AnyGenerator::GrowingTree(g) => g.finished(),
            AnyGenerator::BinaryTree(g) => g.finished(),
            AnyGenerator::Sidewinder(g) => g.finished(),
        }
    }

    open spec fn thorough(&self) -> bool {
        match self {
            AnyGenerator::RecursiveDivision(g) => g.thorough(),
            _ => true,
        }
    }

    fn step(&mut self, board: &mut Board) -> (next: State)
        ensures
            final(self).kind() == old(self).kind(),
            old(self).stepped(old(board), final(self), final(board)),
            old(self).drew(old(board), final(self), final(board)),
    {
        match self {
            AnyGenerator::Backtracking(g) => g.step(board),
            AnyGenerator::Kruskal(g) => g.step(board),
            AnyGenerator::Eller(g) => g.step(board),
            AnyGenerator::Prim(g) => g.step(board),
            AnyGenerator::RecursiveDivision(g) => g.step(board),
            AnyGenerator::AldousBroder(g) => g.step(board),
            AnyGenerator::Wilson(g) => g.step(board),
            AnyGenerator::HuntAndKill(g) => g.step(board),
            AnyGenerator::GrowingTree(g) => g.step(board),
            AnyGenerator::BinaryTree(g) => g.step(board),
            AnyGenerator::Sidewinder(g) => g.step(board),
        }
    }

    fn draw(&self, board: &Board) {
    }

    proof fn lemma_finished(&self, board: &Board) {
        match self {
            AnyGenerator::Backtracking(g) => g.lemma_finished(board),
            AnyGenerator::Kruskal(g) => g.lemma_finished(board),
            AnyGenerator::Eller(g) => g.lemma_finished(board),
            AnyGenerator::Prim(g) => g.lemma_finished(board),
            AnyGenerator::RecursiveDivision(g) => g.lemma_finished(board),
            AnyGenerator::AldousBroder(g) => g.lemma_finished(board),
            AnyGenerator::Wilson(g) => g.lemma_finished(board),
            AnyGenerator::HuntAndKill(g) => g.lemma_finished(board),
            AnyGenerator::GrowingTree(g) => g.lemma_finished(board),
            AnyGenerator::BinaryTree(g) => g.lemma_finished(board),
            AnyGenerator::Sidewinder(g) => g.lemma_finished(board),
        }
    }
}

/// The solving algorithms on offer.
#[derive(Debug, Clone, Copy, PartialEq, Eq, Structural)]
pub enum SolverKind {
    Djikstra,
    Backtracker,
    AStar,
    DeadEndFilling,
}

impl SolverKind {
    /// The solvers in the order in which they are offered.
    pub open spec fn list() -> Seq<SolverKind> {
        seq![
            SolverKind::Djikstra,
            SolverKind::Backtracker,
            SolverKind::AStar,
            SolverKind::DeadEndFilling,
        ]
    }

    /// The kind with the given number in the list of solvers, counted from
    /// nought; `None` for a number that is not on the list.
    pub fn from_index(index: i32) -> (kind: Option<SolverKind>)
        ensures
            kind == (if 0 <= index < 4 {
                Some(Self::list()[index as int])
            } else {
                None
            }),
    {
        match index {
            0 => Some(SolverKind::Djikstra),
            1 => Some(SolverKind::Backtracker),
            2 => Some(SolverKind::AStar),
            3 => Some(SolverKind::DeadEndFilling),
            _ => None,
        }
    }
}

/// A solver of any kind.
pub enum AnySolver {
    Djikstra(Solver),
    Backtracker(Backtracker),
    AStar(AStar),
    DeadEndFilling(DeadEndFilling),
}

impl AnySolver {
    /// The kind of the solver.
    pub open spec fn kind(&self) -> SolverKind {
        match self {
            AnySolver::Djikstra(_) => SolverKind::Djikstra,
            AnySolver::Backtracker(_) => SolverKind::Backtracker,
            AnySolver::AStar(_) => SolverKind::AStar,
            AnySolver::DeadEndFilling(_) => SolverKind::DeadEndFilling,
        }
    }

    /// The kind of the solver.
    pub fn which(&self) -> (kind: SolverKind)
        ensures
            kind == self.kind(),
    {
        match self {
            AnySolver::Djikstra(_) => SolverKind::Djikstra,
            AnySolver::Backtracker(_) => SolverKind::Backtracker,
            AnySolver::AStar(_) => SolverKind::AStar,
            AnySolver::DeadEndFilling(_) => SolverKind::DeadEndFilling,
        }
    }

    /// The solver is at the beginning of its work on `board`, which it
    /// searches from the entrance in the first cell for the exit in the
    /// last: it has taken no step yet.
    pub open spec fn is_new(&self, board: &Board) -> bool {
        let n = board.board_size;
        match self {
            AnySolver::Djikstra(g) => g.start == (0usize, 0usize) && g.end == (
                (n - 1) as usize,
                (n - 1) as usize,
            ) && g.board_size == n && g.is_new(),
            AnySolver::Backtracker(g) => g.start == (0usize, 0usize) && g.end == (
                (n - 1) as usize,
                (n - 1) as usize,
            ) && g.board_size == n && g.is_new(),
            AnySolver::AStar(g) => g.start == (0usize, 0usize) && g.end == (
                (n - 1) as usize,
                (n - 1) as usize,
            ) && g.board_size == n && g.is_new(),
            AnySolver::DeadEndFilling(g) => g.start == (0usize, 0usize) && g.end == (
                (n - 1) as usize,
                (n - 1) as usize,
            ) && g.board_size == n && g.is_new(board),
        }
    }

    /// A solver of the given kind for `board` that searches from the
    /// entrance in the first cell for the exit in the last, at the
    /// beginning of its work.
    pub fn new(kind: SolverKind, board: &Board) -> (solver: Self)
        requires
            board.wf(),
        ensures
            solver.kind() == kind,
            solver.is_new(board),
            solver.inv(board),
            solver.source() == 0,
            solver.target() == board.cells@.len() - 1,
    {
        let n: usize = board.board_size as usize;
        proof {
            assert(n * n <= i32::MAX && (n - 1) * n + (n - 1) == n * n - 1) by (nonlinear_arith)
                requires
                    n == board.board_size,
                    1 <= n,
                    board.board_size * board.board_size <= i32::MAX,
            ;
        }
        match kind {
            SolverKind::Djikstra => {
                let solver = Solver::new((0, 0), (n - 1, n - 1), n);
                proof {
                    solver.lemma_ready(board);
                }
                AnySolver::Djikstra(solver)
            },
            SolverKind::Backtracker => {
                let solver = Backtracker::new((0, 0), (n - 1, n - 1), n);
                proof {
                    solver.lemma_ready(board);
                }
                AnySolver::Backtracker(solver)
            },
            SolverKind::AStar => {
                let solver = AStar::new((0, 0), (n - 1, n - 1), n);
                proof {
                    solver.lemma_ready(board);
                }
                AnySolver::AStar(solver)
            },
            SolverKind::DeadEndFilling => AnySolver::DeadEndFilling(
                DeadEndFilling::new(board, (0, 0), (n - 1, n - 1)),
            ),
        }
    }
}

impl Pathfinder for AnySolver {
    open spec fn inv(&self, board: &Board) -> bool {
        match self {
            AnySolver::Djikstra(g) => g.inv(board),
            AnySolver::Backtracker(g) => g.inv(board),
            AnySolver::AStar(g) => g.inv(board),
            AnySolver::DeadEndFilling(g) => g.inv(board),
        }
    }

    open spec fn solved(&self) -> bool {
        match self {
            AnySolver::Djikstra(g) => g.solved(),
            AnySolver::Backtracker(g) => g.solved(),
            AnySolver::AStar(g) => g.solved(),
            AnySolver::DeadEndFilling(g) => g.solved(),
        }
    }

    open spec fn source(&self) -> int {
        match self {
            AnySolver::Djikstra(g) => g.source(),
            AnySolver::Backtracker(g) => g.source(),
            AnySolver::AStar(g) => g.source(),
            AnySolver::DeadEndFilling(g) => g.source(),
        }
    }

    open spec fn target(&self) -> int {
        match self {
            AnySolver::Djikstra(g) => g.target(),
            AnySolver::Backtracker(g) => g.target(),
            AnySolver::AStar(g) => g.target(),
            AnySolver::DeadEndFilling(g) => g.target(),
        }
    }

    open spec fn route(&self) -> Seq<usize> {
        match self {
            AnySolver::Djikstra(g) => g.route(),
            AnySolver::Backtracker(g) => g.route(),
            AnySolver::AStar(g) => g.route(),
            AnySolver::DeadEndFilling(g) => g.route(),
        }
    }

    open spec fn advanced(&self, board: &Board, then: &Self) -> bool {
        match (self, then) {
            (AnySolver::Djikstra(g), AnySolver::Djikstra(t)) => g.advanced(board, t),
            (AnySolver::Backtracker(g), AnySolver::Backtracker(t)) => g.advanced(board, t),
            (AnySolver::AStar(g), AnySolver::AStar(t)) => g.advanced(board, t),
            (AnySolver::DeadEndFilling(g), AnySolver::DeadEndFilling(t)) => g.advanced(board, t),
            _ => false,
        }
    }

    fn advance(&mut self, board: &Board) -> (outcome: Result<State, MazeError>)
        ensures
            final(self).kind() == old(self).kind(),
    {
        match self {
            AnySolver::Djikstra(g) => Pathfinder::advance(g, board),
            AnySolver::Backtracker(g) => g.advance(board),
            AnySolver::AStar(g) => g.advance(board),
            AnySolver::DeadEndFilling(g) => g.advance(board),
        }
    }

    fn get_path(&self) -> (path: &Vec<usize>) {
        match self {
            AnySolver::Djikstra(g) => g.get_path(),
            AnySolver::Backtracker(g) => g.get_path(),
            AnySolver::AStar(g) => g.get_path(),
            AnySolver::DeadEndFilling(g) => g.get_path(),
        }
    }

    fn is_solved(&self) -> (solved: bool) {
        match self {
            AnySolver::Djikstra(g) => g.is_solved(),
            AnySolver::Backtracker(g) => g.is_solved(),
            AnySolver::AStar(g) => g.is_solved(),
            AnySolver::DeadEndFilling(g) => g.is_solved(),
        }
    }

    proof fn lemma_route(&self, board: &Board) {
        match self {
            AnySolver::Djikstra(g) => g.lemma_route(board),
            AnySolver::Backtracker(g) => g.lemma_route(board),
            AnySolver::AStar(g) => g.lemma_route(board),
            AnySolver::DeadEndFilling(g) => g.lemma_route(board),
        }
    }
}

/// A board with its generator and its solver, and where the cycle stands.
pub struct Session {
    board: Board,
    generator: AnyGenerator,
    solver: AnySolver,
    state: State,
    step: usize,
}

impl Session {
    /// The board as it stands.
    pub closed spec fn board_now(&self) -> &Board {
        &self.board
    }

    /// The generator as it stands.
    pub closed spec fn generator_now(&self) -> &AnyGenerator {
        &self.generator
    }

    /// The solver as it stands.
    pub closed spec fn solver_now(&self) -> &AnySolver {
        &self.solver
    }

    /// The state of the cycle.
    pub closed spec fn state_now(&self) -> State {
        self.state
    }

    /// The count of steps taken in the phase that is under way.
    pub closed spec fn steps_now(&self) -> usize {
        self.step
    }

    /// The board, for whoever draws it.
    #[verifier::when_used_as_spec(board_now)]
    pub fn board(&self) -> (board: &Board)
        ensures
            board == self.board_now(),
    {
        &self.board
    }

    /// The generator, for whoever draws it.
    #[verifier::when_used_as_spec(generator_now)]
    pub fn generator(&self) -> (generator: &AnyGenerator)
        ensures
            generator == self.generator_now(),
    {
        &self.generator
    }

    /// The solver, with its route.
    #[verifier::when_used_as_spec(solver_now)]
    pub fn solver(&self) -> (solver: &AnySolver)
        ensures
            solver == self.solver_now(),
    {
        &self.solver
    }

    /// The state of the cycle.
    #[verifier::when_used_as_spec(state_now)]
    pub fn state(&self) -> (state: State)
        ensures
            state == self.state_now(),
    {
        self.state
    }

    /// The count of steps taken in the phase that is under way.
    #[verifier::when_used_as_spec(steps_now)]
    pub fn steps(&self) -> (steps: usize)
        ensures
            steps == self.steps_now(),
    {
        self.step
    }

    /// The parts of the session fit together: the generator is a thorough
    /// one and fits the board; once generation is over, the generator has
    /// finished; and while the maze is being solved, the solver fits the
    /// board and searches from the entrance for the exit.
    pub closed spec fn wf(&self) -> bool {
        &&& self.board.wf()
        &&& self.generator.inv(&self.board)
        &&& self.generator.thorough()
        &&& match self.state {
            State::Wait => !self.generator.finished(),
            State::Generate => !self.generator.finished(),
            State::GenerationDone => self.generator.finished(),
            State::Solve => self.generator.finished() && self.solving() && !self.solver.solved(),
            State::Done => self.generator.finished() && self.solving() && self.solver.solved(),
        }
    }

    /// The solver fits the board and searches from the entrance in the
    /// first cell for the exit in the last.
    pub closed spec fn solving(&self) -> bool {
        &&& self.solver.inv(&self.board)
        &&& self.solver.source() == 0
        &&& self.solver.target() == self.board.cells@.len() - 1
    }

    /// A solver of the given kind for the board that searches from the
    /// entrance in the first cell for the exit in the last, at the
    /// beginning of its work.
    pub fn init_solver(board: &Board, kind: SolverKind) -> (solver: AnySolver)
        requires
            board.wf(),
        ensures
            solver.kind() == kind,
            solver.is_new(board),
            solver.inv(board),
            solver.source() == 0,
            solver.target() == board.cells@.len() - 1,
    {
        AnySolver::new(kind, board)
    }

    /// A session on a fresh board of `cell_count` cells a side, waiting
    /// for its generator of the given kind to be started. The generator
    /// replays the same draws for the same `seed`; without a seed it draws
    /// from the thread's source of randomness. The solver is the first on
    /// the list until another is selected.
    pub fn new(
        kind: GeneratorKind,
        border: i32,
        cell_count: i32,
        cell_size: i32,
        seed: Option<u64>,
    ) -> (session: Self)
        requires
            1 <= cell_count,
            cell_count * cell_count <= i32::MAX,
        ensures
            session.wf(),
            session.state() == State::Wait,
            session.steps() == 0,
            session.generator().kind() == kind,
            session.solver().kind() == SolverKind::Djikstra,
            session.solver().is_new(session.board()),
            session.board().board_size == cell_count,
            session.board().cell_size == cell_size,
            session.board().x == border,
            session.board().y == border,
            !session.board().finish,
            seed matches Some(seed) ==> session.made_with(kind, cell_count, seed),
    {
        let mut board = Board::new(border, cell_count, cell_size);
        let dice = match seed {
            Some(seed) => Dice::seeded(seed),
            None => Dice::fresh(),
        };
        let generator = AnyGenerator::new(kind, &mut board, dice);
        let solver = Self::init_solver(&board, SolverKind::Djikstra);
        Self { board, generator, solver, state: State::Wait, step: 0 }
    }

    /// What `start` leaves of the session: a session that waited
    /// generates, and nothing else has changed.
    pub open spec fn started(&self, then: &Session) -> bool {
        &&& then.state() == (if self.state() == State::Wait {
            State::Generate
        } else {
            self.state()
        })
        &&& then.board() == self.board()
        &&& then.generator() == self.generator()
        &&& then.solver() == self.solver()
        &&& then.steps() == self.steps()
    }

    /// Starts the generation: a session that waits begins to generate. In
    /// any other state nothing changes.
    pub fn start(&mut self)
        requires
            old(self).wf(),
        ensures
            final(self).wf(),
            old(self).started(final(self)),
    {
        match self.state {
            State::Wait => {
                self.state = State::Generate;
            },
            _ => {},
        }
    }

    /// Puts a new solver of the given kind, at the beginning of its work,
    /// in place of the one there is. A maze that was being solved, or was
    /// solved, is to be solved again.
    pub fn select_solver(&mut self, kind: SolverKind)
        requires
            old(self).wf(),
        ensures
            final(self).wf(),
            final(self).solver().kind() == kind,
            final(self).solver().is_new(final(self).board()),
            final(self).board() == old(self).board(),
            final(self).generator() == old(self).generator(),
            final(self).steps() == old(self).steps(),
            final(self).state() == (match old(self).state() {
                State::Solve | State::Done => State::GenerationDone,
                other => other,
            }),
    {
        self.solver = Self::init_solver(&self.board, kind);
        match self.state {
            State::Solve | State::Done => {
                self.state = State::GenerationDone;
            },
            _ => {},
        }
    }

    /// Starts solving with a new solver of the kind selected, once the
    /// maze has been generated or is being solved or has been solved
    /// already: the search and the count of steps begin anew, whatever the
    /// solver before had found. While the maze is not generated yet,
    /// nothing changes.
    pub fn solve(&mut self)
        requires
            old(self).wf(),
        ensures
            final(self).wf(),
            final(self).board() == old(self).board(),
            final(self).generator() == old(self).generator(),
            final(self).solver().kind() == old(self).solver().kind(),
            match old(self).state() {
                State::Wait | State::Generate => *final(self) == *old(self),
                _ => {
                    &&& final(self).solver().is_new(final(self).board())
                    &&& final(self).steps() == 0
                    &&& final(self).state() == (if final(self).solver().solved() {
                        State::Done
                    } else {
                        State::Solve
                    })
                },
            },
    {
        match self.state {
            State::Wait | State::Generate => {},
            _ => {
                let kind = self.solver.which();
                self.solver = Self::init_solver(&self.board, kind);
                self.state = if self.solver.is_solved() {
                    State::Done
                } else {
                    State::Solve
                };
                self.step = 0;
            },
        }
    }

    /// The count of steps after one more step.
    pub open spec fn counted(step: usize) -> usize {
        if step < usize::MAX {
            (step + 1) as usize
        } else {
            step
        }
    }

    /// What one step of whatever is under way leaves behind. While
    /// generating, the generator has taken a step, and the state is
    /// `GenerationDone` with its last; the maze is then perfect. While
    /// solving, the solver has taken a step; the state is `Done` when the
    /// route is complete, which then leads from the exit to the entrance
    /// through passages. Either way the count of steps has gone up by one,
    /// unless it stood at its limit. In the other states nothing has
    /// happened.
    pub open spec fn ticked(&self, then: &Session) -> bool {
        &&& then.board().board_size == self.board().board_size
        &&& then.generator().kind() == self.generator().kind()
        &&& then.solver().kind() == self.solver().kind()
        &&& match self.state() {
            State::Generate => {
                &&& then.state() == (if then.generator().finished() {
                    State::GenerationDone
                } else {
                    State::Generate
                })
                &&& self.generator().stepped(self.board(), then.generator(), then.board())
                &&& self.generator().drew(self.board(), then.generator(), then.board())
                &&& then.steps() == Self::counted(self.steps())
                &&& then.solver() == self.solver()
                &&& then.generator().finished() ==> then.board().is_perfect()
            },
            State::Solve => {
                &&& then.board() == self.board()
                &&& then.generator() == self.generator()
                &&& then.state() == (if then.solver().solved() {
                    State::Done
                } else {
                    State::Solve
                })
                &&& then.steps() == Self::counted(self.steps())
                &&& self.solver().advanced(self.board(), then.solver())
                &&& then.solver().solved() ==> is_route(
                    then.board(),
                    then.solver().route(),
                    0,
                    then.board().cells@.len() - 1,
                )
            },
            _ => *then == *self,
        }
    }

    /// A phase is under way: the maze is being generated or solved.
    pub open spec fn under_way(&self) -> bool {
        self.state() == State::Generate || self.state() == State::Solve
    }

    /// `then` is what `count` steps in a row leave of the session, each
    /// but the first taken from a sound session in the state that the
    /// first was taken in.
    pub open spec fn ran(&self, count: nat, then: &Session) -> bool
        decreases count,
    {
        if count == 0 {
            *then == *self
        } else {
            exists|mid: Session|
                #![trigger mid.ticked(then)]
                self.ran((count - 1) as nat, &mid) && mid.wf() && mid.state() == self.state()
                    && mid.ticked(then)
        }
    }

    /// `then` is what steps in a row leave of the session when they go on
    /// until the state changes or `budget` steps have been taken, whichever
    /// comes first.
    pub open spec fn ran_for(&self, budget: usize, then: &Session) -> bool {
        exists|count: nat|
            #![trigger self.ran(count, then)]
            {
                &&& count <= budget
                &&& self.ran(count, then)
                &&& count == budget || then.state() != self.state()
            }
    }

    /// One more step after `count` steps in a row makes `count + 1` steps in
    /// a row.
    pub proof fn lemma_ran_on(&self, count: nat, mid: &Session, then: &Session)
        requires
            self.ran(count, mid),
            mid.wf(),
            mid.state() == self.state(),
            mid.ticked(then),
        ensures
            self.ran(count + 1, then),
    {
        assert(self.ran(((count + 1) - 1) as nat, mid));
    }

    /// One step of whatever is under way: of the generator while
    /// generating, of the solver while solving, which always succeeds,
    /// since every cell of a perfect maze can be reached. In the other
    /// states nothing happens.
    pub fn tick(&mut self) -> (state: State)
        requires
            old(self).wf(),
        ensures
            final(self).wf(),
            state == final(self).state(),
            old(self).ticked(final(self)),
    {
        match self.state {
            State::Generate => {
                self.state = self.generator.step(&mut self.board);
                if self.step < usize::MAX {
                    self.step = self.step + 1;
                }
            },
            State::Solve => {
                proof {
                    self.generator.lemma_finished(&self.board);
                    assert(self.board.cells@.len() >= 1) by (nonlinear_arith)
                        requires
                            self.board.cells@.len() == self.board.board_size
                                * self.board.board_size,
                            1 <= self.board.board_size,
                    ;
                    assert(self.board.connected(0, self.board.cells@.len() - 1));
                }
                match self.solver.advance(&self.board) {
                    Ok(state) => {
                        self.state = state;
                        if self.step < usize::MAX {
                            self.step = self.step + 1;
                        }
                    },
                    Err(_) => {},
                }
            },
            _ => {},
        }
        self.state
    }

    /// Steps of the phase that is under way, one after the other, until the
    /// state changes or `budget` steps have been taken, whichever comes
    /// first. In a state other than `Generate` and `Solve` nothing happens.
    pub fn run(&mut self, budget: usize) -> (state: State)
        requires
            old(self).wf(),
        ensures
            final(self).wf(),
            state == final(self).state(),
            final(self).board().board_size == old(self).board().board_size,
            final(self).generator().kind() == old(self).generator().kind(),
            final(self).solver().kind() == old(self).solver().kind(),
            !old(self).under_way() ==> *final(self) == *old(self),
            old(self).ran_for(budget, final(self)),
            old(self).under_way() ==> final(self).state() != old(self).state() || final(self).steps()
                - old(self).steps() == budget || final(self).steps() == usize::MAX,
            final(self).steps() - old(self).steps() <= budget,
            old(self).state() == State::Generate ==> final(self).state() == State::Generate
                || final(self).state() == State::GenerationDone,
            old(self).state() == State::Solve ==> final(self).state() == State::Solve
                || final(self).state() == State::Done,
            final(self).state() == State::GenerationDone ==> final(self).board().is_perfect(),
            final(self).state() == State::Done ==> is_route(
                final(self).board(),
                final(self).solver().route(),
                0,
                final(self).board().cells@.len() - 1,
            ),
    {
        let begun: State = self.state;
        let mut left: usize = budget;
        proof {
            if self.state == State::GenerationDone {
                self.generator.lemma_finished(&self.board);
            }
            if self.state == State::Done {
                self.lemma_solved();
            }
        }
        while left > 0 && self.state == begun && (begun == State::Generate || begun
            == State::Solve)
            invariant
                self.wf(),
                left <= budget,
                self.board.board_size == old(self).board.board_size,
                self.generator.kind() == old(self).generator.kind(),
                self.solver.kind() == old(self).solver.kind(),
                old(self).ran((budget - left) as nat, self),
                left < budget ==> begun == State::Generate || begun == State::Solve,
                self.step - old(self).step == budget - left || self.step == usize::MAX,
                self.step - old(self).step <= budget - left,
                begun == old(self).state,
                begun == State::Generate ==> self.state == State::Generate || self.state
                    == State::GenerationDone,
                begun == State::Solve ==> self.state == State::Solve || self.state == State::Done,
                self.state == State::GenerationDone ==> self.board.is_perfect(),
                self.state == State::Done ==> is_route(
                    &self.board,
                    self.solver.route(),
                    0,
                    self.board.cells@.len() - 1,
                ),
            decreases left,
        {
            let ghost before = *self;
            let _ = self.tick();
            left = left - 1;
            proof {
                old(self).lemma_ran_on((budget - left - 1) as nat, &before, self);
            }
        }
        proof {
            let count = (budget - left) as nat;
            assert(old(self).ran(count, self));
            if !old(self).under_way() {
                let whole = budget as nat;
                old(self).lemma_idle(whole);
            }
        }
        self.state
    }

    /// Whether the session is as `new` makes it for a generator of the
    /// given kind, a board of `cell_count` cells a side and dice made from
    /// `seed`: it waits, with the generator that those dice make for a fresh
    /// board of that size.
    pub open spec fn made_with(&self, kind: GeneratorKind, cell_count: i32, seed: u64) -> bool {
        &&& self.state() == State::Wait
        &&& self.steps() == 0
        &&& self.generator().kind() == kind
        &&& exists|fresh: Board|
            #![trigger fresh.is_fresh()]
            {
                &&& fresh.wf()
                &&& fresh.is_fresh()
                &&& fresh.board_size == cell_count
                &&& fresh.path@ == seq![0usize]
                &&& !fresh.finish
                &&& self.generator().made_with(seeded_state(seed), &fresh, self.board())
            }
    }

    /// Whether `other` is where this session is in the generation of its
    /// maze: in the same state after as many steps, with the same maze and
    /// with generators that stand alike.
    pub open spec fn alike(&self, other: &Session) -> bool {
        &&& other.state() == self.state()
        &&& other.steps() == self.steps()
        &&& self.board().same_maze(other.board())
        &&& self.generator().alike(other.generator())
    }

    /// The same seed gives the same beginning: two sessions made for
    /// generators of one kind, boards of one size and the same seed are
    /// alike.
    pub proof fn lemma_same_seed(
        &self,
        other: &Session,
        kind: GeneratorKind,
        cell_count: i32,
        seed: u64,
    )
        requires
            self.made_with(kind, cell_count, seed),
            other.made_with(kind, cell_count, seed),
        ensures
            self.alike(other),
    {
        let before = choose|fresh: Board|
            #![trigger fresh.is_fresh()]
            {
                &&& fresh.wf()
                &&& fresh.is_fresh()
                &&& fresh.board_size == cell_count
                &&& fresh.path@ == seq![0usize]
                &&& !fresh.finish
                &&& self.generator().made_with(seeded_state(seed), &fresh, self.board())
            };
        let first = choose|fresh: Board|
            #![trigger fresh.is_fresh()]
            {
                &&& fresh.wf()
                &&& fresh.is_fresh()
                &&& fresh.board_size == cell_count
                &&& fresh.path@ == seq![0usize]
                &&& !fresh.finish
                &&& other.generator().made_with(seeded_state(seed), &fresh, other.board())
            };
        before.lemma_fresh_alike(&first);
        self.generator().lemma_same_start(
            &before,
            self.board(),
            other.generator(),
            &first,
            other.board(),
            seeded_state(seed),
        );
    }

    /// Sessions that are alike stay alike step by step while their mazes
    /// are generated: one step of each leaves them alike.
    pub proof fn lemma_same_tick(&self, then: &Session, other: &Session, again: &Session)
        requires
            self.wf(),
            other.wf(),
            self.alike(other),
            self.state() != State::Solve,
            self.ticked(then),
            other.ticked(again),
        ensures
            then.alike(again),
            then.state() != State::Solve,
    {
        if self.state() == State::Generate {
            self.generator().lemma_same_step(
                self.board(),
                then.generator(),
                then.board(),
                other.generator(),
                other.board(),
                again.generator(),
                again.board(),
            );
            then.generator().lemma_alike_finished(again.generator());
        }
    }

    /// The same seed gives the same maze: sessions that are alike and not
    /// yet solving are alike again after the same number of steps in a row.
    /// So two sessions made with one seed go through the same states and
    /// the same boards, step by step.
    pub proof fn lemma_replay(
        &self,
        then: &Session,
        other: &Session,
        again: &Session,
        count: nat,
    )
        requires
            self.wf(),
            other.wf(),
            self.alike(other),
            self.state() != State::Solve,
            self.ran(count, then),
            other.ran(count, again),
        ensures
            then.alike(again),
        decreases count,
    {
        if count > 0 {
            let mid = choose|mid: Session|
                #![trigger mid.ticked(then)]
                self.ran((count - 1) as nat, &mid) && mid.wf() && mid.state() == self.state()
                    && mid.ticked(then);
            let half = choose|mid: Session|
                #![trigger mid.ticked(again)]
                other.ran((count - 1) as nat, &mid) && mid.wf() && mid.state() == other.state()
                    && mid.ticked(again);
            self.lemma_replay(&mid, other, &half, (count - 1) as nat);
            mid.lemma_same_tick(then, &half, again);
        }
    }

    /// The same seed gives the same maze. Two sessions made for generators
    /// of one kind, boards of one size and the same seed, then started and
    /// run on the same budget, are in the same state after the same number
    /// of steps, with the same maze: cell for cell the same walls.
    pub proof fn lemma_same_seed_same_maze(
        &self,
        begun: &Session,
        then: &Session,
        other: &Session,
        anew: &Session,
        again: &Session,
        kind: GeneratorKind,
        cell_count: i32,
        seed: u64,
        budget: usize,
    )
        requires
            self.made_with(kind, cell_count, seed),
            other.made_with(kind, cell_count, seed),
            self.started(begun),
            other.started(anew),
            begun.wf(),
            anew.wf(),
            begun.ran_for(budget, then),
            anew.ran_for(budget, again),
        ensures
            then.state() == again.state(),
            then.steps() == again.steps(),
            then.board().cells@ == again.board().cells@,
            then.alike(again),
    {
        self.lemma_same_seed(other, kind, cell_count, seed);
        begun.lemma_same_run(then, anew, again, budget);
    }

    /// While no phase is under way, steps leave the session as it is.
    pub proof fn lemma_idle(&self, count: nat)
        requires
            self.wf(),
            !self.under_way(),
        ensures
            self.ran(count, self),
        decreases count,
    {
        if count > 0 {
            self.lemma_idle((count - 1) as nat);
            self.lemma_ran_on((count - 1) as nat, self, self);
        }
    }

    /// Steps in a row pass through a sound session in the first state after
    /// each smaller number of steps.
    pub proof fn lemma_ran_part(&self, then: &Session, count: nat, part: nat) -> (mid: Session)
        requires
            self.ran(count, then),
            part < count,
        ensures
            self.ran(part, &mid),
            mid.wf(),
            mid.state() == self.state(),
        decreases count,
    {
        let last = choose|last: Session|
            #![trigger last.ticked(then)]
            self.ran((count - 1) as nat, &last) && last.wf() && last.state() == self.state()
                && last.ticked(then);
        if part == count - 1 {
            last
        } else {
            self.lemma_ran_part(&last, (count - 1) as nat, part)
        }
    }

    /// Sessions that are alike and not yet solving are alike again after
    /// each has run on the same budget: they stop after the same number of
    /// steps, in the same state, with the same maze.
    pub proof fn lemma_same_run(
        &self,
        then: &Session,
        other: &Session,
        again: &Session,
        budget: usize,
    )
        requires
            self.wf(),
            other.wf(),
            self.alike(other),
            self.state() != State::Solve,
            self.ran_for(budget, then),
            other.ran_for(budget, again),
        ensures
            then.alike(again),
    {
        let taken = choose|count: nat|
            #![trigger self.ran(count, then)]
            count <= budget && self.ran(count, then) && (count == budget || then.state()
                != self.state());
        let more = choose|count: nat|
            #![trigger other.ran(count, again)]
            count <= budget && other.ran(count, again) && (count == budget || again.state()
                != other.state());
        if taken < more {
            let mid = other.lemma_ran_part(again, more, taken);
            self.lemma_replay(then, other, &mid, taken);
        } else if more < taken {
            let mid = self.lemma_ran_part(then, taken, more);
            self.lemma_replay(&mid, other, again, more);
        } else {
            self.lemma_replay(then, other, again, taken);
        }
    }

    /// The route of a solved session leads from the exit to the entrance
    /// through passages.
    pub proof fn lemma_solved(&self)
        requires
            self.wf(),
            self.state() == State::Done,
        ensures
            is_route(self.board(), self.solver().route(), 0, self.board().cells@.len() - 1),
    {
        self.solver.lemma_route(&self.board);
    }
}

} // verus!
