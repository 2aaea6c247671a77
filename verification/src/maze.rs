//! The grid: cells, walls, and the board that owns them.

use vstd::prelude::*;

pub mod dice;
pub mod djikstra;
pub mod generator;
pub mod graph;
pub mod partition;
pub mod path;
pub mod session;
pub mod solver;

verus! {

/// The direction in which one cell lies from another.
#[derive(Debug, Clone, Copy, PartialEq, Eq, Structural)]
pub enum Direction {
    North,
    South,
    East,
    West,
}

/// Where a generate-and-solve cycle stands.
#[derive(Debug, Clone, Copy, PartialEq, Eq, Structural)]
pub enum State {
    Wait,
    Generate,
    GenerationDone,
    Solve,
    Done,
}

/// What can go wrong on the board or while solving.
#[derive(Debug, Clone, Copy, PartialEq, Eq, Structural)]
pub enum MazeError {
    /// Two cells handed to a wall removal are not grid neighbours.
    InvalidAdjacency,
    /// The slot computed for a coordinate pair holds other coordinates.
    IndexConsistency,
    /// The search ran dry before a path was found.
    Unreachable,
    /// A selection was asked of an empty candidate list. The generators
    /// are proved never to ask for one.
    EmptyFrontier,
}

impl MazeError {
    /// A short description for display.
    pub fn describe(&self) -> (text: String)
        ensures
            text@ == (match *self {
                MazeError::InvalidAdjacency => "cells are not adjacent"@,
                MazeError::IndexConsistency => "coordinates do not match the index"@,
                MazeError::Unreachable => "no path found"@,
                MazeError::EmptyFrontier => "no item selected"@,
            }),
    {
        match self {
            MazeError::InvalidAdjacency => "cells are not adjacent".to_string(),
            MazeError::IndexConsistency => "coordinates do not match the index".to_string(),
            MazeError::Unreachable => "no path found".to_string(),
            MazeError::EmptyFrontier => "no item selected".to_string(),
        }
    }
}

/// A maze generator that carves a board one step at a time.
pub trait Generator: Sized {
    /// What the generator relies on between steps: the board is the one it
    /// was made for, and nothing else has changed it since.
    spec fn inv(&self, board: &Board) -> bool;

    /// Whether the generator has reported the maze as complete.
    spec fn finished(&self) -> bool;

    /// Whether the generator goes on until the maze is perfect. Only a
    /// generator that was told to stop after a number of steps does not.
    spec fn thorough(&self) -> bool;

    /// Does one bounded unit of work and says whether more is to come. No
    /// step leaves a one-sided wall. When a thorough generator reports the
    /// maze as complete, it is perfect: a spanning tree of the grid. Once
    /// the maze is complete, further steps change nothing.
    fn step(&mut self, board: &mut Board) -> (next: State)
        requires
            old(self).inv(old(board)),
        ensures
            final(self).inv(final(board)),
            final(board).wf(),
            final(board).board_size == old(board).board_size,
            old(board).same_place(final(board)),
            final(self).thorough() == old(self).thorough(),
            final(self).finished() ==> final(board).finish,
            final(self).finished() && final(self).thorough() ==> final(board).is_perfect(),
            next == (if final(self).finished() {
                State::GenerationDone
            } else {
                State::Generate
            }),
            old(self).finished() ==> *final(self) == *old(self) && *final(board) == *old(board),
    ;

    /// Drawing is left to the renderer: this does nothing.
    fn draw(&self, board: &Board);

    /// The maze of a thorough generator that has finished is perfect, for as
    /// long as generator and board stay as they are.
    proof fn lemma_finished(&self, board: &Board)
        requires
            self.inv(board),
            self.finished(),
            self.thorough(),
        ensures
            board.is_perfect(),
    ;
}

/// The four boundary flags of a cell; `true` means the wall stands.
#[derive(Debug, Clone, Copy, PartialEq, Eq, Structural)]
pub struct Walls {
    pub left: bool,
    pub right: bool,
    pub top: bool,
    pub bottom: bool,
}

impl Default for Walls {
    fn default() -> (walls: Self)
        ensures
            walls == (Walls { left: true, right: true, top: true, bottom: true }),
    {
        Self { left: true, right: true, top: true, bottom: true }
    }
}

impl Walls {
    /// Whether the wall on the side `towards` stands.
    pub open spec fn facing(self, towards: Direction) -> bool {
        match towards {
            Direction::North => self.top,
            Direction::South => self.bottom,
            Direction::East => self.right,
            Direction::West => self.left,
        }
    }

    /// These walls with the one on the side `towards` taken down.
    pub open spec fn without(self, towards: Direction) -> Walls {
        match towards {
            Direction::North => Walls { top: false, ..self },
            Direction::South => Walls { bottom: false, ..self },
            Direction::East => Walls { right: false, ..self },
            Direction::West => Walls { left: false, ..self },
        }
    }

    /// These walls with the one on the side `towards` put up.
    pub open spec fn with(self, towards: Direction) -> Walls {
        match towards {
            Direction::North => Walls { top: true, ..self },
            Direction::South => Walls { bottom: true, ..self },
            Direction::East => Walls { right: true, ..self },
            Direction::West => Walls { left: true, ..self },
        }
    }
}

impl Direction {
    /// The direction that points back.
    pub open spec fn opposite(self) -> Direction {
        match self {
            Direction::North => Direction::South,
            Direction::South => Direction::North,
            Direction::East => Direction::West,
            Direction::West => Direction::East,
        }
    }
}

/// One square of the grid. `x` counts columns, `y` counts rows downwards.
#[derive(Debug, Clone, Copy, PartialEq, Eq, Structural)]
pub struct Cell {
    pub x: i32,
    pub y: i32,
    pub visited: bool,
    pub walls: Walls,
}

impl Cell {
    /// A fresh cell at `(x, y)`: unvisited, all four walls up.
    pub fn new(x: i32, y: i32) -> (cell: Self)
        ensures
            cell == (Cell {
                x,
                y,
                visited: false,
                walls: Walls { left: true, right: true, top: true, bottom: true },
            }),
    {
        Self { x, y, visited: false, walls: Walls::default() }
    }

    /// Whether `other` lies straight above, below, left or right of this
    /// cell, at any distance.
    pub open spec fn in_line_with(self, other: Cell) -> bool {
        (self.x == other.x && self.y != other.y) || (self.y == other.y && self.x != other.x)
    }

    /// The direction in which `other` lies from this cell.
    pub open spec fn direction_of(self, other: Cell) -> Direction {
        if self.x == other.x && self.y < other.y {
            Direction::South
        } else if self.x == other.x && self.y > other.y {
            Direction::North
        } else if self.x > other.x {
            Direction::West
        } else {
            Direction::East
        }
    }

    /// Whether `other` is one step away along exactly one axis.
    pub open spec fn touches(self, other: Cell) -> bool {
        (self.x == other.x && (self.y - other.y == 1 || other.y - self.y == 1)) || (self.y
            == other.y && (self.x - other.x == 1 || other.x - self.x == 1))
    }

    /// Gives the direction of the other cell seen from this one.
    pub fn direction(&self, other: &Cell) -> (towards: Direction)
        requires
            self.in_line_with(*other),
        ensures
            towards == self.direction_of(*other),
    {
        if self.x == other.x && self.y < other.y {
            Direction::South
        } else if self.x == other.x && self.y > other.y {
            Direction::North
        } else if self.x > other.x && self.y == other.y {
            Direction::West
        } else {
            Direction::East
        }
    }

    /// The direction of the other cell, or `None` when the two cells do not
    /// share a row or a column, or are the same place.
    pub fn direction_to(&self, other: &Cell) -> (towards: Option<Direction>)
        ensures
            towards == (if self.in_line_with(*other) {
                Some(self.direction_of(*other))
            } else {
                None
            }),
    {
        if (self.x == other.x && self.y != other.y) || (self.y == other.y && self.x != other.x) {
            Some(self.direction(other))
        } else {
            None
        }
    }
}

/// The grid of cells, stored column by column: the cell at `(x, y)` sits at
/// index `x * board_size + y`.
#[derive(Debug, Clone, PartialEq, Eq)]
pub struct Board {
    pub cells: Vec<Cell>,
    pub path: Vec<usize>,
    pub board_size: i32,
    pub finish: bool,
    pub cell_size: i32,
    pub x: i32,
    pub y: i32,
}

impl Board {
    /// The number of cells.
    pub open spec fn area(&self) -> int {
        self.board_size * self.board_size
    }

    /// The slot of the cell at `(x, y)`.
    pub open spec fn slot(&self, x: int, y: int) -> int {
        x * self.board_size + y
    }

    /// Whether `i` is the index of a cell.
    pub open spec fn in_grid(&self, i: int) -> bool {
        0 <= i < self.cells@.len()
    }

    /// The shape of the grid: the side is positive, every index fits in an
    /// `i32`, and each cell stores the coordinates of its own slot.
    pub open spec fn shaped(&self) -> bool {
        &&& 1 <= self.board_size
        &&& self.area() <= i32::MAX
        &&& self.cells@.len() == self.area()
        &&& forall|i: int|
            0 <= i < self.cells@.len() ==> {
                &&& 0 <= (#[trigger] self.cells@[i]).x < self.board_size
                &&& 0 <= self.cells@[i].y < self.board_size
                &&& self.cells@[i].x * self.board_size + self.cells@[i].y == i
            }
    }

    /// Whether cells `a` and `b` are neighbours on the grid.
    pub open spec fn adjacent(&self, a: int, b: int) -> bool {
        self.in_grid(a) && self.in_grid(b) && self.cells@[a].touches(self.cells@[b])
    }

    /// Whether a wall stands on the side of `a` that faces `b`.
    pub open spec fn wall_towards(&self, a: int, b: int) -> bool {
        self.cells@[a].walls.facing(self.cells@[a].direction_of(self.cells@[b]))
    }

    /// No wall is one-sided: between any two neighbours, either both facing
    /// flags are up or both are down.
    pub open spec fn walls_paired(&self) -> bool {
        forall|a: int, b: int| #[trigger]
            self.adjacent(a, b) ==> self.wall_towards(a, b) == self.wall_towards(b, a)
    }

    /// A well-formed board: a proper grid without one-sided walls.
    pub open spec fn wf(&self) -> bool {
        self.shaped() && self.walls_paired()
    }

    /// Whether one can step from `a` to its neighbour `b`.
    pub open spec fn linked(&self, a: int, b: int) -> bool {
        self.adjacent(a, b) && !self.wall_towards(a, b)
    }

    /// The neighbours of cell `i` as the slots above, below, left and
    /// right of it, `None` where the grid ends.
    pub open spec fn neighbor_seq(&self, i: int) -> Seq<Option<usize>> {
        let c = self.cells@[i];
        seq![
            if c.y > 0 { Some((i - 1) as usize) } else { None },
            if c.y < self.board_size - 1 { Some((i + 1) as usize) } else { None },
            if c.x > 0 { Some((i - self.board_size) as usize) } else { None },
            if c.x < self.board_size - 1 { Some((i + self.board_size) as usize) } else { None },
        ]
    }

    /// The cells after the wall between `a` and `b` has been taken down on
    /// both sides and both cells have been marked visited.
    pub open spec fn carved_cells(&self, a: int, b: int) -> Seq<Cell> {
        carve_pair(self.cells@, a, b)
    }

    /// Which cells count as visited.
    pub open spec fn visited_flags(&self) -> Seq<bool> {
        Seq::new(self.cells@.len(), |i: int| self.cells@[i].visited)
    }

    /// Whether `other` has the cells of this board with the passage between
    /// `a` and `b` opened.
    pub open spec fn carved_into(&self, a: int, b: int, other: &Board) -> bool {
        other.cells@ == self.carved_cells(a, b) && other.board_size == self.board_size
    }

    /// The cells after a wall has been put up between `a` and `b`, on both
    /// sides.
    pub open spec fn fenced_cells(&self, a: int, b: int) -> Seq<Cell> {
        let ca = self.cells@[a];
        let cb = self.cells@[b];
        self.cells@.update(a, Cell { walls: ca.walls.with(ca.direction_of(cb)), ..ca }).update(
            b,
            Cell { walls: cb.walls.with(cb.direction_of(ca)), ..cb },
        )
    }

    /// Whether `other` has the cells of this board with the passage between
    /// `a` and `b` walled up.
    pub open spec fn fenced_into(&self, a: int, b: int, other: &Board) -> bool {
        other.cells@ == self.fenced_cells(a, b) && other.board_size == self.board_size
    }

    /// Whether no passage has been opened yet.
    pub open spec fn walled(&self) -> bool {
        forall|a: int, b: int| !#[trigger] self.linked(a, b)
    }

    /// Whether `other` has the same cells on the same grid.
    pub open spec fn same_grid(&self, other: &Board) -> bool {
        other.cells@ == self.cells@ && other.board_size == self.board_size
    }

    /// Whether `other` has the same walls on the same grid; which cells
    /// count as visited may differ.
    pub open spec fn same_walls(&self, other: &Board) -> bool {
        &&& other.board_size == self.board_size
        &&& other.cells@.len() == self.cells@.len()
        &&& forall|i: int|
            0 <= i < self.cells@.len() ==> (#[trigger] other.cells@[i]).x == self.cells@[i].x
                && other.cells@[i].y == self.cells@[i].y && other.cells@[i].walls
                == self.cells@[i].walls
    }

    /// Whether `other` is the same maze in the same state: the same cells
    /// on the same grid, the same path and the same flag.
    pub open spec fn same_maze(&self, other: &Board) -> bool {
        &&& other.cells@ == self.cells@
        &&& other.board_size == self.board_size
        &&& other.path@ == self.path@
        &&& other.finish == self.finish
    }

    /// Whether `other` agrees with this board on where and how large it is
    /// drawn.
    pub open spec fn same_place(&self, other: &Board) -> bool {
        other.cell_size == self.cell_size && other.x == self.x && other.y == self.y
    }
}


/// `cells` after the wall between the cells at `a` and `b` has been taken
/// down on both sides and both cells have been marked visited.
pub open spec fn carve_pair(cells: Seq<Cell>, a: int, b: int) -> Seq<Cell> {
    let ca = cells[a];
    let cb = cells[b];
    cells.update(
        a,
        Cell { visited: true, walls: ca.walls.without(ca.direction_of(cb)), ..ca },
    ).update(b, Cell { visited: true, walls: cb.walls.without(cb.direction_of(ca)), ..cb })
}

/// Coordinates within a column determine the slot: two pairs that give the
/// same index are the same pair.
pub proof fn lemma_coords_unique(n: int, x1: int, y1: int, x2: int, y2: int)
    requires
        0 <= y1 < n,
        0 <= y2 < n,
        x1 * n + y1 == x2 * n + y2,
    ensures
        x1 == x2,
        y1 == y2,
{
    assert(x1 == x2) by (nonlinear_arith)
        requires
            0 <= y1 < n,
            0 <= y2 < n,
            x1 * n + y1 == x2 * n + y2,
    {
        if x1 > x2 {
            assert((x1 - x2) * n >= n);
        }
        if x1 < x2 {
            assert((x2 - x1) * n >= n);
        }
    }
}

/// The index of `(x, y)` on a grid of side `n` lies within the grid, and
/// moving one column over moves the index by `n`.
pub proof fn lemma_index_bounds(n: int, x: int, y: int)
    requires
        0 <= x < n,
        0 <= y < n,
    ensures
        0 <= x * n + y < n * n,
        (x + 1) * n + y == x * n + y + n,
        (x - 1) * n + y == x * n + y - n,
{
    assert(0 <= x * n && x * n + n <= n * n && (x + 1) * n == x * n + n && (x - 1) * n == x * n
        - n) by (nonlinear_arith)
        requires
            0 <= x < n,
    ;
}

impl Board {
    /// On a shaped board the four neighbours of a cell sit one slot or one
    /// column away, and hold the coordinates one would expect.
    pub proof fn lemma_neighbors(&self, i: int)
        requires
            self.shaped(),
            self.in_grid(i),
        ensures
            self.cells@[i].y > 0 ==> self.in_grid(i - 1) && self.cells@[i - 1].x
                == self.cells@[i].x && self.cells@[i - 1].y == self.cells@[i].y - 1,
            self.cells@[i].y < self.board_size - 1 ==> self.in_grid(i + 1) && self.cells@[i + 1].x
                == self.cells@[i].x && self.cells@[i + 1].y == self.cells@[i].y + 1,
            self.cells@[i].x > 0 ==> self.in_grid(i - self.board_size) && self.cells@[i
                - self.board_size].x == self.cells@[i].x - 1 && self.cells@[i - self.board_size].y
                == self.cells@[i].y,
            self.cells@[i].x < self.board_size - 1 ==> self.in_grid(i + self.board_size)
                && self.cells@[i + self.board_size].x == self.cells@[i].x + 1 && self.cells@[i
                + self.board_size].y == self.cells@[i].y,
    {
        let n = self.board_size as int;
        let c = self.cells@[i];
        let x = c.x as int;
        let y = c.y as int;
        lemma_index_bounds(n, x, y);
        if y > 0 {
            lemma_index_bounds(n, x, y - 1);
            let d = self.cells@[i - 1];
            lemma_coords_unique(n, d.x as int, d.y as int, x, y - 1);
        }
        if y < n - 1 {
            lemma_index_bounds(n, x, y + 1);
            let d = self.cells@[i + 1];
            lemma_coords_unique(n, d.x as int, d.y as int, x, y + 1);
        }
        if x > 0 {
            lemma_index_bounds(n, x - 1, y);
            let d = self.cells@[i - n];
            lemma_coords_unique(n, d.x as int, d.y as int, x - 1, y);
        }
        if x < n - 1 {
            lemma_index_bounds(n, x + 1, y);
            let d = self.cells@[i + n];
            lemma_coords_unique(n, d.x as int, d.y as int, x + 1, y);
        }
    }

    /// The slot computed for a coordinate pair holds that pair.
    pub proof fn lemma_slot(&self, x: int, y: int)
        requires
            self.shaped(),
            0 <= x < self.board_size,
            0 <= y < self.board_size,
        ensures
            self.in_grid(self.slot(x, y)),
            self.cells@[self.slot(x, y)].x == x,
            self.cells@[self.slot(x, y)].y == y,
            self.slot(x + 1, y) == self.slot(x, y) + self.board_size,
            self.slot(x, y + 1) == self.slot(x, y) + 1,
    {
        lemma_index_bounds(self.board_size as int, x, y);
        let c = self.cells@[self.slot(x, y)];
        lemma_coords_unique(self.board_size as int, c.x as int, c.y as int, x, y);
    }

    /// Two neighbours are one slot or one column apart.
    pub proof fn lemma_adjacent_offsets(&self, a: int, b: int)
        requires
            self.shaped(),
            self.adjacent(a, b),
        ensures
            a != b,
            self.cells@[a].direction_of(self.cells@[b]) == self.cells@[b].direction_of(
                self.cells@[a],
            ).opposite(),
            match self.cells@[a].direction_of(self.cells@[b]) {
                Direction::North => b == a - 1,
                Direction::South => b == a + 1,
                Direction::West => b == a - self.board_size,
                Direction::East => b == a + self.board_size,
            },
    {
        let n = self.board_size as int;
        let ca = self.cells@[a];
        let cb = self.cells@[b];
        lemma_index_bounds(n, ca.x as int, ca.y as int);
        lemma_index_bounds(n, cb.x as int, cb.y as int);
    }

    /// Cells that hold the same coordinates are the same cell.
    pub proof fn lemma_same_place(&self, a: int, b: int)
        requires
            self.shaped(),
            self.in_grid(a),
            self.in_grid(b),
            self.cells@[a].x == self.cells@[b].x,
            self.cells@[a].y == self.cells@[b].y,
        ensures
            a == b,
    {
    }

    /// Opening a passage between two neighbours keeps the board well formed,
    /// links the two, and leaves every other pair as it was.
    pub proof fn lemma_carved(&self, a: int, b: int, other: &Board)
        requires
            self.wf(),
            self.adjacent(a, b),
            self.carved_into(a, b, other),
        ensures
            other.wf(),
            other.linked(a, b),
            other.linked(b, a),
            forall|p: int, q: int| #[trigger]
                other.adjacent(p, q) <==> self.adjacent(p, q),
            forall|p: int, q: int| #[trigger]
                other.linked(p, q) <==> self.linked(p, q) || (p == a && q == b) || (p == b && q
                    == a),
            forall|i: int|
                self.in_grid(i) ==> (#[trigger] other.cells@[i]).x == self.cells@[i].x
                    && other.cells@[i].y == self.cells@[i].y && other.cells@[i].visited == (
                self.cells@[i].visited || i == a || i == b),
    {
        self.lemma_adjacent_offsets(a, b);
        assert forall|p: int, q: int| #[trigger] other.adjacent(p, q) implies other.wall_towards(
            p,
            q,
        ) == other.wall_towards(q, p) && (other.linked(p, q) <==> self.linked(p, q) || (p == a && q
            == b) || (p == b && q == a)) by {
            assert(self.adjacent(p, q));
            self.lemma_adjacent_offsets(p, q);
        }
        assert forall|p: int, q: int| #[trigger]
            other.linked(p, q) <==> self.linked(p, q) || (p == a && q == b) || (p == b && q
                == a) by {
            if other.adjacent(p, q) {
            } else {
                assert(!self.adjacent(p, q));
            }
        }
    }

    /// Walling up the passage between two neighbours keeps the board well
    /// formed, parts the two, and leaves every other pair as it was.
    pub proof fn lemma_fenced(&self, a: int, b: int, other: &Board)
        requires
            self.wf(),
            self.adjacent(a, b),
            self.fenced_into(a, b, other),
        ensures
            other.wf(),
            !other.linked(a, b),
            !other.linked(b, a),
            forall|p: int, q: int| #[trigger]
                other.adjacent(p, q) <==> self.adjacent(p, q),
            forall|p: int, q: int| #[trigger]
                other.linked(p, q) <==> self.linked(p, q) && !(p == a && q == b) && !(p == b && q
                    == a),
            forall|i: int|
                self.in_grid(i) ==> (#[trigger] other.cells@[i]).x == self.cells@[i].x
                    && other.cells@[i].y == self.cells@[i].y && other.cells@[i].visited
                    == self.cells@[i].visited,
    {
        self.lemma_adjacent_offsets(a, b);
        assert forall|p: int, q: int| #[trigger] other.adjacent(p, q) implies other.wall_towards(
            p,
            q,
        ) == other.wall_towards(q, p) && (other.linked(p, q) <==> self.linked(p, q) && !(p == a
            && q == b) && !(p == b && q == a)) by {
            assert(self.adjacent(p, q));
            self.lemma_adjacent_offsets(p, q);
        }
        assert forall|p: int, q: int| #[trigger]
            other.linked(p, q) <==> self.linked(p, q) && !(p == a && q == b) && !(p == b && q
                == a) by {
            if other.adjacent(p, q) {
            } else {
                assert(!self.adjacent(p, q));
            }
        }
    }

    /// Fills an empty board with its cells, all walls up, and opens the
    /// entrance on the first cell and the exit on the last.
    fn init(&mut self)
        requires
            old(self).cells@.len() == 0,
            1 <= old(self).board_size,
            old(self).area() <= i32::MAX,
        ensures
            final(self).shaped(),
            final(self).is_fresh(),
            final(self).path@ == old(self).path@,
            final(self).board_size == old(self).board_size,
            final(self).finish == old(self).finish,
            final(self).cell_size == old(self).cell_size,
            final(self).x == old(self).x,
            final(self).y == old(self).y,
    {
        let n: i32 = self.board_size;
        let mut i: i32 = 0;
        while i < n
            invariant
                0 <= i <= n,
                n == self.board_size,
                1 <= n,
                n * n <= i32::MAX,
                self.cells@.len() == i * n,
                self.path@ == old(self).path@,
                self.finish == old(self).finish,
                self.cell_size == old(self).cell_size,
                self.x == old(self).x,
                self.y == old(self).y,
                forall|k: int|
                    0 <= k < self.cells@.len() ==> {
                        &&& 0 <= (#[trigger] self.cells@[k]).x < n
                        &&& 0 <= self.cells@[k].y < n
                        &&& self.cells@[k].x * n + self.cells@[k].y == k
                        &&& !self.cells@[k].visited
                        &&& self.cells@[k].walls == (Walls {
                            left: true,
                            right: true,
                            top: true,
                            bottom: true,
                        })
                    },
            decreases n - i,
        {
            let mut j: i32 = 0;
            while j < n
                invariant
                    0 <= i < n,
                    0 <= j <= n,
                    n == self.board_size,
                    n * n <= i32::MAX,
                    self.cells@.len() == i * n + j,
                    self.path@ == old(self).path@,
                    self.finish == old(self).finish,
                    self.cell_size == old(self).cell_size,
                    self.x == old(self).x,
                    self.y == old(self).y,
                    forall|k: int|
                        0 <= k < self.cells@.len() ==> {
                            &&& 0 <= (#[trigger] self.cells@[k]).x < n
                            &&& 0 <= self.cells@[k].y < n
                            &&& self.cells@[k].x * n + self.cells@[k].y == k
                            &&& !self.cells@[k].visited
                            &&& self.cells@[k].walls == (Walls {
                                left: true,
                                right: true,
                                top: true,
                                bottom: true,
                            })
                        },
                decreases n - j,
            {
                self.cells.push(Cell::new(i, j));
                j += 1;
            }
            proof {
                lemma_index_bounds(n as int, i as int, 0);
            }
            i += 1;
        }
        assert(self.cells@.len() == n * n && n * n >= 1) by (nonlinear_arith)
            requires
                self.cells@.len() == i * n,
                i == n,
                1 <= n,
        ;
        let last: usize = self.cells.len() - 1;
        let mut first_cell: Cell = self.cells[0];
        first_cell.visited = true;
        first_cell.walls.left = false;
        self.cells.set(0, first_cell);
        let mut last_cell: Cell = self.cells[last];
        last_cell.walls.right = false;
        self.cells.set(last, last_cell);
    }

    /// A board as `new` leaves it: only the first cell is visited, every
    /// wall stands but the entrance on the left of the first cell and the
    /// exit on the right of the last.
    pub open spec fn is_fresh(&self) -> bool {
        forall|i: int|
            0 <= i < self.cells@.len() ==> {
                &&& (#[trigger] self.cells@[i]).visited == (i == 0)
                &&& self.cells@[i].walls == (Walls {
                    left: i != 0,
                    right: i != self.cells@.len() - 1,
                    top: true,
                    bottom: true,
                })
            }
    }

    /// A board of `board_size` by `board_size` cells with every inner wall
    /// up. `border` and `cell_size` place and scale the drawing.
    pub fn new(border: i32, board_size: i32, cell_size: i32) -> (board: Self)
        requires
            1 <= board_size,
            board_size * board_size <= i32::MAX,
        ensures
            board.wf(),
            board.is_fresh(),
            board.walled(),
            board.board_size == board_size,
            board.cell_size == cell_size,
            board.x == border,
            board.y == border,
            !board.finish,
            board.path@ == seq![0usize],
    {
        let mut board = Self {
            cells: Vec::new(),
            path: vec![0],
            board_size,
            finish: false,
            cell_size,
            x: border,
            y: border,
        };
        board.init();
        proof {
            board.lemma_fresh_wf();
        }
        board
    }

    /// A fresh board has no one-sided wall and no passage.
    pub proof fn lemma_fresh_wf(&self)
        requires
            self.shaped(),
            self.is_fresh(),
        ensures
            self.wf(),
            self.walled(),
    {
        assert forall|a: int, b: int| #[trigger] self.adjacent(a, b) implies self.wall_towards(a, b)
            && self.wall_towards(b, a) by {
            self.lemma_adjacent_offsets(a, b);
            self.lemma_adjacent_offsets(b, a);
            lemma_index_bounds(
                self.board_size as int,
                self.cells@[a].x as int,
                self.cells@[a].y as int,
            );
            lemma_index_bounds(
                self.board_size as int,
                self.cells@[b].x as int,
                self.cells@[b].y as int,
            );
        }
    }

    /// Fresh boards of one size have the same cells.
    pub proof fn lemma_fresh_alike(&self, other: &Board)
        requires
            self.shaped(),
            self.is_fresh(),
            other.shaped(),
            other.is_fresh(),
            other.board_size == self.board_size,
        ensures
            other.cells@ == self.cells@,
    {
        assert forall|i: int| 0 <= i < self.cells@.len() implies self.cells@[i]
            == other.cells@[i] by {
            let a = self.cells@[i];
            let b = other.cells@[i];
            lemma_coords_unique(
                self.board_size as int,
                a.x as int,
                a.y as int,
                b.x as int,
                b.y as int,
            );
        }
        assert(self.cells@ =~= other.cells@);
    }

    /// A board of its own with the same cells, path and settings.
    pub fn duplicate(&self) -> (copy: Board)
        ensures
            copy.cells@ == self.cells@,
            copy.path@ == self.path@,
            copy.board_size == self.board_size,
            copy.finish == self.finish,
            copy.cell_size == self.cell_size,
            copy.x == self.x,
            copy.y == self.y,
    {
        let mut cells: Vec<Cell> = Vec::new();
        let mut i: usize = 0;
        while i < self.cells.len()
            invariant
                i <= self.cells@.len(),
                cells@ == self.cells@.take(i as int),
            decreases self.cells@.len() - i,
        {
            cells.push(self.cells[i]);
            assert(cells@ =~= self.cells@.take(i + 1));
            i += 1;
        }
        let mut path: Vec<usize> = Vec::new();
        let mut k: usize = 0;
        while k < self.path.len()
            invariant
                k <= self.path@.len(),
                path@ == self.path@.take(k as int),
            decreases self.path@.len() - k,
        {
            path.push(self.path[k]);
            assert(path@ =~= self.path@.take(k + 1));
            k += 1;
        }
        proof {
            assert(self.cells@.take(i as int) =~= self.cells@);
            assert(self.path@.take(k as int) =~= self.path@);
        }
        Board {
            cells,
            path,
            board_size: self.board_size,
            finish: self.finish,
            cell_size: self.cell_size,
            x: self.x,
            y: self.y,
        }
    }

    /// A mutable handle on one cell.
    pub fn get_cell(&mut self, index: usize) -> (cell: &mut Cell)
        requires
            index < old(self).cells@.len(),
        ensures
            *cell == old(self).cells@[index as int],
            final(self).cells@ == old(self).cells@.update(index as int, *final(cell)),
            final(self).path@ == old(self).path@,
            final(self).board_size == old(self).board_size,
            final(self).finish == old(self).finish,
            final(self).cell_size == old(self).cell_size,
            final(self).x == old(self).x,
            final(self).y == old(self).y,
    {
        &mut self.cells[index]
    }

    /// The slot of the cell at `(x, y)`.
    pub fn get_index(&self, x: i32, y: i32) -> (index: i32)
        requires
            self.shaped(),
            0 <= x < self.board_size,
            0 <= y < self.board_size,
        ensures
            index == self.slot(x as int, y as int),
            self.in_grid(index as int),
            self.cells@[index as int].x == x,
            self.cells@[index as int].y == y,
    {
        proof {
            lemma_index_bounds(self.board_size as int, x as int, y as int);
            let c = self.cells@[x * self.board_size + y];
            lemma_coords_unique(self.board_size as int, c.x as int, c.y as int, x as int, y as int);
        }
        x * self.board_size + y
    }

    /// Whether the slot computed for `(x, y)` exists and holds those
    /// coordinates.
    pub open spec fn index_consistent(&self, x: int, y: int) -> bool {
        let i = x * self.board_size + y;
        0 <= i < self.cells@.len() && i <= i32::MAX && self.cells@[i].x == x && self.cells@[i].y
            == y
    }

    /// The slot of the cell at `(x, y)`, checked: an error where the
    /// computed slot does not exist or holds other coordinates.
    pub fn try_get_index(&self, x: i32, y: i32) -> (index: Result<i32, MazeError>)
        ensures
            self.index_consistent(x as int, y as int) ==> index == Ok::<i32, MazeError>(
                (x * self.board_size + y) as i32,
            ),
            !self.index_consistent(x as int, y as int) ==> index == Err::<i32, MazeError>(
                MazeError::IndexConsistency,
            ),
    {
        assert(-0x4000_0000_0000_0000 <= x * self.board_size <= 0x4000_0000_0000_0000)
            by (nonlinear_arith)
            requires
                -0x8000_0000 <= x <= 0x7fff_ffff,
                -0x8000_0000 <= self.board_size <= 0x7fff_ffff,
        ;
        let wide: i64 = (x as i64) * (self.board_size as i64) + (y as i64);
        if wide < 0 || wide > 0x7fff_ffff {
            return Err(MazeError::IndexConsistency);
        }
        let slot: usize = wide as usize;
        if slot >= self.cells.len() {
            return Err(MazeError::IndexConsistency);
        }
        if self.cells[slot].x == x && self.cells[slot].y == y {
            Ok(wide as i32)
        } else {
            Err(MazeError::IndexConsistency)
        }
    }

    /// The neighbours listed for a cell are exactly the cells adjacent to it.
    pub proof fn lemma_neighbor_seq(&self, i: int)
        requires
            self.shaped(),
            self.in_grid(i),
        ensures
            self.neighbor_seq(i).len() == 4,
            forall|k: int|
                0 <= k < 4 ==> (#[trigger] self.neighbor_seq(i)[k] matches Some(j)
                    ==> self.adjacent(i, j as int)),
            forall|j: int|
                self.adjacent(i, j) ==> exists|k: int|
                    0 <= k < 4 && #[trigger] self.neighbor_seq(i)[k] == Some(j as usize),
    {
        self.lemma_neighbors(i);
        let around = self.neighbor_seq(i);
        assert forall|j: int| self.adjacent(i, j) implies exists|k: int|
            0 <= k < 4 && #[trigger] around[k] == Some(j as usize) by {
            self.lemma_adjacent_offsets(i, j);
            match self.cells@[i].direction_of(self.cells@[j]) {
                Direction::North => {
                    assert(around[0] == Some(j as usize));
                },
                Direction::South => {
                    assert(around[1] == Some(j as usize));
                },
                Direction::West => {
                    assert(around[2] == Some(j as usize));
                },
                Direction::East => {
                    assert(around[3] == Some(j as usize));
                },
            }
        }
    }

    /// No cell is listed twice among the neighbours of a cell.
    pub proof fn lemma_neighbors_distinct(&self, i: int, d1: int, d2: int)
        requires
            self.shaped(),
            self.in_grid(i),
            0 <= d1 < d2 < 4,
            self.neighbor_seq(i)[d1] is Some,
        ensures
            self.neighbor_seq(i)[d1] != self.neighbor_seq(i)[d2],
    {
        self.lemma_neighbors(i);
        if self.board_size == 1 {
            assert(self.cells@[i].x == 0 && self.cells@[i].y == 0);
        }
    }

    /// The neighbours of a cell in the order top, bottom, left, right;
    /// `None` at the edge of the grid.
    pub fn neighbors(&self, cell_index: i32) -> (around: Vec<Option<usize>>)
        requires
            self.shaped(),
            self.in_grid(cell_index as int),
        ensures
            around@ == self.neighbor_seq(cell_index as int),
            forall|k: int|
                0 <= k < 4 ==> (#[trigger] around@[k] matches Some(j) ==> self.adjacent(
                    cell_index as int,
                    j as int,
                )),
            forall|j: int|
                self.adjacent(cell_index as int, j) ==> exists|k: int|
                    0 <= k < 4 && #[trigger] around@[k] == Some(j as usize),
    {
        let i: usize = cell_index as usize;
        let n: usize = self.board_size as usize;
        proof {
            self.lemma_neighbors(i as int);
        }
        let mut res = Vec::<Option<usize>>::new();
        if self.cells[i].y > 0 {
            res.push(Some(i - 1));
        } else {
            res.push(None);
        }
        if self.cells[i].y < self.board_size - 1 {
            res.push(Some(i + 1));
        } else {
            res.push(None);
        }
        if self.cells[i].x > 0 {
            res.push(Some(i - n));
        } else {
            res.push(None);
        }
        if self.cells[i].x < self.board_size - 1 {
            res.push(Some(i + n));
        } else {
            res.push(None);
        }
        proof {
            assert(res@ =~= self.neighbor_seq(i as int));
            self.lemma_neighbor_seq(i as int);
        }
        res
    }

    /// Takes down the wall between two neighbouring cells, on both sides, and
    /// marks both visited.
    pub fn remove_wall(&mut self, cell: usize, neighbor: usize)
        requires
            old(self).wf(),
            old(self).adjacent(cell as int, neighbor as int),
        ensures
            old(self).carved_into(cell as int, neighbor as int, final(self)),
            old(self).same_place(final(self)),
            final(self).path@ == old(self).path@,
            final(self).finish == old(self).finish,
            final(self).wf(),
    {
        let mut here: Cell = self.cells[cell];
        let mut there: Cell = self.cells[neighbor];
        proof {
            self.lemma_adjacent_offsets(cell as int, neighbor as int);
        }
        match here.direction(&there) {
            Direction::North => {
                here.walls.top = false;
                there.walls.bottom = false;
            },
            Direction::South => {
                here.walls.bottom = false;
                there.walls.top = false;
            },
            Direction::East => {
                here.walls.right = false;
                there.walls.left = false;
            },
            Direction::West => {
                here.walls.left = false;
                there.walls.right = false;
            },
        }
        here.visited = true;
        there.visited = true;
        self.cells.set(cell, here);
        self.cells.set(neighbor, there);
        proof {
            old(self).lemma_carved(cell as int, neighbor as int, self);
        }
    }

    /// Puts up a wall between two neighbouring cells, on both sides.
    pub fn add_wall(&mut self, cell: usize, neighbor: usize)
        requires
            old(self).wf(),
            old(self).adjacent(cell as int, neighbor as int),
        ensures
            old(self).fenced_into(cell as int, neighbor as int, final(self)),
            old(self).same_place(final(self)),
            final(self).path@ == old(self).path@,
            final(self).finish == old(self).finish,
            final(self).wf(),
    {
        let mut here: Cell = self.cells[cell];
        let mut there: Cell = self.cells[neighbor];
        proof {
            self.lemma_adjacent_offsets(cell as int, neighbor as int);
        }
        match here.direction(&there) {
            Direction::North => {
                here.walls.top = true;
                there.walls.bottom = true;
            },
            Direction::South => {
                here.walls.bottom = true;
                there.walls.top = true;
            },
            Direction::East => {
                here.walls.right = true;
                there.walls.left = true;
            },
            Direction::West => {
                here.walls.left = true;
                there.walls.right = true;
            },
        }
        self.cells.set(cell, here);
        self.cells.set(neighbor, there);
        proof {
            old(self).lemma_fenced(cell as int, neighbor as int, self);
        }
    }

    /// Takes down the wall between two cells if they are neighbours, and
    /// reports `InvalidAdjacency` otherwise, leaving the board untouched.
    pub fn try_remove_wall(&mut self, cell: usize, neighbor: usize) -> (outcome: Result<
        (),
        MazeError,
    >)
        requires
            old(self).wf(),
        ensures
            old(self).adjacent(cell as int, neighbor as int) ==> outcome is Ok && old(
                self,
            ).carved_into(cell as int, neighbor as int, final(self)) && old(self).same_place(
                final(self),
            ) && final(self).path@ == old(self).path@ && final(self).finish == old(self).finish,
            !old(self).adjacent(cell as int, neighbor as int) ==> outcome == Err::<(), MazeError>(
                MazeError::InvalidAdjacency,
            ) && *final(self) == *old(self),
            final(self).wf(),
    {
        if cell >= self.cells.len() || neighbor >= self.cells.len() {
            return Err(MazeError::InvalidAdjacency);
        }
        let here: Cell = self.cells[cell];
        let there: Cell = self.cells[neighbor];
        let near: bool = (here.x == there.x && (here.y == there.y + 1 || there.y == here.y + 1))
            || (here.y == there.y && (here.x == there.x + 1 || there.x == here.x + 1));
        if !near {
            return Err(MazeError::InvalidAdjacency);
        }
        self.remove_wall(cell, neighbor);
        Ok(())
    }
}

} // verus!
