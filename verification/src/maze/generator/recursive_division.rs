//! Recursive division: start from an open floor and cut every room in two
//! with a wall that has one gap, until only corridors are left.

use crate::maze::dice::Dice;
use crate::maze::{Board, Cell, Generator, State, Walls};
use vstd::prelude::*;

verus! {

/// A rectangle of cells: the columns from `start.0` up to but not including
/// `end.0`, and the rows from `start.1` up to but not including `end.1`.
#[derive(Debug, Clone, Copy)]
pub struct Area {
    pub start: (i32, i32),
    pub end: (i32, i32),
}

/// A wall across an area. A horizontal cut runs below row `at` and leaves
/// column `gap` open; a vertical cut runs to the right of column `at` and
/// leaves row `gap` open.
#[derive(Debug, Clone, Copy)]
pub struct Cut {
    pub horizontal: bool,
    pub at: i32,
    pub gap: i32,
}

impl Area {
    pub open spec fn width(self) -> int {
        self.end.0 - self.start.0
    }

    pub open spec fn height(self) -> int {
        self.end.1 - self.start.1
    }

    /// Whether the area is a room on a grid of side `n`: within the grid,
    /// and at least two cells wide and high, so that it can be cut either
    /// way.
    pub open spec fn fits(self, n: int) -> bool {
        &&& 0 <= self.start.0
        &&& self.start.0 + 2 <= self.end.0 <= n
        &&& 0 <= self.start.1
        &&& self.start.1 + 2 <= self.end.1 <= n
    }

    /// Whether `cell` lies in the area.
    pub open spec fn holds(self, cell: Cell) -> bool {
        self.start.0 <= cell.x < self.end.0 && self.start.1 <= cell.y < self.end.1
    }

    /// Whether the two areas share no cell.
    pub open spec fn apart(self, other: Area) -> bool {
        self.end.0 <= other.start.0 || other.end.0 <= self.start.0 || self.end.1 <= other.start.1
            || other.end.1 <= self.start.1
    }

    /// The passages that an open room has beyond those of a tree.
    pub open spec fn excess(self) -> int {
        (self.width() - 1) * (self.height() - 1)
    }

    /// Whether `cut` runs inside the area, with its gap on the cut.
    pub open spec fn admits(self, cut: Cut) -> bool {
        if cut.horizontal {
            self.start.1 <= cut.at < self.end.1 - 1 && self.start.0 <= cut.gap < self.end.0
        } else {
            self.start.0 <= cut.at < self.end.0 - 1 && self.start.1 <= cut.gap < self.end.1
        }
    }

    /// The part of the area above or left of the cut.
    pub open spec fn near_part(self, cut: Cut) -> Area {
        if cut.horizontal {
            Area { start: self.start, end: (self.end.0, (cut.at + 1) as i32) }
        } else {
            Area { start: self.start, end: ((cut.at + 1) as i32, self.end.1) }
        }
    }

    /// The part of the area below or right of the cut.
    pub open spec fn far_part(self, cut: Cut) -> Area {
        if cut.horizontal {
            Area { start: (self.start.0, (cut.at + 1) as i32), end: self.end }
        } else {
            Area { start: ((cut.at + 1) as i32, self.start.1), end: self.end }
        }
    }

    /// Whether the area is still a room, at least two cells each way. A
    /// corridor of one cell's width is a finished part of the maze.
    pub open spec fn is_room(self) -> bool {
        self.width() >= 2 && self.height() >= 2
    }

    /// The rooms that a cut leaves: the near part, then the far part, each
    /// if it is still a room.
    pub open spec fn parts(self, cut: Cut) -> Seq<Area> {
        let near = if self.near_part(cut).is_room() {
            seq![self.near_part(cut)]
        } else {
            Seq::empty()
        };
        if self.far_part(cut).is_room() {
            near.push(self.far_part(cut))
        } else {
            near
        }
    }

    /// Whether the cut puts up the wall between the neighbouring cells `c1`
    /// and `c2`.
    pub open spec fn severs(self, cut: Cut, c1: Cell, c2: Cell) -> bool {
        self.holds(c1) && self.holds(c2) && if cut.horizontal {
            c1.x == c2.x && c1.x != cut.gap && ((c1.y == cut.at && c2.y == cut.at + 1) || (c2.y
                == cut.at && c1.y == cut.at + 1))
        } else {
            c1.y == c2.y && c1.y != cut.gap && ((c1.x == cut.at && c2.x == cut.at + 1) || (c2.x
                == cut.at && c1.x == cut.at + 1))
        }
    }

    /// A cell after the cut: its wall towards the cut is up if it lies in
    /// the area on the cut, away from the gap.
    pub open spec fn cut_cell(self, cut: Cut, c: Cell) -> Cell {
        if !self.holds(c) {
            c
        } else if cut.horizontal {
            if c.x != cut.gap && c.y == cut.at {
                Cell { walls: Walls { bottom: true, ..c.walls }, ..c }
            } else if c.x != cut.gap && c.y == cut.at + 1 {
                Cell { walls: Walls { top: true, ..c.walls }, ..c }
            } else {
                c
            }
        } else {
            if c.y != cut.gap && c.x == cut.at {
                Cell { walls: Walls { right: true, ..c.walls }, ..c }
            } else if c.y != cut.gap && c.x == cut.at + 1 {
                Cell { walls: Walls { left: true, ..c.walls }, ..c }
            } else {
                c
            }
        }
    }
}

/// The cells after `cut` has been made across `area`.
pub open spec fn cut_cells(cells: Seq<Cell>, area: Area, cut: Cut) -> Seq<Cell> {
    Seq::new(cells.len(), |i: int| area.cut_cell(cut, cells[i]))
}

/// The cells after each of `areas` has been cut by the cut of the same
/// position in `cuts`.
pub open spec fn cut_all(cells: Seq<Cell>, areas: Seq<Area>, cuts: Seq<Cut>) -> Seq<Cell>
    decreases areas.len(),
{
    if areas.len() == 0 || cuts.len() != areas.len() {
        cells
    } else {
        cut_cells(cut_all(cells, areas.drop_last(), cuts.drop_last()), areas.last(), cuts.last())
    }
}

/// The rooms left after each of `areas` has been cut by the cut of the same
/// position in `cuts`.
pub open spec fn parts_all(areas: Seq<Area>, cuts: Seq<Cut>) -> Seq<Area>
    decreases areas.len(),
{
    if areas.len() == 0 || cuts.len() != areas.len() {
        Seq::empty()
    } else {
        parts_all(areas.drop_last(), cuts.drop_last()) + areas.last().parts(cuts.last())
    }
}

/// The passages that the open rooms of `zones` have beyond those of trees.
pub open spec fn excess_sum(zones: Seq<Area>) -> int
    decreases zones.len(),
{
    if zones.len() == 0 {
        0
    } else {
        excess_sum(zones.drop_last()) + zones.last().excess()
    }
}

/// The excess of a list is that of its first room and of the rest.
pub proof fn lemma_excess_first(zones: Seq<Area>)
    requires
        zones.len() > 0,
    ensures
        excess_sum(zones) == zones[0].excess() + excess_sum(zones.drop_first()),
    decreases zones.len(),
{
    if zones.len() == 1 {
        assert(zones.drop_last() =~= Seq::empty());
        assert(zones.drop_first() =~= Seq::empty());
    } else {
        lemma_excess_first(zones.drop_last());
        assert(zones.drop_first().drop_last() =~= zones.drop_last().drop_first());
    }
}

/// The excess of two lists joined is the sum of theirs.
pub proof fn lemma_excess_concat(a: Seq<Area>, b: Seq<Area>)
    ensures
        excess_sum(a + b) == excess_sum(a) + excess_sum(b),
    decreases b.len(),
{
    if b.len() == 0 {
        assert(a + b =~= a);
    } else {
        lemma_excess_concat(a, b.drop_last());
        assert((a + b).drop_last() =~= a + b.drop_last());
    }
}

/// The rooms that a cut leaves have, between them, the excess of the room
/// that was cut less the walls put up.
pub proof fn lemma_excess_parts(area: Area, cut: Cut)
    requires
        area.is_room(),
        area.admits(cut),
    ensures
        excess_sum(area.parts(cut)) == area.excess() - (if cut.horizontal {
            area.width() - 1
        } else {
            area.height() - 1
        }),
{
    let near = area.near_part(cut);
    let far = area.far_part(cut);
    let first = if near.is_room() {
        seq![near]
    } else {
        Seq::empty()
    };
    assert(excess_sum(Seq::<Area>::empty()) == 0);
    assert(near.width() >= 1 && near.height() >= 1 && far.width() >= 1 && far.height() >= 1);
    assert(excess_sum(first) == near.excess()) by {
        if near.is_room() {
            assert(first.drop_last() =~= Seq::empty());
            assert(first.last() == near);
        } else {
            assert(near.excess() == 0) by (nonlinear_arith)
                requires
                    near.excess() == (near.width() - 1) * (near.height() - 1),
                    near.width() == 1 || near.height() == 1,
            ;
        }
    }
    assert(excess_sum(area.parts(cut)) == near.excess() + far.excess()) by {
        if far.is_room() {
            assert(first.push(far).drop_last() =~= first);
            assert(first.push(far).last() == far);
        } else {
            assert(far.excess() == 0) by (nonlinear_arith)
                requires
                    far.excess() == (far.width() - 1) * (far.height() - 1),
                    far.width() == 1 || far.height() == 1,
            ;
        }
    }
    let w = area.width();
    let h = area.height();
    if cut.horizontal {
        let h1 = near.height();
        let h2 = far.height();
        assert((w - 1) * (h1 - 1) + (w - 1) * (h2 - 1) == (w - 1) * (h - 1) - (w - 1))
            by (nonlinear_arith)
            requires
                h1 + h2 == h,
        ;
    } else {
        let w1 = near.width();
        let w2 = far.width();
        assert((w1 - 1) * (h - 1) + (w2 - 1) * (h - 1) == (w - 1) * (h - 1) - (h - 1))
            by (nonlinear_arith)
            requires
                w1 + w2 == w,
        ;
    }
}

pub struct RecursiveDivision {
    pub areas: Vec<Area>,
    pub step: usize,
    pub limit: Option<usize>,
    pub done: bool,
    pub dice: Dice,
}

impl RecursiveDivision {
    /// Whether every wall inside `area` is down.
    pub open spec fn open_in(board: &Board, area: Area) -> bool {
        forall|p: int, q: int| #[trigger]
            board.adjacent(p, q) && area.holds(board.cells@[p]) && area.holds(board.cells@[q])
                ==> board.linked(p, q)
    }

    /// The rooms still to cut, `fresh` and `pending`, fit the board: they lie
    /// on the grid, share no cell, have no wall inside, and the board has
    /// the passages of a tree and the excess of the rooms.
    pub open spec fn zoned(board: &Board, fresh: Seq<Area>, pending: Seq<Area>) -> bool {
        let n = board.board_size as int;
        &&& forall|k: int|
            0 <= k < fresh.len() ==> (#[trigger] fresh[k]).fits(n) && Self::open_in(board, fresh[k])
        &&& forall|k: int|
            0 <= k < pending.len() ==> (#[trigger] pending[k]).fits(n) && Self::open_in(
                board,
                pending[k],
            )
        &&& forall|j: int, k: int|
            0 <= j < k < fresh.len() ==> (#[trigger] fresh[j]).apart(#[trigger] fresh[k])
        &&& forall|j: int, k: int|
            0 <= j < k < pending.len() ==> (#[trigger] pending[j]).apart(#[trigger] pending[k])
        &&& forall|j: int, k: int|
            0 <= j < fresh.len() && 0 <= k < pending.len() ==> (#[trigger] fresh[j]).apart(
                #[trigger] pending[k],
            )
        &&& board.passages().finite()
        &&& board.passages().len() == board.cells@.len() - 1 + excess_sum(fresh) + excess_sum(
            pending,
        )
    }

    /// How the passages after a cut relate to those before: a passage stays
    /// unless the cut has put a wall across it.
    pub open spec fn cut_links(board: &Board, area: Area, cut: Cut, after: &Board) -> bool {
        &&& after.board_size == board.board_size
        &&& after.cells@.len() == board.cells@.len()
        &&& forall|i: int|
            board.in_grid(i) ==> (#[trigger] after.cells@[i]).x == board.cells@[i].x
                && after.cells@[i].y == board.cells@[i].y
        &&& forall|p: int, q: int| #[trigger]
            after.adjacent(p, q) <==> board.adjacent(p, q)
        &&& forall|p: int, q: int| #[trigger]
            after.linked(p, q) <==> board.linked(p, q) && !area.severs(
                cut,
                board.cells@[p],
                board.cells@[q],
            )
    }

    /// What the cells of a cut board say of its passages.
    pub proof fn lemma_cut_links(board: &Board, area: Area, cut: Cut, after: &Board)
        requires
            board.wf(),
            area.fits(board.board_size as int),
            area.admits(cut),
            after.cells@ == cut_cells(board.cells@, area, cut),
            after.board_size == board.board_size,
        ensures
            Self::cut_links(board, area, cut, after),
    {
        assert forall|p: int, q: int| #[trigger] after.adjacent(p, q) <==> board.adjacent(p, q) by {
            if board.in_grid(p) && board.in_grid(q) {
                assert(after.cells@[p].x == board.cells@[p].x);
                assert(after.cells@[q].x == board.cells@[q].x);
            }
        }
        assert forall|p: int, q: int| #[trigger]
            after.linked(p, q) <==> board.linked(p, q) && !area.severs(
                cut,
                board.cells@[p],
                board.cells@[q],
            ) by {
            if board.adjacent(p, q) {
                board.lemma_adjacent_offsets(p, q);
                assert(after.cells@[p] == area.cut_cell(cut, board.cells@[p]));
                assert(after.cells@[q] == area.cut_cell(cut, board.cells@[q]));
            }
        }
    }

    /// The cells of one line of the grid are connected if each is linked to
    /// the next: along row `line` between the columns `from` and `to` if
    /// `horizontal`, along column `line` between the rows otherwise.
    pub proof fn lemma_along(board: &Board, horizontal: bool, line: int, from: int, to: int)
        requires
            board.wf(),
            0 <= line < board.board_size,
            0 <= from < board.board_size,
            0 <= to < board.board_size,
            forall|t: int|
                (from <= t < to || to <= t < from) ==> board.linked(
                    #[trigger] Self::on_line(board, horizontal, line, t),
                    Self::on_line(board, horizontal, line, t + 1),
                ),
        ensures
            board.connected(
                Self::on_line(board, horizontal, line, from),
                Self::on_line(board, horizontal, line, to),
            ),
        decreases
                if from <= to {
                    to - from
                } else {
                    from - to
                },
    {
        let a = Self::on_line(board, horizontal, line, from);
        if horizontal {
            board.lemma_slot(from, line);
        } else {
            board.lemma_slot(line, from);
        }
        if from == to {
            board.lemma_connected_refl(a);
        } else if from < to {
            Self::lemma_along(board, horizontal, line, from, to - 1);
            let b = Self::on_line(board, horizontal, line, to - 1);
            let c = Self::on_line(board, horizontal, line, to);
            assert(board.linked(b, Self::on_line(board, horizontal, line, to - 1 + 1)));
            board.lemma_connected_step(b, c);
            board.lemma_connected_trans(a, b, c);
        } else {
            Self::lemma_along(board, horizontal, line, from - 1, to);
            let b = Self::on_line(board, horizontal, line, from - 1);
            let c = Self::on_line(board, horizontal, line, to);
            assert(board.linked(b, Self::on_line(board, horizontal, line, from - 1 + 1)));
            board.lemma_linked_sym(b, a);
            board.lemma_connected_step(a, b);
            board.lemma_connected_trans(a, b, c);
        }
    }

    /// The cell at position `t` of a line: of row `line` if `horizontal`,
    /// of column `line` otherwise.
    pub open spec fn on_line(board: &Board, horizontal: bool, line: int, t: int) -> int {
        if horizontal {
            board.slot(t, line)
        } else {
            board.slot(line, t)
        }
    }

    /// A cut across an open room leaves every cell connected to every
    /// other: what the wall parts can still meet through the gap.
    pub proof fn lemma_cut_connected(board: &Board, area: Area, cut: Cut, after: &Board)
        requires
            board.wf(),
            after.wf(),
            board.all_connected(),
            area.fits(board.board_size as int),
            area.admits(cut),
            Self::open_in(board, area),
            Self::cut_links(board, area, cut, after),
        ensures
            after.all_connected(),
    {
        let n = board.board_size as int;
        let lo = if cut.horizontal {
            area.start.0 as int
        } else {
            area.start.1 as int
        };
        let hi = if cut.horizontal {
            area.end.0 as int
        } else {
            area.end.1 as int
        };
        let near = cut.at as int;
        let far = cut.at + 1;
        // Along the cut, on either side of it, no wall has been put up.
        assert forall|t: int| lo <= t < hi - 1 implies after.linked(
            #[trigger] Self::on_line(after, cut.horizontal, near, t),
            Self::on_line(after, cut.horizontal, near, t + 1),
        ) && after.linked(
            Self::on_line(after, cut.horizontal, far, t),
            Self::on_line(after, cut.horizontal, far, t + 1),
        ) by {
            if cut.horizontal {
                board.lemma_slot(t, near);
                board.lemma_slot(t + 1, near);
                board.lemma_slot(t, far);
                board.lemma_slot(t + 1, far);
            } else {
                board.lemma_slot(near, t);
                board.lemma_slot(near, t + 1);
                board.lemma_slot(far, t);
                board.lemma_slot(far, t + 1);
            }
            let a = Self::on_line(board, cut.horizontal, near, t);
            let b = Self::on_line(board, cut.horizontal, near, t + 1);
            let c = Self::on_line(board, cut.horizontal, far, t);
            let d = Self::on_line(board, cut.horizontal, far, t + 1);
            assert(board.adjacent(a, b));
            assert(board.adjacent(c, d));
        }
        let gap_near = Self::on_line(after, cut.horizontal, near, cut.gap as int);
        let gap_far = Self::on_line(after, cut.horizontal, far, cut.gap as int);
        assert(after.linked(gap_near, gap_far)) by {
            if cut.horizontal {
                board.lemma_slot(cut.gap as int, near);
                board.lemma_slot(cut.gap as int, far);
            } else {
                board.lemma_slot(near, cut.gap as int);
                board.lemma_slot(far, cut.gap as int);
            }
            assert(board.adjacent(gap_near, gap_far));
        }
        after.lemma_connected_step(gap_near, gap_far);
        assert forall|p: int, q: int| #[trigger] board.linked(p, q) implies after.connected(p, q) by {
            if after.linked(p, q) {
                after.lemma_connected_step(p, q);
            } else {
                let cp = board.cells@[p];
                let cq = board.cells@[q];
                assert(area.severs(cut, cp, cq));
                let t = if cut.horizontal {
                    cp.x as int
                } else {
                    cp.y as int
                };
                let up = Self::on_line(after, cut.horizontal, near, t);
                let down = Self::on_line(after, cut.horizontal, far, t);
                if cut.horizontal {
                    board.lemma_slot(t, near);
                    board.lemma_slot(t, far);
                } else {
                    board.lemma_slot(near, t);
                    board.lemma_slot(far, t);
                }
                assert forall|s: int|
                    (t <= s < cut.gap || cut.gap <= s < t) implies after.linked(
                    #[trigger] Self::on_line(after, cut.horizontal, near, s),
                    Self::on_line(after, cut.horizontal, near, s + 1),
                ) by {
                    assert(lo <= s < hi - 1);
                }
                assert forall|s: int|
                    (t <= s < cut.gap || cut.gap <= s < t) implies after.linked(
                    #[trigger] Self::on_line(after, cut.horizontal, far, s),
                    Self::on_line(after, cut.horizontal, far, s + 1),
                ) by {
                    assert(lo <= s < hi - 1);
                    assert(after.linked(
                        Self::on_line(after, cut.horizontal, near, s),
                        Self::on_line(after, cut.horizontal, near, s + 1),
                    ));
                }
                Self::lemma_along(after, cut.horizontal, near, t, cut.gap as int);
                Self::lemma_along(after, cut.horizontal, far, cut.gap as int, t);
                after.lemma_connected_trans(up, gap_near, gap_far);
                after.lemma_connected_trans(up, gap_far, down);
                after.lemma_connected_sym(up, down);
                board.lemma_same_place(p, if cp.y == near && cut.horizontal || cp.x == near
                    && !cut.horizontal {
                    up
                } else {
                    down
                });
                board.lemma_same_place(q, if cq.y == near && cut.horizontal || cq.x == near
                    && !cut.horizontal {
                    up
                } else {
                    down
                });
            }
        }
        assert forall|p: int, q: int|
            after.in_grid(p) && after.in_grid(q) implies #[trigger] after.connected(p, q) by {
            assert(board.connected(p, q));
            board.lemma_connected_carries_over(after, p, q);
        }
    }

    /// After the first room of `pending` has been cut, the rooms left of it
    /// join `fresh`, and the rooms still fit the board.
    pub proof fn lemma_zoned_cut(
        board: &Board,
        fresh: Seq<Area>,
        pending: Seq<Area>,
        cut: Cut,
        after: &Board,
    )
        requires
            board.wf(),
            pending.len() > 0,
            Self::zoned(board, fresh, pending),
            pending[0].admits(cut),
            Self::cut_links(board, pending[0], cut, after),
            after.passages().finite(),
            after.passages().len() == board.passages().len() - (if cut.horizontal {
                pending[0].width() - 1
            } else {
                pending[0].height() - 1
            }),
        ensures
            Self::zoned(after, fresh + pending[0].parts(cut), pending.drop_first()),
    {
        let n = board.board_size as int;
        let area = pending[0];
        let parts = area.parts(cut);
        let more = fresh + parts;
        let rest = pending.drop_first();
        let near = area.near_part(cut);
        let far = area.far_part(cut);
        assert forall|k: int| 0 <= k < parts.len() implies (parts[k] == near || parts[k] == far)
            && parts[k].is_room() by {}
        assert(parts.len() == 2 ==> parts[0] == near && parts[1] == far);
        // A room that shares no cell with the one cut keeps its passages.
        assert forall|z: Area| z.apart(area) && Self::open_in(board, z) implies Self::open_in(
            after,
            z,
        ) by {
            assert forall|p: int, q: int| #[trigger]
                after.adjacent(p, q) && z.holds(after.cells@[p]) && z.holds(
                    after.cells@[q],
                ) implies after.linked(p, q) by {
                assert(board.adjacent(p, q));
                assert(after.cells@[p].x == board.cells@[p].x);
                assert(after.cells@[q].x == board.cells@[q].x);
            }
        }
        // Either part of the room cut has no wall inside.
        assert forall|z: Area| (z == near || z == far) implies Self::open_in(after, z) by {
            assert forall|p: int, q: int| #[trigger]
                after.adjacent(p, q) && z.holds(after.cells@[p]) && z.holds(
                    after.cells@[q],
                ) implies after.linked(p, q) by {
                assert(board.adjacent(p, q));
                assert(after.cells@[p].x == board.cells@[p].x);
                assert(after.cells@[q].x == board.cells@[q].x);
            }
        }
        assert forall|k: int| 0 <= k < more.len() implies (#[trigger] more[k]).fits(n)
            && Self::open_in(after, more[k]) by {
            if k < fresh.len() {
                assert(more[k] == fresh[k]);
                assert(fresh[k].apart(pending[0]));
            } else {
                assert(more[k] == parts[k - fresh.len()]);
            }
        }
        assert forall|k: int| 0 <= k < rest.len() implies (#[trigger] rest[k]).fits(n)
            && Self::open_in(after, rest[k]) by {
            assert(rest[k] == pending[k + 1]);
            assert(pending[0].apart(pending[k + 1]));
        }
        assert forall|j: int, k: int| 0 <= j < k < more.len() implies (#[trigger] more[j]).apart(
            #[trigger] more[k],
        ) by {
            if k < fresh.len() {
                assert(more[j] == fresh[j] && more[k] == fresh[k]);
            } else if j < fresh.len() {
                assert(more[j] == fresh[j]);
                assert(more[k] == parts[k - fresh.len()]);
                assert(fresh[j].apart(pending[0]));
            } else {
                assert(more[j] == parts[j - fresh.len()]);
                assert(more[k] == parts[k - fresh.len()]);
            }
        }
        assert forall|j: int, k: int| 0 <= j < k < rest.len() implies (#[trigger] rest[j]).apart(
            #[trigger] rest[k],
        ) by {
            assert(rest[j] == pending[j + 1] && rest[k] == pending[k + 1]);
        }
        assert forall|j: int, k: int|
            0 <= j < more.len() && 0 <= k < rest.len() implies (#[trigger] more[j]).apart(
            #[trigger] rest[k],
        ) by {
            assert(rest[k] == pending[k + 1]);
            if j < fresh.len() {
                assert(more[j] == fresh[j]);
            } else {
                assert(more[j] == parts[j - fresh.len()]);
                assert(pending[0].apart(pending[k + 1]));
            }
        }
        lemma_excess_first(pending);
        lemma_excess_concat(fresh, parts);
        lemma_excess_parts(area, cut);
    }

    /// Puts up the wall of `cut` across `area`, leaving the gap.
    pub fn divide(board: &mut Board, area: Area, cut: Cut)
        requires
            old(board).wf(),
            area.fits(old(board).board_size as int),
            area.admits(cut),
            Self::open_in(old(board), area),
            old(board).passages().finite(),
        ensures
            final(board).wf(),
            final(board).cells@ == cut_cells(old(board).cells@, area, cut),
            final(board).board_size == old(board).board_size,
            old(board).same_place(final(board)),
            final(board).path@ == old(board).path@,
            final(board).finish == old(board).finish,
            final(board).passages().finite(),
            final(board).passages().len() == old(board).passages().len() - (if cut.horizontal {
                area.width() - 1
            } else {
                area.height() - 1
            }),
    {
        let ghost before = *board;
        let lo: i32 = if cut.horizontal {
            area.start.0
        } else {
            area.start.1
        };
        let hi: i32 = if cut.horizontal {
            area.end.0
        } else {
            area.end.1
        };
        let mut index: i32 = lo;
        while index < hi
            invariant
                lo <= index <= hi,
                lo == (if cut.horizontal {
                    area.start.0
                } else {
                    area.start.1
                }),
                hi == (if cut.horizontal {
                    area.end.0
                } else {
                    area.end.1
                }),
                before.wf(),
                board.wf(),
                area.fits(before.board_size as int),
                area.admits(cut),
                Self::open_in(&before, area),
                board.board_size == before.board_size,
                board.cells@.len() == before.cells@.len(),
                before.same_place(board),
                board.path@ == before.path@,
                board.finish == before.finish,
                forall|i: int|
                    before.in_grid(i) ==> #[trigger] board.cells@[i] == (if (if cut.horizontal {
                        before.cells@[i].x
                    } else {
                        before.cells@[i].y
                    }) < index {
                        area.cut_cell(cut, before.cells@[i])
                    } else {
                        before.cells@[i]
                    }),
                board.passages().finite(),
                board.passages().len() == before.passages().len() - (index - lo - (if cut.gap
                    < index {
                    1int
                } else {
                    0int
                })),
            decreases hi - index,
        {
            if index != cut.gap {
                let c0: usize = if cut.horizontal {
                    board.get_index(index, cut.at)
                } else {
                    board.get_index(cut.at, index)
                } as usize;
                let c1: usize = if cut.horizontal {
                    board.get_index(index, cut.at + 1)
                } else {
                    board.get_index(cut.at + 1, index)
                } as usize;
                let ghost mid = *board;
                proof {
                    assert(board.cells@[c0 as int] == before.cells@[c0 as int]);
                    assert(board.cells@[c1 as int] == before.cells@[c1 as int]);
                    assert(before.adjacent(c0 as int, c1 as int));
                    assert(before.linked(c0 as int, c1 as int));
                    assert(board.adjacent(c0 as int, c1 as int));
                    assert(board.linked(c0 as int, c1 as int));
                }
                board.add_wall(c0, c1);
                proof {
                    mid.lemma_fence_count(c0 as int, c1 as int, board);
                    assert forall|i: int| before.in_grid(i) implies #[trigger] board.cells@[i] == (if (
                    if cut.horizontal {
                        before.cells@[i].x
                    } else {
                        before.cells@[i].y
                    }) < index + 1 {
                        area.cut_cell(cut, before.cells@[i])
                    } else {
                        before.cells@[i]
                    }) by {
                        if i != c0 && i != c1 {
                            assert(board.cells@[i] == mid.cells@[i]);
                        }
                    }
                }
            }
            index += 1;
        }
        proof {
            assert(board.cells@ =~= cut_cells(before.cells@, area, cut));
        }
    }

    /// A cell with every inner wall down and marked visited: a wall stays
    /// only where it is the edge of a grid of side `n`.
    pub open spec fn cleared_cell(c: Cell, n: int) -> Cell {
        Cell {
            visited: true,
            walls: Walls {
                left: c.walls.left && c.x <= 0,
                top: c.walls.top && c.y <= 0,
                right: c.walls.right && c.x >= n - 1,
                bottom: c.walls.bottom && c.y >= n - 1,
            },
            ..c
        }
    }

    /// How a generator starts out: with the whole grid as the one room to
    /// cut, if the grid is a room at all.
    pub open spec fn begins(&self, board: &Board, limit: Option<usize>) -> bool {
        &&& self.areas@ == (if board.board_size >= 2 {
            seq![Area { start: (0, 0), end: (board.board_size, board.board_size) }]
        } else {
            Seq::empty()
        })
        &&& self.step == 0
        &&& self.limit == limit
        &&& !self.done
    }

    /// A generator that takes down every inner wall of `board` and then
    /// cuts until only corridors are left. It draws from the thread's source
    /// of randomness.
    pub fn new(board: &mut Board) -> (generator: Self)
        requires
            old(board).wf(),
        ensures
            generator.inv(final(board)),
            generator.begins(final(board), None),
            final(board).cells@ == Seq::new(
                old(board).cells@.len(),
                |i: int| Self::cleared_cell(old(board).cells@[i], old(board).board_size as int),
            ),
            final(board).board_size == old(board).board_size,
            old(board).same_place(final(board)),
            final(board).path@ == old(board).path@,
            final(board).finish == old(board).finish,
    {
        Self::with_dice(board, Dice::fresh(), None)
    }

    /// A generator that takes down every inner wall of `board` and then
    /// cuts, drawing from `dice`. With a `limit` it reports the maze as
    /// complete after more than that many steps even if rooms are left, in
    /// which case cycles remain; without one it cuts until only corridors
    /// are left.
    pub fn with_dice(board: &mut Board, dice: Dice, limit: Option<usize>) -> (generator: Self)
        requires
            old(board).wf(),
        ensures
            generator.inv(final(board)),
            generator.begins(final(board), limit),
            generator.dice == dice,
            final(board).cells@ == Seq::new(
                old(board).cells@.len(),
                |i: int| Self::cleared_cell(old(board).cells@[i], old(board).board_size as int),
            ),
            final(board).board_size == old(board).board_size,
            old(board).same_place(final(board)),
            final(board).path@ == old(board).path@,
            final(board).finish == old(board).finish,
    {
        let n: i32 = board.board_size;
        let total: usize = board.cells.len();
        let mut i: usize = 0;
        while i < total
            invariant
                i <= total,
                total == board.cells@.len(),
                n == board.board_size,
                board.board_size == old(board).board_size,
                old(board).wf(),
                old(board).same_place(board),
                board.path@ == old(board).path@,
                board.finish == old(board).finish,
                board.cells@.len() == old(board).cells@.len(),
                forall|k: int|
                    0 <= k < total ==> #[trigger] board.cells@[k] == (if k < i {
                        Self::cleared_cell(old(board).cells@[k], n as int)
                    } else {
                        old(board).cells@[k]
                    }),
            decreases total - i,
        {
            let mut cell: Cell = board.cells[i];
            if cell.x > 0 {
                cell.walls.left = false;
            }
            if cell.y > 0 {
                cell.walls.top = false;
            }
            if cell.x < n - 1 {
                cell.walls.right = false;
            }
            if cell.y < n - 1 {
                cell.walls.bottom = false;
            }
            cell.visited = true;
            board.cells.set(i, cell);
            i += 1;
        }
        let mut areas: Vec<Area> = Vec::new();
        if n >= 2 {
            areas.push(Area { start: (0, 0), end: (n, n) });
        }
        proof {
            let whole = Area { start: (0, 0), end: (n, n) };
            assert(board.cells@ =~= Seq::new(
                old(board).cells@.len(),
                |i: int| Self::cleared_cell(old(board).cells@[i], old(board).board_size as int),
            ));
            assert forall|k: int| 0 <= k < board.cells@.len() implies {
                &&& 0 <= (#[trigger] board.cells@[k]).x < board.board_size
                &&& 0 <= board.cells@[k].y < board.board_size
                &&& board.cells@[k].x * board.board_size + board.cells@[k].y == k
            } by {
                assert(old(board).cells@[k].x == board.cells@[k].x);
            }
            assert forall|a: int, b: int| #[trigger] board.adjacent(a, b) implies board.linked(a, b)
                && board.wall_towards(a, b) == board.wall_towards(b, a) by {
                board.lemma_adjacent_offsets(a, b);
            }
            board.lemma_open_floor();
            assert(excess_sum(Seq::<Area>::empty()) == 0);
            if n >= 2 {
                assert(areas@.drop_last() =~= Seq::<Area>::empty());
                assert(excess_sum(areas@) == whole.excess());
                assert(2 * (n * n - n) == n * n - 1 + (n - 1) * (n - 1)) by (nonlinear_arith);
            } else {
                assert(n * n == 1) by (nonlinear_arith)
                    requires
                        n == 1,
                ;
            }
        }
        Self { areas, step: 0, limit, done: false, dice }
    }

    /// The cut that dice in `state` choose for a room: a coin for the
    /// direction, then a row and a column within the room.
    pub open spec fn cut_of(state: Seq<u8>, area: Area) -> Cut {
        let tossed = Dice::after_coin(state);
        if Dice::coin_of(state) {
            let rows = (area.end.1 - 1 - area.start.1) as usize;
            let columns = (area.end.0 - area.start.0) as usize;
            Cut {
                horizontal: true,
                at: (area.start.1 + Dice::below_of(tossed, rows) as i32) as i32,
                gap: (area.start.0 + Dice::below_of(Dice::after_below(tossed, rows), columns)
                    as i32) as i32,
            }
        } else {
            let rows = (area.end.1 - area.start.1) as usize;
            let columns = (area.end.0 - 1 - area.start.0) as usize;
            Cut {
                horizontal: false,
                at: (area.start.0 + Dice::below_of(Dice::after_below(tossed, rows), columns)
                    as i32) as i32,
                gap: (area.start.1 + Dice::below_of(tossed, rows) as i32) as i32,
            }
        }
    }

    /// The state of dice that were in `state` before they chose a cut for
    /// a room.
    pub open spec fn after_cut(state: Seq<u8>, area: Area) -> Seq<u8> {
        let tossed = Dice::after_coin(state);
        if Dice::coin_of(state) {
            let rows = (area.end.1 - 1 - area.start.1) as usize;
            let columns = (area.end.0 - area.start.0) as usize;
            Dice::after_below(Dice::after_below(tossed, rows), columns)
        } else {
            let rows = (area.end.1 - area.start.1) as usize;
            let columns = (area.end.0 - 1 - area.start.0) as usize;
            Dice::after_below(Dice::after_below(tossed, rows), columns)
        }
    }

    /// The cuts that dice in `state` choose for the rooms, one room after
    /// the other.
    pub open spec fn cuts_of(state: Seq<u8>, rooms: Seq<Area>) -> Seq<Cut>
        decreases rooms.len(),
    {
        if rooms.len() == 0 {
            Seq::empty()
        } else {
            Self::cuts_of(state, rooms.drop_last()).push(
                Self::cut_of(Self::after_cuts_of(state, rooms.drop_last()), rooms.last()),
            )
        }
    }

    /// The state of dice that were in `state` before they chose the cuts
    /// for the rooms.
    pub open spec fn after_cuts_of(state: Seq<u8>, rooms: Seq<Area>) -> Seq<u8>
        decreases rooms.len(),
    {
        if rooms.len() == 0 {
            state
        } else {
            Self::after_cut(Self::after_cuts_of(state, rooms.drop_last()), rooms.last())
        }
    }

    /// What one step does with the dice as they stand: every room is cut
    /// by the cut that they choose for it in its turn.
    pub open spec fn drew(
        &self,
        board: &Board,
        then: &RecursiveDivision,
        after: &Board,
    ) -> bool {
        if self.done {
            *after == *board && *then == *self
        } else {
            &&& self.after_cuts(board, Self::cuts_of(self.dice.state(), self.areas@), then, after)
            &&& then.dice.state() == Self::after_cuts_of(self.dice.state(), self.areas@)
        }
    }

    /// Whether `other` stands where this generator stands, with dice in
    /// the same state.
    pub open spec fn alike(&self, other: &RecursiveDivision) -> bool {
        &&& other.areas@ == self.areas@
        &&& other.step == self.step
        &&& other.limit == self.limit
        &&& other.done == self.done
        &&& other.dice.state() == self.dice.state()
    }

    /// Two generators that stand alike on the same maze take the same
    /// step: they stand alike afterwards, on the same maze.
    pub proof fn lemma_same_step(
        &self,
        board: &Board,
        then: &RecursiveDivision,
        after: &Board,
        other: &RecursiveDivision,
        maze: &Board,
        again: &RecursiveDivision,
        anew: &Board,
    )
        requires
            self.alike(other),
            board.same_maze(maze),
            self.drew(board, then, after),
            other.drew(maze, again, anew),
        ensures
            then.alike(again),
            after.same_maze(anew),
    {
    }

    /// What one step may do, whatever the dice give: every room is cut by
    /// some cut that it admits, and what is left of the rooms is the list
    /// for the next step. The maze is complete when no room is left, or
    /// when the limit of steps is passed.
    pub open spec fn stepped(
        &self,
        board: &Board,
        then: &RecursiveDivision,
        after: &Board,
    ) -> bool {
        if self.done {
            *after == *board
        } else {
            exists|cuts: Seq<Cut>|
                cuts.len() == self.areas@.len() && (forall|k: int|
                    0 <= k < cuts.len() ==> self.areas@[k].admits(#[trigger] cuts[k]))
                    && #[trigger] self.after_cuts(board, cuts, then, after)
        }
    }

    /// What a step with the given cuts leaves behind: every room has been
    /// cut by the cut of its position, and what is left of the rooms is the
    /// list for the next step. The maze is complete when no room is left,
    /// or when the limit of steps is passed.
    pub open spec fn after_cuts(
        &self,
        board: &Board,
        cuts: Seq<Cut>,
        then: &RecursiveDivision,
        after: &Board,
    ) -> bool {
        &&& after.cells@ == cut_all(board.cells@, self.areas@, cuts)
        &&& then.areas@ == parts_all(self.areas@, cuts)
        &&& then.step == self.step + 1
        &&& then.limit == self.limit
        &&& then.done == (then.areas@.len() == 0 || (self.limit matches Some(most) && then.step
            > most))
        &&& after.finish == (board.finish || then.done)
        &&& after.path@ == board.path@
        &&& after.board_size == board.board_size
    }

    /// The same cuts give the same step: whatever the dice, two steps from
    /// one state that made the same cuts leave the same rooms and the same
    /// maze behind.
    pub proof fn lemma_repeatable(
        &self,
        board: &Board,
        cuts: Seq<Cut>,
        then: &RecursiveDivision,
        after: &Board,
        again: &RecursiveDivision,
        anew: &Board,
    )
        requires
            self.after_cuts(board, cuts, then, after),
            self.after_cuts(board, cuts, again, anew),
        ensures
            then.areas@ == again.areas@,
            then.step == again.step,
            then.limit == again.limit,
            then.done == again.done,
            after.same_maze(anew),
    {
    }

    /// The rooms fit the board whichever of the two lists holds them.
    pub proof fn lemma_zoned_swap(board: &Board, zones: Seq<Area>)
        ensures
            Self::zoned(board, zones, Seq::empty()) == Self::zoned(board, Seq::empty(), zones),
    {
        assert(excess_sum(Seq::<Area>::empty()) == 0);
    }

    /// The cut that the dice choose for a room: a coin for the direction,
    /// then a row and a column within the room.
    fn draw_cut(&mut self, area: Area, Ghost(n): Ghost<int>) -> (cut: Cut)
        requires
            area.fits(n),
            n <= i32::MAX,
        ensures
            area.admits(cut),
            cut == Self::cut_of(old(self).dice.state(), area),
            final(self).dice.state() == Self::after_cut(old(self).dice.state(), area),
            final(self).areas == old(self).areas,
            final(self).step == old(self).step,
            final(self).limit == old(self).limit,
            final(self).done == old(self).done,
    {
        if self.dice.coin() {
            let rows: usize = (area.end.1 - 1 - area.start.1) as usize;
            let at: i32 = area.start.1 + self.dice.below(rows) as i32;
            let columns: usize = (area.end.0 - area.start.0) as usize;
            let gap: i32 = area.start.0 + self.dice.below(columns) as i32;
            Cut { horizontal: true, at, gap }
        } else {
            let rows: usize = (area.end.1 - area.start.1) as usize;
            let gap: i32 = area.start.1 + self.dice.below(rows) as i32;
            let columns: usize = (area.end.0 - 1 - area.start.0) as usize;
            let at: i32 = area.start.0 + self.dice.below(columns) as i32;
            Cut { horizontal: false, at, gap }
        }
    }

    /// Adds to `rooms` what `cut` leaves of `area`: each part that is still
    /// more than one cell across the cut.
    pub fn keep_parts(rooms: &mut Vec<Area>, area: Area, cut: Cut)
        requires
            area.is_room(),
            area.admits(cut),
            area.start.0 >= 0,
            area.start.1 >= 0,
        ensures
            final(rooms)@ == old(rooms)@ + area.parts(cut),
    {
        if cut.horizontal {
            if cut.at - area.start.1 > 0 {
                rooms.push(Area { start: (area.start.0, area.start.1), end: (area.end.0, cut.at + 1) });
            }
            if area.end.1 - cut.at - 1 > 1 {
                rooms.push(Area { start: (area.start.0, cut.at + 1), end: (area.end.0, area.end.1) });
            }
        } else {
            if cut.at - area.start.0 > 0 {
                rooms.push(Area { start: (area.start.0, area.start.1), end: (cut.at + 1, area.end.1) });
            }
            if area.end.0 - cut.at - 1 > 1 {
                rooms.push(Area { start: (cut.at + 1, area.start.1), end: (area.end.0, area.end.1) });
            }
        }
        proof {
            assert(rooms@ =~= old(rooms)@ + area.parts(cut));
        }
    }
}

impl Generator for RecursiveDivision {
    open spec fn inv(&self, board: &Board) -> bool {
        let n = board.board_size as int;
        &&& board.wf()
        &&& board.all_connected()
        &&& Self::zoned(board, Seq::empty(), self.areas@)
        &&& forall|k: int|
            0 <= k < self.areas@.len() ==> (#[trigger] self.areas@[k]).width()
                + self.areas@[k].height() + self.step <= 2 * n
        &&& self.step <= 2 * n + 1
        &&& !self.done ==> self.step <= 2 * n
        &&& self.done ==> board.finish && (self.areas@.len() == 0 || self.limit is Some)
    }

    open spec fn finished(&self) -> bool {
        self.done
    }

    open spec fn thorough(&self) -> bool {
        self.limit is None
    }

    fn step(&mut self, board: &mut Board) -> (next: State)
        ensures
            old(self).stepped(old(board), final(self), final(board)),
            old(self).drew(old(board), final(self), final(board)),
            final(self).finished() && final(self).areas@.len() == 0 ==> final(board).is_perfect(),
    {
        if self.done {
            proof {
                if self.areas@.len() == 0 {
                    assert(excess_sum(Seq::<Area>::empty()) == 0);
                    board.lemma_tree_by_count();
                }
            }
            return State::GenerationDone;
        }
        let ghost n = board.board_size as int;
        let ghost rooms = self.areas@;
        let ghost mut cuts: Seq<Cut> = Seq::empty();
        let mut new_areas: Vec<Area> = Vec::new();
        let mut k: usize = 0;
        proof {
            assert(rooms.subrange(0, rooms.len() as int) =~= rooms);
        }
        while k < self.areas.len()
            invariant
                k <= self.areas@.len(),
                self.areas@ == rooms,
                rooms == old(self).areas@,
                self.step == old(self).step,
                self.limit == old(self).limit,
                self.done == old(self).done,
                n == board.board_size,
                board.board_size == old(board).board_size,
                board.wf(),
                board.all_connected(),
                old(board).same_place(board),
                board.path@ == old(board).path@,
                board.finish == old(board).finish,
                Self::zoned(board, new_areas@, rooms.subrange(k as int, rooms.len() as int)),
                cuts.len() == k,
                cuts == Self::cuts_of(old(self).dice.state(), rooms.take(k as int)),
                self.dice.state() == Self::after_cuts_of(
                    old(self).dice.state(),
                    rooms.take(k as int),
                ),
                forall|j: int| 0 <= j < k ==> rooms[j].admits(#[trigger] cuts[j]),
                board.cells@ == cut_all(old(board).cells@, rooms.take(k as int), cuts),
                new_areas@ == parts_all(rooms.take(k as int), cuts),
                forall|j: int|
                    0 <= j < rooms.len() ==> (#[trigger] rooms[j]).width() + rooms[j].height()
                        + self.step <= 2 * n,
                forall|j: int|
                    0 <= j < new_areas@.len() ==> (#[trigger] new_areas@[j]).width()
                        + new_areas@[j].height() + self.step + 1 <= 2 * n,
            decreases self.areas@.len() - k,
        {
            let area: Area = self.areas[k];
            let ghost pending = rooms.subrange(k as int, rooms.len() as int);
            let ghost fresh = new_areas@;
            let ghost before = *board;
            assert(pending[0] == area);
            let cut = self.draw_cut(area, Ghost(n));
            Self::divide(board, area, cut);
            Self::keep_parts(&mut new_areas, area, cut);
            proof {
                Self::lemma_cut_links(&before, area, cut, board);
                Self::lemma_cut_connected(&before, area, cut, board);
                Self::lemma_zoned_cut(&before, fresh, pending, cut, board);
                assert(pending.drop_first() =~= rooms.subrange(k + 1, rooms.len() as int));
                let grown = cuts.push(cut);
                assert(rooms.take(k + 1).drop_last() =~= rooms.take(k as int));
                assert(grown.drop_last() =~= cuts);
                assert(rooms.take(k + 1).last() == area);
                cuts = grown;
                assert forall|j: int| 0 <= j < new_areas@.len() implies (
                #[trigger] new_areas@[j]).width() + new_areas@[j].height() + self.step + 1 <= 2
                    * n by {
                    if j < fresh.len() {
                        assert(new_areas@[j] == fresh[j]);
                    } else {
                        let part = area.parts(cut)[j - fresh.len()];
                        assert(new_areas@[j] == part);
                        assert(part == area.near_part(cut) || part == area.far_part(cut));
                        assert(rooms[k as int].width() + rooms[k as int].height() + self.step <= 2
                            * n);
                    }
                }
            }
            k += 1;
        }
        proof {
            assert(rooms.take(k as int) =~= rooms);
            assert(rooms.subrange(k as int, rooms.len() as int) =~= Seq::<Area>::empty());
            Self::lemma_zoned_swap(board, new_areas@);
            if rooms.len() > 0 {
                assert(rooms[0].width() + rooms[0].height() + self.step <= 2 * n);
                assert(rooms[0].fits(n)) by {
                    Self::lemma_zoned_swap(old(board), rooms);
                }
            }
        }
        self.areas = new_areas;
        self.step = self.step + 1;
        let over: bool = match self.limit {
            Some(most) => self.step > most,
            None => false,
        };
        if self.areas.len() == 0 || over {
            let ghost cut_board = *board;
            self.done = true;
            board.finish = true;
            proof {
                cut_board.lemma_same_walls(board);
                assert(Self::zoned(board, Seq::empty(), self.areas@)) by {
                    assert forall|z: Area| Self::open_in(&cut_board, z) implies Self::open_in(
                        board,
                        z,
                    ) by {
                        assert forall|p: int, q: int| #[trigger]
                            board.adjacent(p, q) && z.holds(board.cells@[p]) && z.holds(
                                board.cells@[q],
                            ) implies board.linked(p, q) by {
                            assert(cut_board.adjacent(p, q));
                        }
                    }
                }
                if self.areas@.len() == 0 {
                    assert(excess_sum(Seq::<Area>::empty()) == 0);
                    board.lemma_tree_by_count();
                }
                assert(old(self).after_cuts(old(board), cuts, self, board));
            }
            State::GenerationDone
        } else {
            proof {
                assert(old(self).after_cuts(old(board), cuts, self, board));
            }
            State::Generate
        }
    }

    fn draw(&self, board: &Board) {
    }

    proof fn lemma_finished(&self, board: &Board) {
        assert(excess_sum(Seq::<Area>::empty()) == 0);
        board.lemma_tree_by_count();
    }
}

} // verus!
