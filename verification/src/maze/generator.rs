//! The generators, and the bookkeeping that the tree-growing ones share.

use crate::maze::graph::count_down;
use crate::maze::{Board, Cell};
use vstd::prelude::*;

pub mod aldous_broder;
pub mod backtracking;
pub mod binary_tree;
pub mod eller;
pub mod growing_tree;
pub mod hunt_and_kill;
pub mod kruskal;
pub mod prim;
pub mod recursive_division;
pub mod sidewinder;
pub mod wilson;

verus! {

/// What a list holds after one more item: what it held, and that item.
pub proof fn lemma_push_contains<A>(s: Seq<A>, a: A)
    ensures
        forall|e: A| #[trigger] s.push(a).contains(e) <==> s.contains(e) || e == a,
        s.no_duplicates() && !s.contains(a) ==> s.push(a).no_duplicates(),
{
    let t = s.push(a);
    assert forall|e: A| #[trigger] t.contains(e) <==> s.contains(e) || e == a by {
        if t.contains(e) {
            let i = choose|i: int| 0 <= i < t.len() && t[i] == e;
            if i < s.len() {
                assert(s[i] == e);
            }
        }
        if s.contains(e) {
            let i = choose|i: int| 0 <= i < s.len() && s[i] == e;
            assert(t[i] == e);
        }
        if e == a {
            assert(t[s.len() as int] == e);
        }
    }
}

/// What a list holds without its last item: what it held, but for that
/// item where it stood there only.
pub proof fn lemma_drop_last_contains<A>(s: Seq<A>)
    requires
        s.len() > 0,
    ensures
        forall|e: A| #[trigger] s.contains(e) <==> s.drop_last().contains(e) || e == s.last(),
{
    let t = s.drop_last();
    assert forall|e: A| #[trigger] s.contains(e) <==> t.contains(e) || e == s.last() by {
        if s.contains(e) {
            let i = choose|i: int| 0 <= i < s.len() && s[i] == e;
            if i < t.len() {
                assert(t[i] == e);
            }
        }
        if t.contains(e) {
            let i = choose|i: int| 0 <= i < t.len() && t[i] == e;
            assert(s[i] == e);
        }
        if e == s.last() {
            assert(s[s.len() - 1] == e);
        }
    }
}

/// Of the neighbours in `around`, those whose flag in `flags` is `want`, in
/// the order in which `around` lists them.
pub open spec fn sifted(around: Seq<Option<usize>>, flags: Seq<bool>, want: bool) -> Seq<usize>
    decreases around.len(),
{
    if around.len() == 0 {
        Seq::empty()
    } else {
        let rest = sifted(around.drop_last(), flags, want);
        match around.last() {
            Some(j) => if j < flags.len() && flags[j as int] == want {
                rest.push(j)
            } else {
                rest
            },
            None => rest,
        }
    }
}

/// What `sifted` keeps: the listed neighbours whose flag is `want`.
pub proof fn lemma_sifted(around: Seq<Option<usize>>, flags: Seq<bool>, want: bool)
    ensures
        forall|j: usize|
            #[trigger] sifted(around, flags, want).contains(j) <==> j < flags.len() && flags[j as int]
                == want && exists|k: int| 0 <= k < around.len() && #[trigger] around[k] == Some(j),
    decreases around.len(),
{
    if around.len() > 0 {
        let front = around.drop_last();
        let rest = sifted(front, flags, want);
        lemma_sifted(front, flags, want);
        let all = sifted(around, flags, want);
        assert forall|j: usize| #[trigger] all.contains(j) implies j < flags.len() && flags[j as int]
            == want && exists|k: int| 0 <= k < around.len() && #[trigger] around[k] == Some(j) by {
            let at = choose|at: int| 0 <= at < all.len() && all[at] == j;
            if at < rest.len() {
                assert(rest[at] == j);
                assert(rest.contains(j));
                let k = choose|k: int| 0 <= k < front.len() && #[trigger] front[k] == Some(j);
                assert(around[k] == Some(j));
            } else {
                assert(around[around.len() - 1] == Some(j));
            }
        }
        assert forall|j: usize|
            j < flags.len() && flags[j as int] == want && (exists|k: int|
                0 <= k < around.len() && #[trigger] around[k] == Some(j)) implies #[trigger] all.contains(
            j,
        ) by {
            let k = choose|k: int| 0 <= k < around.len() && #[trigger] around[k] == Some(j);
            if k < front.len() {
                assert(front[k] == Some(j));
                assert(rest.contains(j));
                let at = choose|at: int| 0 <= at < rest.len() && rest[at] == j;
                assert(all[at] == j);
            } else {
                assert(all[all.len() - 1] == j);
            }
        }
    }
}

/// Of the neighbours in `around`, those whose flag in `flags` is `want`.
pub fn sift(around: &Vec<Option<usize>>, flags: &Vec<bool>, want: bool) -> (kept: Vec<usize>)
    ensures
        kept@ == sifted(around@, flags@, want),
{
    let mut kept: Vec<usize> = Vec::new();
    let mut k: usize = 0;
    while k < around.len()
        invariant
            k <= around.len(),
            kept@ == sifted(around@.take(k as int), flags@, want),
        decreases around.len() - k,
    {
        proof {
            assert(around@.take(k + 1).drop_last() =~= around@.take(k as int));
        }
        match around[k] {
            Some(j) => {
                if j < flags.len() && flags[j] == want {
                    kept.push(j);
                }
            },
            None => {},
        }
        k += 1;
    }
    proof {
        assert(around@.take(k as int) =~= around@);
    }
    kept
}

/// Of the neighbours in `around`, those that exist, in the order in which
/// `around` lists them.
pub open spec fn present(around: Seq<Option<usize>>) -> Seq<usize>
    decreases around.len(),
{
    if around.len() == 0 {
        Seq::empty()
    } else {
        let rest = present(around.drop_last());
        match around.last() {
            Some(j) => rest.push(j),
            None => rest,
        }
    }
}

/// What `present` keeps: the neighbours listed.
pub proof fn lemma_present(around: Seq<Option<usize>>)
    ensures
        forall|j: usize| #[trigger]
            present(around).contains(j) <==> exists|k: int|
                0 <= k < around.len() && #[trigger] around[k] == Some(j),
    decreases around.len(),
{
    if around.len() > 0 {
        let front = around.drop_last();
        let rest = present(front);
        lemma_present(front);
        let all = present(around);
        match around.last() {
            Some(l) => {
                lemma_push_contains(rest, l);
            },
            None => {},
        }
        assert forall|j: usize| #[trigger]
            all.contains(j) <==> exists|k: int|
                0 <= k < around.len() && #[trigger] around[k] == Some(j) by {
            if all.contains(j) {
                if rest.contains(j) {
                    let k = choose|k: int| 0 <= k < front.len() && #[trigger] front[k] == Some(j);
                    assert(around[k] == Some(j));
                } else {
                    assert(around[around.len() - 1] == Some(j));
                }
            }
            if exists|k: int| 0 <= k < around.len() && #[trigger] around[k] == Some(j) {
                let k = choose|k: int| 0 <= k < around.len() && #[trigger] around[k] == Some(j);
                if k < front.len() {
                    assert(front[k] == Some(j));
                }
            }
        }
    }
}

/// Of the neighbours in `around`, those that exist.
pub fn gather(around: &Vec<Option<usize>>) -> (kept: Vec<usize>)
    ensures
        kept@ == present(around@),
{
    let mut kept: Vec<usize> = Vec::new();
    let mut k: usize = 0;
    while k < around.len()
        invariant
            k <= around.len(),
            kept@ == present(around@.take(k as int)),
        decreases around.len() - k,
    {
        proof {
            assert(around@.take(k + 1).drop_last() =~= around@.take(k as int));
        }
        match around[k] {
            Some(j) => {
                kept.push(j);
            },
            None => {},
        }
        k += 1;
    }
    proof {
        assert(around@.take(k as int) =~= around@);
    }
    kept
}

/// Of the neighbours in `around`, those whose cell in `cells` is visited,
/// or those whose cell is not, as `want` says.
pub fn sift_cells(around: &Vec<Option<usize>>, cells: &Vec<Cell>, want: bool) -> (kept: Vec<usize>)
    ensures
        kept@ == sifted(around@, Seq::new(cells@.len(), |i: int| cells@[i].visited), want),
{
    let ghost flags = Seq::new(cells@.len(), |i: int| cells@[i].visited);
    let mut kept: Vec<usize> = Vec::new();
    let mut k: usize = 0;
    while k < around.len()
        invariant
            k <= around.len(),
            flags == Seq::new(cells@.len(), |i: int| cells@[i].visited),
            kept@ == sifted(around@.take(k as int), flags, want),
        decreases around.len() - k,
    {
        proof {
            assert(around@.take(k + 1).drop_last() =~= around@.take(k as int));
        }
        match around[k] {
            Some(j) => {
                if j < cells.len() && cells[j].visited == want {
                    kept.push(j);
                }
            },
            None => {},
        }
        k += 1;
    }
    proof {
        assert(around@.take(k as int) =~= around@);
    }
    kept
}

impl Board {
    /// The neighbours of cell `i`, in the order top, bottom, left, right.
    pub open spec fn around(&self, i: int) -> Seq<usize> {
        present(self.neighbor_seq(i))
    }

    /// `around` lists exactly the adjacent cells, and on a grid of more than
    /// one cell there is one at least.
    pub proof fn lemma_around(&self, i: int)
        requires
            self.shaped(),
            self.in_grid(i),
        ensures
            forall|j: usize| #[trigger] self.around(i).contains(j) <==> self.adjacent(i, j as int),
            self.board_size >= 2 ==> self.around(i).len() > 0,
    {
        self.lemma_neighbor_seq(i);
        let around = self.neighbor_seq(i);
        lemma_present(around);
        assert forall|j: usize| #[trigger]
            self.around(i).contains(j) <==> self.adjacent(i, j as int) by {
            if self.adjacent(i, j as int) {
                let k = choose|k: int| 0 <= k < 4 && #[trigger] around[k] == Some(j as int as usize);
                assert(around[k] == Some(j));
            }
            if self.around(i).contains(j) {
                let k = choose|k: int| 0 <= k < around.len() && #[trigger] around[k] == Some(j);
                assert(around[k] matches Some(jj) ==> self.adjacent(i, jj as int));
            }
        }
        if self.board_size >= 2 {
            self.lemma_neighbors(i);
            let j = if self.cells@[i].y > 0 {
                i - 1
            } else {
                i + 1
            };
            assert(self.adjacent(i, j));
            assert(self.around(i).contains(j as usize));
        }
    }

    /// The neighbours of `cell`.
    pub fn neighbors_of(&self, cell: usize) -> (kept: Vec<usize>)
        requires
            self.shaped(),
            self.in_grid(cell as int),
        ensures
            kept@ == self.around(cell as int),
            forall|j: usize| #[trigger] kept@.contains(j) <==> self.adjacent(cell as int, j as int),
            self.board_size >= 2 ==> kept@.len() > 0,
    {
        let around = self.neighbors(cell as i32);
        let kept = gather(&around);
        proof {
            self.lemma_around(cell as int);
            assert(kept@ == self.around(cell as int));
        }
        kept
    }

    /// The neighbours of `cell` that count as visited, or those that do
    /// not, as `want` says.
    pub fn neighbors_visited(&self, cell: usize, want: bool) -> (kept: Vec<usize>)
        requires
            self.shaped(),
            self.in_grid(cell as int),
        ensures
            kept@ == self.around_with(cell as int, self.visited_flags(), want),
            forall|j: usize|
                #[trigger] kept@.contains(j) <==> self.adjacent(cell as int, j as int)
                    && self.cells@[j as int].visited == want,
    {
        let around = self.neighbors(cell as i32);
        let kept = sift_cells(&around, &self.cells, want);
        proof {
            self.lemma_around_with(cell as int, self.visited_flags(), want);
            assert(kept@ == self.around_with(cell as int, self.visited_flags(), want));
        }
        kept
    }

    /// The neighbours of cell `i` whose flag in `flags` is `want`, in the
    /// order top, bottom, left, right.
    pub open spec fn around_with(&self, i: int, flags: Seq<bool>, want: bool) -> Seq<usize> {
        sifted(self.neighbor_seq(i), flags, want)
    }

    /// `around_with` lists exactly the adjacent cells whose flag is `want`.
    pub proof fn lemma_around_with(&self, i: int, flags: Seq<bool>, want: bool)
        requires
            self.shaped(),
            self.in_grid(i),
            flags.len() == self.cells@.len(),
        ensures
            forall|j: usize|
                #[trigger] self.around_with(i, flags, want).contains(j) <==> self.adjacent(
                    i,
                    j as int,
                ) && flags[j as int] == want,
    {
        self.lemma_neighbor_seq(i);
        let around = self.neighbor_seq(i);
        lemma_sifted(around, flags, want);
        assert forall|j: usize| #[trigger]
            self.around_with(i, flags, want).contains(j) <==> self.adjacent(i, j as int)
                && flags[j as int] == want by {
            if self.adjacent(i, j as int) && flags[j as int] == want {
                let k = choose|k: int| 0 <= k < 4 && #[trigger] around[k] == Some(j as int as usize);
                assert(around[k] == Some(j));
            }
            if self.around_with(i, flags, want).contains(j) {
                let k = choose|k: int| 0 <= k < around.len() && #[trigger] around[k] == Some(j);
                assert(around[k] matches Some(jj) ==> self.adjacent(i, jj as int));
            }
        }
    }

    /// The neighbours of `cell` whose flag in `flags` is `want`.
    pub fn neighbors_with(&self, cell: usize, flags: &Vec<bool>, want: bool) -> (kept: Vec<usize>)
        requires
            self.shaped(),
            self.in_grid(cell as int),
            flags@.len() == self.cells@.len(),
        ensures
            kept@ == self.around_with(cell as int, flags@, want),
            forall|j: usize|
                #[trigger] kept@.contains(j) <==> self.adjacent(cell as int, j as int)
                    && flags@[j as int] == want,
    {
        let around = self.neighbors(cell as i32);
        let kept = sift(&around, flags, want);
        proof {
            self.lemma_around_with(cell as int, flags@, want);
            assert(kept@ == self.around_with(cell as int, flags@, want));
        }
        kept
    }
}

/// The cells that a growing tree has reached so far, with the count of those
/// still to reach.
pub struct Growth {
    pub joined: Vec<bool>,
    pub left: usize,
    pub root: usize,
}

impl Growth {
    /// The passages of `board` are exactly one tree over the cells reached,
    /// and the count of cells still to reach is right.
    pub open spec fn inv(&self, board: &Board) -> bool {
        &&& board.tree_over(self.joined@, self.root as int)
        &&& self.left == count_down(self.joined@)
    }

    /// Whether the tree has reached cell `i`.
    pub open spec fn holds(&self, i: int) -> bool {
        0 <= i < self.joined@.len() && self.joined@[i]
    }

    /// A tree that consists of `root` alone, on a board without passages.
    pub fn plant(board: &Board, root: usize) -> (growth: Growth)
        requires
            board.wf(),
            board.in_grid(root as int),
            board.walled(),
        ensures
            growth.inv(board),
            growth.root == root,
            growth.left == board.cells@.len() - 1,
            growth.joined@ == Seq::new(board.cells@.len(), |i: int| i == root),
    {
        let total: usize = board.cells.len();
        let mut joined: Vec<bool> = Vec::new();
        let mut i: usize = 0;
        while i < total
            invariant
                i <= total,
                joined@ == Seq::new(i as nat, |k: int| k == root),
            decreases total - i,
        {
            joined.push(i == root);
            assert(joined@ =~= Seq::new((i + 1) as nat, |k: int| k == root));
            i += 1;
        }
        proof {
            board.lemma_walled_tree(root as int);
            crate::maze::graph::lemma_count_down_single(total as nat, root as int);
        }
        Growth { joined, left: total - 1, root }
    }

    /// Whether the tree has reached the cell at `index`.
    pub fn contains(&self, index: usize) -> (reached: bool)
        ensures
            reached == self.holds(index as int),
    {
        index < self.joined.len() && self.joined[index]
    }

    /// Whether the tree has reached every cell.
    pub fn is_complete(&self) -> (complete: bool)
        ensures
            complete == (self.left == 0),
    {
        self.left == 0
    }

    /// Opens the wall between `from`, which the tree has reached, and its
    /// neighbour `to`, which it has not, and takes `to` into the tree.
    pub fn attach(&mut self, board: &mut Board, from: usize, to: usize)
        requires
            old(self).inv(old(board)),
            old(board).adjacent(from as int, to as int),
            old(self).holds(from as int),
            !old(self).holds(to as int),
        ensures
            final(self).inv(final(board)),
            old(board).carved_into(from as int, to as int, final(board)),
            old(board).same_place(final(board)),
            final(board).path@ == old(board).path@,
            final(board).finish == old(board).finish,
            final(self).joined@ == old(self).joined@.update(to as int, true),
            final(self).left == old(self).left - 1,
            final(self).root == old(self).root,
    {
        proof {
            crate::maze::graph::lemma_count_down_raise(self.joined@, to as int);
        }
        board.remove_wall(from, to);
        self.joined.set(to, true);
        self.left = self.left - 1;
        proof {
            old(board).lemma_grow(
                old(self).joined@,
                old(self).root as int,
                from as int,
                to as int,
                board,
            );
        }
    }

    /// Once no cell is left to reach, the maze is perfect.
    pub proof fn lemma_complete(&self, board: &Board)
        requires
            self.inv(board),
            self.left == 0,
        ensures
            board.is_perfect(),
            forall|i: int| board.in_grid(i) ==> self.holds(i),
    {
        crate::maze::graph::lemma_count_down_bounds(self.joined@);
        board.lemma_tree_complete(self.joined@, self.root as int);
    }
}

} // verus!
