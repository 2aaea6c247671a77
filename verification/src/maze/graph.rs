//! Passages as a graph: walks, cycles, and what makes a maze perfect.
//!
//! The generators never reason about cycles directly. They keep a labelling
//! of the cells in which two cells share a label exactly when a walk joins
//! them, and only ever open a wall between cells of different labels. The
//! lemmas here show that this keeps the passages a forest, and that a forest
//! with a single label left is a spanning tree of the grid.

use crate::maze::Board;
use vstd::prelude::*;

verus! {

/// The labelling in which every cell stands alone.
pub open spec fn own_labels(n: nat) -> Seq<int> {
    Seq::new(n, |i: int| i)
}

/// `labels` with every `from` renamed to `to`.
pub open spec fn merged_labels(labels: Seq<int>, from: int, to: int) -> Seq<int> {
    Seq::new(
        labels.len(),
        |i: int|
            if labels[i] == from {
                to
            } else {
                labels[i]
            },
    )
}

/// The labelling of a single tree that has grown from `root` over the cells
/// flagged in `in_maze`: those carry the root's label, the others their own.
pub open spec fn grown_labels(in_maze: Seq<bool>, root: int) -> Seq<int> {
    Seq::new(
        in_maze.len(),
        |i: int|
            if in_maze[i] {
                root
            } else {
                i
            },
    )
}

/// How many flags of `flags` are still down.
pub open spec fn count_down(flags: Seq<bool>) -> nat
    decreases flags.len(),
{
    if flags.len() == 0 {
        0
    } else {
        count_down(flags.drop_last()) + if flags.last() {
            0nat
        } else {
            1nat
        }
    }
}

/// Raising one flag that was down lowers the count by one.
pub proof fn lemma_count_down_raise(flags: Seq<bool>, i: int)
    requires
        0 <= i < flags.len(),
        !flags[i],
    ensures
        count_down(flags) >= 1,
        count_down(flags.update(i, true)) == count_down(flags) - 1,
    decreases flags.len(),
{
    let raised = flags.update(i, true);
    if i == flags.len() - 1 {
        assert(raised.drop_last() =~= flags.drop_last());
    } else {
        lemma_count_down_raise(flags.drop_last(), i);
        assert(raised.drop_last() =~= flags.drop_last().update(i, true));
    }
}

/// With no flag counted as down, every flag is up; and the count never
/// exceeds the length.
pub proof fn lemma_count_down_bounds(flags: Seq<bool>)
    ensures
        count_down(flags) <= flags.len(),
        count_down(flags) == 0 <==> (forall|i: int| 0 <= i < flags.len() ==> flags[i]),
    decreases flags.len(),
{
    if flags.len() > 0 {
        let rest = flags.drop_last();
        lemma_count_down_bounds(rest);
        if count_down(flags) == 0 {
            assert forall|i: int| 0 <= i < flags.len() implies flags[i] by {
                if i < rest.len() {
                    assert(rest[i]);
                }
            }
        }
        if forall|i: int| 0 <= i < flags.len() ==> flags[i] {
            assert forall|i: int| 0 <= i < rest.len() implies rest[i] by {
                assert(flags[i]);
            }
        }
    }
}

/// A sequence of `n` flags of which exactly one is up counts `n - 1` down.
pub proof fn lemma_count_down_single(n: nat, up: int)
    requires
        0 <= up < n,
    ensures
        count_down(Seq::new(n, |i: int| i == up)) == n - 1,
{
    lemma_count_down_none(n);
    let none = Seq::new(n, |i: int| false);
    lemma_count_down_raise(none, up);
    assert(none.update(up, true) =~= Seq::new(n, |i: int| i == up));
}

/// A sequence of `n` flags that are all down counts `n`.
pub proof fn lemma_count_down_none(n: nat)
    ensures
        count_down(Seq::new(n, |i: int| false)) == n,
    decreases n,
{
    if n > 0 {
        lemma_count_down_none((n - 1) as nat);
        assert(Seq::new(n, |i: int| false).drop_last() =~= Seq::new(
            (n - 1) as nat,
            |i: int| false,
        ));
    }
}

impl Board {
    /// A walk: a non-empty sequence of cells in which one can step from each
    /// cell to the next.
    pub open spec fn is_walk(&self, w: Seq<int>) -> bool {
        &&& w.len() >= 1
        &&& self.in_grid(w[0])
        &&& forall|k: int| 0 <= k < w.len() - 1 ==> self.linked(#[trigger] w[k], w[k + 1])
    }

    /// Whether some walk leads from `a` to `b`.
    pub open spec fn connected(&self, a: int, b: int) -> bool {
        exists|w: Seq<int>| #[trigger] self.is_walk(w) && w[0] == a && w.last() == b
    }

    /// A cycle: at least three distinct cells, each linked to the next and
    /// the last linked back to the first.
    pub open spec fn is_cycle(&self, c: Seq<int>) -> bool {
        &&& c.len() >= 3
        &&& c.no_duplicates()
        &&& forall|k: int| 0 <= k < c.len() - 1 ==> self.linked(#[trigger] c[k], c[k + 1])
        &&& self.linked(c.last(), c[0])
    }

    /// No cycle exists among the passages.
    pub open spec fn acyclic(&self) -> bool {
        forall|c: Seq<int>| !#[trigger] self.is_cycle(c)
    }

    /// Every cell can be reached from every other.
    pub open spec fn all_connected(&self) -> bool {
        forall|a: int, b: int| self.in_grid(a) && self.in_grid(b) ==> #[trigger] self.connected(a, b)
    }

    /// The passages, each as the pair of its two cells, smaller index first.
    pub open spec fn passages(&self) -> Set<(int, int)> {
        Set::new(|p: (int, int)| p.0 < p.1 && self.linked(p.0, p.1))
    }

    /// A perfect maze: the passages form a spanning tree of the grid. All
    /// cells are connected, no cycle exists, and there is exactly one passage
    /// fewer than there are cells.
    pub open spec fn is_perfect(&self) -> bool {
        &&& self.wf()
        &&& self.all_connected()
        &&& self.acyclic()
        &&& self.passages().finite()
        &&& self.passages().len() == self.area() - 1
    }

    /// Whether `labels` never differ across a passage.
    pub open spec fn labels_follow_links(&self, labels: Seq<int>) -> bool {
        forall|a: int, b: int| #[trigger] self.linked(a, b) ==> labels[a] == labels[b]
    }

    /// Whether cells of equal label are joined by a walk.
    pub open spec fn labels_imply_walks(&self, labels: Seq<int>) -> bool {
        forall|a: int, b: int|
            self.in_grid(a) && self.in_grid(b) && labels[a] == labels[b]
                ==> #[trigger] self.connected(a, b)
    }

    /// The passages form a forest whose trees are the label classes of
    /// `labels`: two cells share a label exactly when a walk joins them, no
    /// cycle exists, and passages and trees together number as many as the
    /// cells.
    pub open spec fn forest(&self, labels: Seq<int>) -> bool {
        &&& self.wf()
        &&& labels.len() == self.cells@.len()
        &&& self.labels_follow_links(labels)
        &&& self.labels_imply_walks(labels)
        &&& self.acyclic()
        &&& self.passages().finite()
        &&& self.passages().len() + labels.to_set().len() == self.cells@.len()
    }

    /// The passages form one tree over the cells flagged in `in_maze`, which
    /// include `root`; every other cell is still walled in.
    pub open spec fn tree_over(&self, in_maze: Seq<bool>, root: int) -> bool {
        &&& in_maze.len() == self.cells@.len()
        &&& self.in_grid(root)
        &&& in_maze[root]
        &&& self.forest(grown_labels(in_maze, root))
    }

    /// Boards with the same cells on the same grid have the same passages,
    /// and so agree on everything that is said of passages.
    pub proof fn lemma_same_grid(&self, other: &Board)
        requires
            self.same_grid(other),
        ensures
            self.wf() == other.wf(),
            self.is_perfect() == other.is_perfect(),
            forall|labels: Seq<int>| self.forest(labels) == #[trigger] other.forest(labels),
            forall|in_maze: Seq<bool>, root: int|
                self.tree_over(in_maze, root) == #[trigger] other.tree_over(in_maze, root),
            forall|a: int, b: int| self.adjacent(a, b) == #[trigger] other.adjacent(a, b),
            forall|a: int, b: int| self.linked(a, b) == #[trigger] other.linked(a, b),
            forall|a: int, b: int| self.connected(a, b) == #[trigger] other.connected(a, b),
    {
        self.lemma_same_walls(other);
    }

    /// Boards with the same walls on the same grid have the same passages,
    /// and so agree on everything that is said of passages.
    pub proof fn lemma_same_walls(&self, other: &Board)
        requires
            self.same_walls(other),
        ensures
            self.passages() == other.passages(),
            self.all_connected() == other.all_connected(),
            self.acyclic() == other.acyclic(),
            self.wf() == other.wf(),
            self.is_perfect() == other.is_perfect(),
            forall|labels: Seq<int>| self.forest(labels) == #[trigger] other.forest(labels),
            forall|in_maze: Seq<bool>, root: int|
                self.tree_over(in_maze, root) == #[trigger] other.tree_over(in_maze, root),
            forall|a: int, b: int| self.adjacent(a, b) == #[trigger] other.adjacent(a, b),
            forall|a: int, b: int| self.linked(a, b) == #[trigger] other.linked(a, b),
            forall|a: int, b: int| self.connected(a, b) == #[trigger] other.connected(a, b),
    {
        assert forall|a: int, b: int| self.adjacent(a, b) == #[trigger] other.adjacent(a, b) by {
            if self.in_grid(a) && self.in_grid(b) {
                assert(other.cells@[a].x == self.cells@[a].x);
                assert(other.cells@[b].x == self.cells@[b].x);
            }
        }
        assert forall|a: int, b: int| self.linked(a, b) == #[trigger] other.linked(a, b) by {
            if self.in_grid(a) && self.in_grid(b) {
                assert(other.cells@[a].x == self.cells@[a].x);
                assert(other.cells@[b].x == self.cells@[b].x);
            }
        }
        assert forall|w: Seq<int>| self.is_walk(w) == #[trigger] other.is_walk(w) by {
            if self.is_walk(w) {
                assert forall|k: int| 0 <= k < w.len() - 1 implies other.linked(
                    #[trigger] w[k],
                    w[k + 1],
                ) by {
                    assert(self.linked(w[k], w[k + 1]));
                }
            }
            if other.is_walk(w) {
                assert forall|k: int| 0 <= k < w.len() - 1 implies self.linked(
                    #[trigger] w[k],
                    w[k + 1],
                ) by {
                    assert(other.linked(w[k], w[k + 1]));
                }
            }
        }
        assert forall|a: int, b: int| self.connected(a, b) == #[trigger] other.connected(a, b) by {
            if self.connected(a, b) {
                let w = choose|w: Seq<int>|
                    #[trigger] self.is_walk(w) && w[0] == a && w.last() == b;
                assert(other.is_walk(w));
            }
            if other.connected(a, b) {
                let w = choose|w: Seq<int>|
                    #[trigger] other.is_walk(w) && w[0] == a && w.last() == b;
                assert(self.is_walk(w));
            }
        }
        assert forall|c: Seq<int>| self.is_cycle(c) == #[trigger] other.is_cycle(c) by {
            if self.is_cycle(c) {
                assert forall|k: int| 0 <= k < c.len() - 1 implies other.linked(
                    #[trigger] c[k],
                    c[k + 1],
                ) by {
                    assert(self.linked(c[k], c[k + 1]));
                }
            }
            if other.is_cycle(c) {
                assert forall|k: int| 0 <= k < c.len() - 1 implies self.linked(
                    #[trigger] c[k],
                    c[k + 1],
                ) by {
                    assert(other.linked(c[k], c[k + 1]));
                }
            }
        }
        assert(self.shaped() == other.shaped()) by {
            if self.shaped() {
                assert forall|i: int| 0 <= i < other.cells@.len() implies {
                    &&& 0 <= (#[trigger] other.cells@[i]).x < other.board_size
                    &&& 0 <= other.cells@[i].y < other.board_size
                    &&& other.cells@[i].x * other.board_size + other.cells@[i].y == i
                } by {
                    assert(self.cells@[i].x == other.cells@[i].x);
                }
            }
            if other.shaped() {
                assert forall|i: int| 0 <= i < self.cells@.len() implies {
                    &&& 0 <= (#[trigger] self.cells@[i]).x < self.board_size
                    &&& 0 <= self.cells@[i].y < self.board_size
                    &&& self.cells@[i].x * self.board_size + self.cells@[i].y == i
                } by {
                    assert(self.cells@[i].x == other.cells@[i].x);
                }
            }
        }
        assert(self.acyclic() == other.acyclic()) by {
            if self.acyclic() {
                assert forall|c: Seq<int>| !#[trigger] other.is_cycle(c) by {
                    assert(!self.is_cycle(c));
                }
            }
            if other.acyclic() {
                assert forall|c: Seq<int>| !#[trigger] self.is_cycle(c) by {
                    assert(!other.is_cycle(c));
                }
            }
        }
        assert(self.passages() =~= other.passages());
        assert(self.walls_paired() == other.walls_paired()) by {
            if self.walls_paired() {
                assert forall|a: int, b: int| #[trigger] other.adjacent(a, b) implies other.wall_towards(
                    a,
                    b,
                ) == other.wall_towards(b, a) by {
                    assert(self.adjacent(a, b));
                }
            }
            if other.walls_paired() {
                assert forall|a: int, b: int| #[trigger] self.adjacent(a, b) implies self.wall_towards(
                    a,
                    b,
                ) == self.wall_towards(b, a) by {
                    assert(other.adjacent(a, b));
                }
            }
        }
        assert(self.all_connected() == other.all_connected()) by {
            if self.all_connected() {
                assert forall|a: int, b: int|
                    other.in_grid(a) && other.in_grid(b) implies #[trigger] other.connected(
                    a,
                    b,
                ) by {
                    assert(self.connected(a, b));
                }
            }
            if other.all_connected() {
                assert forall|a: int, b: int|
                    self.in_grid(a) && self.in_grid(b) implies #[trigger] self.connected(
                    a,
                    b,
                ) by {
                    assert(other.connected(a, b));
                }
            }
        }
        assert forall|labels: Seq<int>| self.forest(labels) == #[trigger] other.forest(labels) by {
            assert(self.labels_follow_links(labels) == other.labels_follow_links(labels)) by {
                if self.labels_follow_links(labels) {
                    assert forall|a: int, b: int| #[trigger] other.linked(a, b) implies labels[a]
                        == labels[b] by {
                        assert(self.linked(a, b));
                    }
                }
                if other.labels_follow_links(labels) {
                    assert forall|a: int, b: int| #[trigger] self.linked(a, b) implies labels[a]
                        == labels[b] by {
                        assert(other.linked(a, b));
                    }
                }
            }
            assert(self.labels_imply_walks(labels) == other.labels_imply_walks(labels)) by {
                if self.labels_imply_walks(labels) {
                    assert forall|a: int, b: int|
                        other.in_grid(a) && other.in_grid(b) && labels[a]
                            == labels[b] implies #[trigger] other.connected(a, b) by {
                        assert(self.connected(a, b));
                    }
                }
                if other.labels_imply_walks(labels) {
                    assert forall|a: int, b: int|
                        self.in_grid(a) && self.in_grid(b) && labels[a]
                            == labels[b] implies #[trigger] self.connected(a, b) by {
                        assert(other.connected(a, b));
                    }
                }
            }
        }
    }

    /// A passage can be walked both ways.
    pub proof fn lemma_linked_sym(&self, a: int, b: int)
        requires
            self.wf(),
            self.linked(a, b),
        ensures
            self.linked(b, a),
    {
        assert(self.adjacent(b, a));
    }

    /// Every cell of a walk lies on the grid.
    pub proof fn lemma_walk_in_grid(&self, w: Seq<int>, k: int)
        requires
            self.is_walk(w),
            0 <= k < w.len(),
        ensures
            self.in_grid(w[k]),
    {
        if k > 0 {
            assert(self.linked(w[k - 1], w[k - 1 + 1]));
        }
    }

    /// Connected cells lie on the grid.
    pub proof fn lemma_connected_in_grid(&self, a: int, b: int)
        requires
            self.connected(a, b),
        ensures
            self.in_grid(a),
            self.in_grid(b),
    {
        let w = choose|w: Seq<int>| #[trigger] self.is_walk(w) && w[0] == a && w.last() == b;
        self.lemma_walk_in_grid(w, w.len() - 1);
    }

    /// Flags that are up on `a` and spread along every passage are up on
    /// every cell connected to `a`.
    pub proof fn lemma_closed_under_walks(&self, flags: Seq<bool>, a: int, b: int)
        requires
            flags.len() == self.cells@.len(),
            self.connected(a, b),
            flags[a],
            forall|p: int, q: int| #[trigger] self.linked(p, q) && flags[p] ==> flags[q],
        ensures
            flags[b],
    {
        let w = choose|w: Seq<int>| #[trigger] self.is_walk(w) && w[0] == a && w.last() == b;
        self.lemma_flags_along(flags, w, w.len() - 1);
    }

    /// Flags that are up on the first cell of a walk and spread along every
    /// passage are up on every cell of the walk.
    pub proof fn lemma_flags_along(&self, flags: Seq<bool>, w: Seq<int>, k: int)
        requires
            self.is_walk(w),
            0 <= k < w.len(),
            flags[w[0]],
            forall|p: int, q: int| #[trigger] self.linked(p, q) && flags[p] ==> flags[q],
        ensures
            flags[w[k]],
        decreases k,
    {
        if k > 0 {
            self.lemma_flags_along(flags, w, k - 1);
            assert(self.linked(w[k - 1], w[k - 1 + 1]));
        }
    }

    /// Every cell is connected to itself.
    pub proof fn lemma_connected_refl(&self, a: int)
        requires
            self.in_grid(a),
        ensures
            self.connected(a, a),
    {
        let w = seq![a];
        assert(self.is_walk(w));
        assert(w[0] == a && w.last() == a);
    }

    /// Linked cells are connected.
    pub proof fn lemma_connected_step(&self, a: int, b: int)
        requires
            self.linked(a, b),
        ensures
            self.connected(a, b),
    {
        let w = seq![a, b];
        assert(self.is_walk(w));
        assert(w[0] == a && w.last() == b);
    }

    /// Walks can be joined end to end.
    pub proof fn lemma_connected_trans(&self, a: int, b: int, c: int)
        requires
            self.connected(a, b),
            self.connected(b, c),
        ensures
            self.connected(a, c),
    {
        let w1 = choose|w: Seq<int>| #[trigger] self.is_walk(w) && w[0] == a && w.last() == b;
        let w2 = choose|w: Seq<int>| #[trigger] self.is_walk(w) && w[0] == b && w.last() == c;
        let w = w1 + w2.drop_first();
        assert forall|k: int| 0 <= k < w.len() - 1 implies self.linked(#[trigger] w[k], w[k + 1]) by {
            if k < w1.len() - 1 {
                assert(self.linked(w1[k], w1[k + 1]));
            } else {
                let j = k - w1.len() + 1;
                assert(self.linked(w2[j], w2[j + 1]));
                assert(w[k + 1] == w2[j + 1]);
                if j == 0 {
                    assert(w[k] == w1.last());
                } else {
                    assert(w[k] == w2[j]);
                }
            }
        }
        assert(self.is_walk(w));
        assert(w[0] == a);
        if w2.len() == 1 {
            assert(w.last() == w1.last());
        } else {
            assert(w.last() == w2.last());
        }
    }

    /// A walk can be walked backwards.
    pub proof fn lemma_connected_sym(&self, a: int, b: int)
        requires
            self.wf(),
            self.connected(a, b),
        ensures
            self.connected(b, a),
    {
        let w = choose|w: Seq<int>| #[trigger] self.is_walk(w) && w[0] == a && w.last() == b;
        let r = Seq::new(w.len(), |k: int| w[w.len() - 1 - k]);
        self.lemma_walk_in_grid(w, w.len() - 1);
        assert forall|k: int| 0 <= k < r.len() - 1 implies self.linked(#[trigger] r[k], r[k + 1]) by {
            let j = w.len() - 2 - k;
            assert(self.linked(w[j], w[j + 1]));
            self.lemma_linked_sym(w[j], w[j + 1]);
        }
        assert(self.is_walk(r));
        assert(r[0] == b && r.last() == a);
    }

    /// Labels that never differ across a passage are constant along a walk.
    pub proof fn lemma_walk_labels(&self, labels: Seq<int>, w: Seq<int>)
        requires
            self.is_walk(w),
            self.labels_follow_links(labels),
        ensures
            labels[w[0]] == labels[w.last()],
        decreases w.len(),
    {
        if w.len() > 1 {
            let v = w.drop_last();
            assert forall|k: int| 0 <= k < v.len() - 1 implies self.linked(
                #[trigger] v[k],
                v[k + 1],
            ) by {
                assert(self.linked(w[k], w[k + 1]));
            }
            assert(self.is_walk(v));
            self.lemma_walk_labels(labels, v);
            let j = w.len() - 2;
            assert(self.linked(w[j], w[j + 1]));
        }
    }

    /// If every passage of this board can be bridged by a walk on `other`,
    /// then so can every walk.
    pub proof fn lemma_walk_carries_over(&self, other: &Board, w: Seq<int>)
        requires
            self.is_walk(w),
            other.cells@.len() == self.cells@.len(),
            forall|p: int, q: int| #[trigger] self.linked(p, q) ==> other.connected(p, q),
        ensures
            other.connected(w[0], w.last()),
        decreases w.len(),
    {
        if w.len() == 1 {
            other.lemma_connected_refl(w[0]);
        } else {
            let v = w.drop_last();
            assert forall|k: int| 0 <= k < v.len() - 1 implies self.linked(
                #[trigger] v[k],
                v[k + 1],
            ) by {
                assert(self.linked(w[k], w[k + 1]));
            }
            assert(self.is_walk(v));
            self.lemma_walk_carries_over(other, v);
            let j = w.len() - 2;
            assert(self.linked(w[j], w[j + 1]));
            other.lemma_connected_trans(w[0], w[j], w[j + 1]);
        }
    }

    /// If every passage of this board can be bridged by a walk on `other`,
    /// then cells connected here are connected there.
    pub proof fn lemma_connected_carries_over(&self, other: &Board, a: int, b: int)
        requires
            self.connected(a, b),
            other.cells@.len() == self.cells@.len(),
            forall|p: int, q: int| #[trigger] self.linked(p, q) ==> other.connected(p, q),
        ensures
            other.connected(a, b),
    {
        let w = choose|w: Seq<int>| #[trigger] self.is_walk(w) && w[0] == a && w.last() == b;
        self.lemma_walk_carries_over(other, w);
    }

    /// Along a stretch of a sequence in which each cell is linked to the
    /// next, labels that follow the passages do not change.
    pub proof fn lemma_stretch_labels(&self, labels: Seq<int>, c: Seq<int>, lo: int, hi: int)
        requires
            0 <= lo <= hi < c.len(),
            self.labels_follow_links(labels),
            forall|k: int| lo <= k < hi ==> self.linked(#[trigger] c[k], c[k + 1]),
        ensures
            labels[c[lo]] == labels[c[hi]],
        decreases hi - lo,
    {
        if lo < hi {
            self.lemma_stretch_labels(labels, c, lo, hi - 1);
            assert(self.linked(c[hi - 1], c[hi - 1 + 1]));
        }
    }

    /// Opening a wall between cells of different labels cannot close a
    /// cycle.
    pub proof fn lemma_join_acyclic(&self, labels: Seq<int>, a: int, b: int, other: &Board)
        requires
            self.wf(),
            self.labels_follow_links(labels),
            self.acyclic(),
            self.adjacent(a, b),
            labels[a] != labels[b],
            self.carved_into(a, b, other),
        ensures
            other.acyclic(),
    {
        self.lemma_carved(a, b, other);
        assert forall|c: Seq<int>| !#[trigger] other.is_cycle(c) by {
            if other.is_cycle(c) {
                let m = c.len() as int;
                let fresh = |p: int, q: int| (p == a && q == b) || (p == b && q == a);
                assert forall|k: int| 0 <= k < m - 1 implies #[trigger] self.linked(c[k], c[k + 1])
                    || fresh(c[k], c[k + 1]) by {
                    assert(other.linked(c[k], c[k + 1]));
                }
                assert(self.linked(c[m - 1], c[0]) || fresh(c[m - 1], c[0])) by {
                    assert(other.linked(c[m - 1], c[0]));
                }
                if !self.linked(c[m - 1], c[0]) {
                    assert forall|k: int| 0 <= k < m - 1 implies self.linked(
                        #[trigger] c[k],
                        c[k + 1],
                    ) by {
                        assert(self.linked(c[k], c[k + 1]) || fresh(c[k], c[k + 1]));
                        if fresh(c[k], c[k + 1]) {
                            if c[k] == c[m - 1] {
                                assert(k == m - 1);
                            } else {
                                assert(c[k] == c[0] && c[k + 1] == c[m - 1]);
                                assert(k == 0 && k + 1 == m - 1);
                            }
                        }
                    }
                    self.lemma_stretch_labels(labels, c, 0, m - 1);
                    assert(false);
                } else {
                    if forall|k: int| 0 <= k < m - 1 ==> self.linked(#[trigger] c[k], c[k + 1]) {
                        assert(self.is_cycle(c));
                        assert(false);
                    } else {
                        let k = choose|k: int|
                            0 <= k < m - 1 && !self.linked(#[trigger] c[k], c[k + 1]);
                        assert(self.linked(c[k], c[k + 1]) || fresh(c[k], c[k + 1]));
                        assert(fresh(c[k], c[k + 1]));
                        assert forall|j: int| 0 <= j < m - 1 && j != k implies self.linked(
                            #[trigger] c[j],
                            c[j + 1],
                        ) by {
                            assert(self.linked(c[j], c[j + 1]) || fresh(c[j], c[j + 1]));
                            if fresh(c[j], c[j + 1]) {
                                if c[j] == c[k] {
                                    assert(j == k);
                                } else {
                                    assert(c[j] == c[k + 1] && c[j + 1] == c[k]);
                                    assert(j == k + 1 && j + 1 == k);
                                }
                            }
                        }
                        self.lemma_stretch_labels(labels, c, 0, k);
                        self.lemma_stretch_labels(labels, c, k + 1, m - 1);
                        assert(labels[c[m - 1]] == labels[c[0]]);
                        assert(false);
                    }
                }
            }
        }
    }

    /// After opening a wall between two label classes, the cells of the
    /// merged class are all connected.
    pub proof fn lemma_join_connected(&self, labels: Seq<int>, a: int, b: int, other: &Board)
        requires
            self.wf(),
            labels.len() == self.cells@.len(),
            self.labels_imply_walks(labels),
            self.adjacent(a, b),
            self.carved_into(a, b, other),
        ensures
            other.labels_imply_walks(merged_labels(labels, labels[b], labels[a])),
    {
        self.lemma_carved(a, b, other);
        let merged = merged_labels(labels, labels[b], labels[a]);
        assert forall|p: int, q: int| #[trigger] self.linked(p, q) implies other.connected(p, q) by {
            other.lemma_connected_step(p, q);
        }
        other.lemma_connected_step(a, b);
        other.lemma_connected_step(b, a);
        assert forall|p: int, q: int|
            other.in_grid(p) && other.in_grid(q) && merged[p] == merged[q] implies #[trigger] other.connected(
            p,
            q,
        ) by {
            if labels[p] == labels[q] {
                assert(self.connected(p, q));
                self.lemma_connected_carries_over(other, p, q);
            } else if labels[p] == labels[b] {
                assert(labels[q] == labels[a]);
                assert(self.connected(p, b));
                assert(self.connected(a, q));
                self.lemma_connected_carries_over(other, p, b);
                self.lemma_connected_carries_over(other, a, q);
                other.lemma_connected_trans(p, b, a);
                other.lemma_connected_trans(p, a, q);
            } else {
                assert(labels[q] == labels[b]);
                assert(labels[p] == labels[a]);
                assert(self.connected(p, a));
                assert(self.connected(b, q));
                self.lemma_connected_carries_over(other, p, a);
                self.lemma_connected_carries_over(other, b, q);
                other.lemma_connected_trans(p, a, b);
                other.lemma_connected_trans(p, b, q);
            }
        }
    }

    /// Opening a wall between cells of different labels adds one passage
    /// and leaves one label class fewer.
    pub proof fn lemma_join_count(&self, labels: Seq<int>, a: int, b: int, other: &Board)
        requires
            self.wf(),
            labels.len() == self.cells@.len(),
            self.labels_follow_links(labels),
            self.passages().finite(),
            self.adjacent(a, b),
            labels[a] != labels[b],
            self.carved_into(a, b, other),
        ensures
            other.passages().finite(),
            other.passages().len() == self.passages().len() + 1,
            merged_labels(labels, labels[b], labels[a]).to_set().len() + 1
                == labels.to_set().len(),
    {
        broadcast use {vstd::set::group_set_axioms, vstd::seq_lib::seq_to_set_is_finite};

        self.lemma_carved(a, b, other);
        self.lemma_adjacent_offsets(a, b);
        let merged = merged_labels(labels, labels[b], labels[a]);
        let e = if a < b {
            (a, b)
        } else {
            (b, a)
        };
        assert(!self.passages().contains(e)) by {
            if self.linked(e.0, e.1) {
                assert(labels[e.0] == labels[e.1]);
            }
        }
        assert(other.passages() =~= self.passages().insert(e));
        assert(labels.to_set().contains(labels[b])) by {
            assert(labels.contains(labels[b]));
        }
        assert(merged.to_set() =~= labels.to_set().remove(labels[b])) by {
            assert forall|v: int| merged.to_set().contains(v) implies labels.to_set().remove(
                labels[b],
            ).contains(v) by {
                let i = choose|i: int| 0 <= i < merged.len() && merged[i] == v;
                if labels[i] == labels[b] {
                    assert(labels[a] == v);
                    assert(labels.contains(labels[a]));
                } else {
                    assert(labels.contains(labels[i]));
                }
            }
            assert forall|v: int|
                labels.to_set().remove(labels[b]).contains(v) implies merged.to_set().contains(
                v,
            ) by {
                let i = choose|i: int| 0 <= i < labels.len() && labels[i] == v;
                assert(merged[i] == v);
                assert(merged.contains(v));
            }
        }
    }

    /// Opening a wall between cells of different labels keeps the passages a
    /// forest, with the two label classes merged into one.
    pub proof fn lemma_join(&self, labels: Seq<int>, a: int, b: int, other: &Board)
        requires
            self.forest(labels),
            self.adjacent(a, b),
            labels[a] != labels[b],
            self.carved_into(a, b, other),
        ensures
            other.forest(merged_labels(labels, labels[b], labels[a])),
    {
        self.lemma_carved(a, b, other);
        self.lemma_join_acyclic(labels, a, b, other);
        self.lemma_join_connected(labels, a, b, other);
        self.lemma_join_count(labels, a, b, other);
        let merged = merged_labels(labels, labels[b], labels[a]);
        assert forall|p: int, q: int| #[trigger] other.linked(p, q) implies merged[p]
            == merged[q] by {
            if self.linked(p, q) {
                assert(labels[p] == labels[q]);
            }
        }
    }

    /// A board without passages is a forest of single cells.
    pub proof fn lemma_walled_forest(&self)
        requires
            self.wf(),
            forall|a: int, b: int| !#[trigger] self.linked(a, b),
        ensures
            self.forest(own_labels(self.cells@.len())),
    {
        broadcast use vstd::set::group_set_axioms;

        let labels = own_labels(self.cells@.len());
        assert forall|c: Seq<int>| !#[trigger] self.is_cycle(c) by {
            if self.is_cycle(c) {
                assert(self.linked(c.last(), c[0]));
            }
        }
        assert forall|a: int, b: int|
            self.in_grid(a) && self.in_grid(b) && labels[a] == labels[b] implies #[trigger] self.connected(
            a,
            b,
        ) by {
            self.lemma_connected_refl(a);
        }
        assert(self.passages() =~= Set::empty());
        labels.unique_seq_to_set();
    }

    /// A forest in which all cells carry one label is a perfect maze.
    pub proof fn lemma_single_tree(&self, labels: Seq<int>)
        requires
            self.forest(labels),
            forall|i: int| 0 <= i < labels.len() ==> #[trigger] labels[i] == labels[0],
        ensures
            self.is_perfect(),
    {
        broadcast use vstd::set::group_set_axioms;

        assert(self.cells@.len() >= 1) by (nonlinear_arith)
            requires
                self.cells@.len() == self.board_size * self.board_size,
                1 <= self.board_size,
        ;
        assert(labels.to_set() =~= set![labels[0]]) by {
            assert(labels.contains(labels[0]));
        }
        assert(set![labels[0]].len() == 1);
    }

    /// A board without passages holds a tree that consists of `root` alone.
    pub proof fn lemma_walled_tree(&self, root: int)
        requires
            self.wf(),
            self.in_grid(root),
            forall|a: int, b: int| !#[trigger] self.linked(a, b),
        ensures
            self.tree_over(Seq::new(self.cells@.len(), |i: int| i == root), root),
    {
        self.lemma_walled_forest();
        let in_maze = Seq::new(self.cells@.len(), |i: int| i == root);
        assert(grown_labels(in_maze, root) =~= own_labels(self.cells@.len()));
    }

    /// Opening the wall between a cell of the tree and a neighbour outside
    /// it grows the tree by that neighbour.
    pub proof fn lemma_grow(&self, in_maze: Seq<bool>, root: int, a: int, b: int, other: &Board)
        requires
            self.tree_over(in_maze, root),
            self.adjacent(a, b),
            in_maze[a],
            !in_maze[b],
            self.carved_into(a, b, other),
        ensures
            other.tree_over(in_maze.update(b, true), root),
    {
        let labels = grown_labels(in_maze, root);
        self.lemma_join(labels, a, b, other);
        assert(merged_labels(labels, labels[b], labels[a]) =~= grown_labels(
            in_maze.update(b, true),
            root,
        ));
    }

    /// A tree that has reached every cell is a perfect maze.
    pub proof fn lemma_tree_complete(&self, in_maze: Seq<bool>, root: int)
        requires
            self.tree_over(in_maze, root),
            forall|i: int| 0 <= i < in_maze.len() ==> #[trigger] in_maze[i],
        ensures
            self.is_perfect(),
    {
        self.lemma_single_tree(grown_labels(in_maze, root));
    }

    /// Walling up a passage leaves one passage fewer.
    pub proof fn lemma_fence_count(&self, a: int, b: int, other: &Board)
        requires
            self.wf(),
            self.passages().finite(),
            self.linked(a, b),
            self.fenced_into(a, b, other),
        ensures
            other.passages().finite(),
            other.passages().len() == self.passages().len() - 1,
    {
        broadcast use vstd::set::group_set_axioms;

        self.lemma_fenced(a, b, other);
        self.lemma_adjacent_offsets(a, b);
        self.lemma_linked_sym(a, b);
        let e = if a < b {
            (a, b)
        } else {
            (b, a)
        };
        assert(self.passages().contains(e));
        assert(other.passages() =~= self.passages().remove(e));
    }

    /// Whether `w` is a walk from `a` to `b`.
    pub open spec fn walk_between(&self, a: int, b: int, w: Seq<int>) -> bool {
        self.is_walk(w) && w[0] == a && w.last() == b
    }

    /// Whether `b` can be reached from `a` in exactly `steps` steps.
    pub open spec fn reach_in(&self, a: int, b: int, steps: nat) -> bool {
        exists|w: Seq<int>| #[trigger] self.walk_between(a, b, w) && w.len() == steps + 1
    }

    /// Whether `steps` is the length of a shortest walk from `a` to `b`.
    pub open spec fn is_distance(&self, a: int, b: int, steps: nat) -> bool {
        self.reach_in(a, b, steps) && forall|fewer: nat|
            fewer < steps ==> !#[trigger] self.reach_in(a, b, fewer)
    }

    /// Among the walks from `a` to `b` there is a shortest one.
    pub proof fn lemma_distance_exists(&self, a: int, b: int, steps: nat)
        requires
            self.reach_in(a, b, steps),
        ensures
            exists|least: nat| least <= steps && #[trigger] self.is_distance(a, b, least),
        decreases steps,
    {
        if exists|fewer: nat| fewer < steps && #[trigger] self.reach_in(a, b, fewer) {
            let fewer = choose|fewer: nat| fewer < steps && #[trigger] self.reach_in(a, b, fewer);
            self.lemma_distance_exists(a, b, fewer);
            let least = choose|least: nat|
                least <= fewer && #[trigger] self.is_distance(a, b, least);
            assert(least <= steps && self.is_distance(a, b, least));
        } else {
            assert(self.is_distance(a, b, steps));
        }
    }

    /// A walk of no step ends where it began.
    pub proof fn lemma_reach_zero(&self, a: int, b: int)
        ensures
            self.reach_in(a, b, 0) <==> a == b && self.in_grid(a),
    {
        if self.reach_in(a, b, 0) {
            let w = choose|w: Seq<int>| #[trigger] self.walk_between(a, b, w) && w.len() == 0 + 1;
            assert(w[0] == w.last());
        }
        if a == b && self.in_grid(a) {
            let w = seq![a];
            assert(self.walk_between(a, b, w));
        }
    }

    /// A walk can be taken one passage further.
    pub proof fn lemma_reach_extend(&self, a: int, p: int, b: int, steps: nat)
        requires
            self.reach_in(a, p, steps),
            self.linked(p, b),
        ensures
            self.reach_in(a, b, steps + 1),
    {
        let w = choose|w: Seq<int>| #[trigger] self.walk_between(a, p, w) && w.len() == steps + 1;
        let longer = w.push(b);
        assert forall|k: int| 0 <= k < longer.len() - 1 implies self.linked(
            #[trigger] longer[k],
            longer[k + 1],
        ) by {
            if k < w.len() - 1 {
                assert(self.linked(w[k], w[k + 1]));
            }
        }
        assert(self.walk_between(a, b, longer));
    }

    /// A walk of at least one step arrives through a passage from a cell
    /// that is one step nearer.
    pub proof fn lemma_reach_prefix(&self, a: int, b: int, steps: nat) -> (p: int)
        requires
            self.reach_in(a, b, steps),
            steps > 0,
        ensures
            self.linked(p, b),
            self.reach_in(a, p, (steps - 1) as nat),
    {
        let w = choose|w: Seq<int>| #[trigger] self.walk_between(a, b, w) && w.len() == steps + 1;
        let u = w.drop_last();
        let p = u.last();
        assert forall|k: int| 0 <= k < u.len() - 1 implies self.linked(#[trigger] u[k], u[k + 1]) by {
            assert(self.linked(w[k], w[k + 1]));
        }
        assert(self.walk_between(a, p, u));
        let j = w.len() - 2;
        assert(self.linked(w[j], w[j + 1]));
        p
    }

    /// The last step of a shortest walk comes from a cell whose distance is
    /// one less.
    pub proof fn lemma_distance_prefix(&self, a: int, b: int, steps: nat) -> (p: int)
        requires
            self.is_distance(a, b, steps),
            steps > 0,
        ensures
            self.linked(p, b),
            self.is_distance(a, p, (steps - 1) as nat),
    {
        let p = self.lemma_reach_prefix(a, b, steps);
        assert forall|fewer: nat| fewer < steps - 1 implies !#[trigger] self.reach_in(
            a,
            p,
            fewer,
        ) by {
            if self.reach_in(a, p, fewer) {
                self.lemma_reach_extend(a, p, b, fewer);
                assert(self.reach_in(a, b, fewer + 1));
            }
        }
        p
    }

    /// A cell has one distance from another at most.
    pub proof fn lemma_distance_unique(&self, a: int, b: int, d1: nat, d2: nat)
        requires
            self.is_distance(a, b, d1),
            self.is_distance(a, b, d2),
        ensures
            d1 == d2,
    {
    }

    /// Cells that can be reached are connected, and the other way round.
    pub proof fn lemma_reach_connected(&self, a: int, b: int)
        ensures
            self.connected(a, b) <==> exists|steps: nat| #[trigger] self.reach_in(a, b, steps),
    {
        if self.connected(a, b) {
            let w = choose|w: Seq<int>| #[trigger] self.is_walk(w) && w[0] == a && w.last() == b;
            assert(self.walk_between(a, b, w));
            assert(self.reach_in(a, b, (w.len() - 1) as nat));
        }
        if exists|steps: nat| #[trigger] self.reach_in(a, b, steps) {
            let steps = choose|steps: nat| #[trigger] self.reach_in(a, b, steps);
            let w = choose|w: Seq<int>|
                #[trigger] self.walk_between(a, b, w) && w.len() == steps + 1;
            assert(self.is_walk(w));
        }
    }

    /// The length of a shortest walk from the first cell to `v`.
    pub open spec fn depth(&self, v: int) -> nat {
        choose|d: nat| self.is_distance(0, v, d)
    }

    /// On a connected board every cell has a depth, and every cell but the
    /// first has a linked neighbour of smaller depth.
    pub proof fn lemma_depth(&self, v: int)
        requires
            self.wf(),
            self.all_connected(),
            self.in_grid(v),
        ensures
            self.is_distance(0, v, self.depth(v)),
            v != 0 ==> exists|p: int| #[trigger] self.linked(p, v) && self.depth(p) < self.depth(v),
    {
        assert(self.cells@.len() >= 1) by (nonlinear_arith)
            requires
                self.cells@.len() == self.board_size * self.board_size,
                1 <= self.board_size,
        ;
        assert(self.connected(0, v));
        let w0 = choose|w: Seq<int>| #[trigger] self.is_walk(w) && w[0] == 0 && w.last() == v;
        assert(self.walk_between(0, v, w0));
        assert(self.reach_in(0, v, (w0.len() - 1) as nat));
        self.lemma_distance_exists(0, v, (w0.len() - 1) as nat);
        let d = self.depth(v);
        assert(self.is_distance(0, v, d));
        if v != 0 {
            let w = choose|w: Seq<int>| #[trigger] self.walk_between(0, v, w) && w.len() == d + 1;
            assert(w.len() >= 2);
            let u = w.drop_last();
            let p = u.last();
            assert forall|k: int| 0 <= k < u.len() - 1 implies self.linked(
                #[trigger] u[k],
                u[k + 1],
            ) by {
                assert(self.linked(w[k], w[k + 1]));
            }
            assert(self.walk_between(0, p, u));
            assert(self.reach_in(0, p, (d - 1) as nat));
            let j = w.len() - 2;
            assert(self.linked(w[j], w[j + 1]));
            assert(self.linked(p, v));
            self.lemma_walk_in_grid(w, j);
            assert(self.connected(0, p));
            self.lemma_distance_exists(0, p, (d - 1) as nat);
            let dp = self.depth(p);
            assert(self.is_distance(0, p, dp));
            assert(dp <= d - 1) by {
                if dp > d - 1 {
                    assert(!self.reach_in(0, p, (d - 1) as nat));
                }
            }
        }
    }

    /// The linked neighbour of smaller depth through which `v` hangs on the
    /// first cell.
    pub open spec fn parent(&self, v: int) -> int {
        choose|p: int| #[trigger] self.linked(p, v) && self.depth(p) < self.depth(v)
    }

    /// The passage between `v` and its parent.
    pub open spec fn parent_passage(&self, v: int) -> (int, int) {
        let p = self.parent(v);
        if p < v {
            (p, v)
        } else {
            (v, p)
        }
    }

    /// The passages that the cells other than the first own.
    pub open spec fn owned_passages(&self) -> Set<(int, int)> {
        vstd::set_lib::set_int_range(1, self.cells@.len() as int).map(
            |v: int| self.parent_passage(v),
        )
    }

    /// On a connected board the cells other than the first own a passage
    /// each, and no two of them the same.
    pub proof fn lemma_owned_passages(&self)
        requires
            self.wf(),
            self.all_connected(),
        ensures
            self.owned_passages().finite(),
            self.owned_passages().len() == self.cells@.len() - 1,
            self.owned_passages().subset_of(self.passages()),
            forall|e: (int, int)| #[trigger]
                self.owned_passages().contains(e) ==> exists|v: int|
                    1 <= v < self.cells@.len() && #[trigger] self.parent_passage(v) == e,
            forall|v: int|
                1 <= v < self.cells@.len() ==> self.linked(#[trigger] self.parent(v), v)
                    && self.depth(self.parent(v)) < self.depth(v),
    {
        let total = self.cells@.len() as int;
        assert(total >= 1) by (nonlinear_arith)
            requires
                total == self.board_size * self.board_size,
                1 <= self.board_size,
        ;
        let others = vstd::set_lib::set_int_range(1, total);
        vstd::set_lib::lemma_int_range(1, total);
        let owned = |v: int| self.parent_passage(v);
        let image = others.map(owned);
        assert forall|v: int| 1 <= v < total implies self.linked(#[trigger] self.parent(v), v)
            && self.depth(self.parent(v)) < self.depth(v) by {
            self.lemma_depth(v);
        }
        assert(vstd::relations::injective_on(owned, others)) by {
            assert forall|v1: int, v2: int|
                others.contains(v1) && others.contains(v2) && #[trigger] owned(v1)
                    == #[trigger] owned(v2) implies v1 == v2 by {
                let up = self.parent(v1);
                let vp = self.parent(v2);
                assert(self.linked(up, v1) && self.depth(up) < self.depth(v1));
                assert(self.linked(vp, v2) && self.depth(vp) < self.depth(v2));
                self.lemma_adjacent_offsets(up, v1);
                self.lemma_adjacent_offsets(vp, v2);
            }
        }
        vstd::set_lib::lemma_map_size(others, image, owned);
        assert forall|e: (int, int)| image.contains(e) implies self.passages().contains(e) && exists|
            v: int,
        |
            1 <= v < self.cells@.len() && #[trigger] self.parent_passage(v) == e by {
            let v = choose|v: int| others.contains(v) && owned(v) == e;
            let p = self.parent(v);
            assert(self.linked(p, v));
            self.lemma_linked_sym(p, v);
            self.lemma_adjacent_offsets(p, v);
            assert(1 <= v < self.cells@.len() && self.parent_passage(v) == e);
        }
    }

    /// Among the first `upto` cells of a sequence, one is at least as deep
    /// as all of them.
    pub proof fn lemma_deepest(&self, c: Seq<int>, upto: int) -> (at: int)
        requires
            1 <= upto <= c.len(),
        ensures
            0 <= at < upto,
            forall|j: int| 0 <= j < upto ==> self.depth(#[trigger] c[j]) <= self.depth(c[at]),
        decreases upto,
    {
        if upto == 1 {
            0
        } else {
            let before = self.lemma_deepest(c, upto - 1);
            if self.depth(c[upto - 1]) > self.depth(c[before]) {
                upto - 1
            } else {
                before
            }
        }
    }

    /// The passage between two linked cells, smaller index first.
    pub open spec fn passage(a: int, b: int) -> (int, int) {
        if a < b {
            (a, b)
        } else {
            (b, a)
        }
    }

    /// A connected board with a cycle has at least as many passages as
    /// cells: some passage of the cycle is owned by no cell.
    pub proof fn lemma_cycle_count(&self, c: Seq<int>)
        requires
            self.wf(),
            self.all_connected(),
            self.passages().finite(),
            self.is_cycle(c),
        ensures
            self.passages().len() >= self.cells@.len(),
    {
        broadcast use vstd::set::group_set_axioms;

        let m = c.len() as int;
        let total = self.cells@.len() as int;
        let image = self.owned_passages();
        self.lemma_owned_passages();
        let next = |k: int|
            if k == m - 1 {
                0
            } else {
                k + 1
            };
        assert forall|k: int| 0 <= k < m implies self.linked(#[trigger] c[k], c[next(k)]) by {
            if k < m - 1 {
                assert(self.linked(c[k], c[k + 1]));
            }
        }
        if forall|k: int| 0 <= k < m ==> image.contains(Self::passage(#[trigger] c[k], c[next(k)])) {
            // Every passage of the cycle would be owned by one of its two
            // cells, the deeper one. The deepest cell of the cycle would then
            // have both its cycle neighbours as its one parent.
            let top = self.lemma_deepest(c, m);
            let after = next(top);
            let before = if top == 0 {
                m - 1
            } else {
                top - 1
            };
            assert(next(before) == top);
            let v = c[top];
            assert(self.parent(v) == c[after]) by {
                let e = Self::passage(c[top], c[after]);
                assert(image.contains(e));
                let o = choose|o: int|
                    1 <= o < self.cells@.len() && #[trigger] self.parent_passage(o) == e;
                assert(self.linked(self.parent(o), o) && self.depth(self.parent(o)) < self.depth(o));
                self.lemma_adjacent_offsets(self.parent(o), o);
                assert(self.linked(c[top], c[after]));
                self.lemma_adjacent_offsets(c[top], c[after]);
                assert(self.depth(c[after]) <= self.depth(c[top]));
            }
            assert(self.parent(v) == c[before]) by {
                let e = Self::passage(c[before], c[top]);
                assert(image.contains(Self::passage(c[before], c[next(before)])));
                let o = choose|o: int|
                    1 <= o < self.cells@.len() && #[trigger] self.parent_passage(o) == e;
                assert(self.linked(self.parent(o), o) && self.depth(self.parent(o)) < self.depth(o));
                self.lemma_adjacent_offsets(self.parent(o), o);
                assert(self.linked(c[before], c[next(before)]));
                self.lemma_adjacent_offsets(c[before], c[top]);
                assert(self.depth(c[before]) <= self.depth(c[top]));
            }
            assert(before != after);
            assert(c[before] != c[after]);
            assert(false);
        } else {
            let k = choose|k: int|
                0 <= k < m && !image.contains(Self::passage(#[trigger] c[k], c[next(k)]));
            let e = Self::passage(c[k], c[next(k)]);
            assert(self.linked(c[k], c[next(k)]));
            self.lemma_linked_sym(c[k], c[next(k)]);
            self.lemma_adjacent_offsets(c[k], c[next(k)]);
            assert(self.passages().contains(e));
            let more = image.insert(e);
            assert(more.subset_of(self.passages()));
            vstd::set_lib::lemma_len_subset(more, self.passages());
        }
    }

    /// A connected board with exactly one passage fewer than it has cells
    /// has no cycle: it is a perfect maze.
    pub proof fn lemma_tree_by_count(&self)
        requires
            self.wf(),
            self.all_connected(),
            self.passages().finite(),
            self.passages().len() == self.cells@.len() - 1,
        ensures
            self.is_perfect(),
    {
        assert forall|c: Seq<int>| !#[trigger] self.is_cycle(c) by {
            if self.is_cycle(c) {
                self.lemma_cycle_count(c);
            }
        }
    }

    /// Whether every inner wall is down.
    pub open spec fn open_floor(&self) -> bool {
        forall|a: int, b: int| #[trigger] self.adjacent(a, b) ==> self.linked(a, b)
    }

    /// A board without inner walls is connected, and has two passages for
    /// every cell but those of one row and one column.
    pub proof fn lemma_open_floor(&self)
        requires
            self.wf(),
            self.open_floor(),
        ensures
            self.all_connected(),
            self.passages().finite(),
            self.passages().len() == 2 * (self.cells@.len() - self.board_size),
    {
        broadcast use vstd::set::group_set_axioms;

        let n = self.board_size as int;
        let total = self.cells@.len() as int;
        assert(total >= n && total >= 1) by (nonlinear_arith)
            requires
                total == n * n,
                1 <= n,
        ;
        // Everything is connected to the first cell.
        let flags = Seq::new(total as nat, |i: int| self.connected(0, i));
        self.lemma_connected_refl(0);
        assert forall|a: int, b: int| #[trigger] self.adjacent(a, b) && flags[a] implies flags[b] by {
            self.lemma_connected_step(a, b);
            self.lemma_connected_trans(0, a, b);
        }
        self.lemma_flood(flags, 0);
        assert forall|a: int, b: int|
            self.in_grid(a) && self.in_grid(b) implies #[trigger] self.connected(a, b) by {
            assert(flags[a] && flags[b]);
            self.lemma_connected_sym(0, a);
            self.lemma_connected_trans(a, 0, b);
        }
        // The passages to the right: one for every cell but those of the
        // last column.
        let right = |i: int| (i, i + n);
        let lefts = vstd::set_lib::set_int_range(0, total - n);
        vstd::set_lib::lemma_int_range(0, total - n);
        let across = lefts.map(right);
        assert(vstd::relations::injective_on(right, lefts));
        vstd::set_lib::lemma_map_size(lefts, across, right);
        // The cells of the last row.
        let foot = |x: int| x * n + n - 1;
        let columns = vstd::set_lib::set_int_range(0, n);
        vstd::set_lib::lemma_int_range(0, n);
        let feet = columns.map(foot);
        assert(vstd::relations::injective_on(foot, columns)) by {
            assert forall|x1: int, x2: int|
                columns.contains(x1) && columns.contains(x2) && #[trigger] foot(x1)
                    == #[trigger] foot(x2) implies x1 == x2 by {
                crate::maze::lemma_coords_unique(n, x1, n - 1, x2, n - 1);
            }
        }
        vstd::set_lib::lemma_map_size(columns, feet, foot);
        let all = vstd::set_lib::set_int_range(0, total);
        vstd::set_lib::lemma_int_range(0, total);
        let tops = all.difference(feet);
        assert forall|i: int| all.contains(i) implies (feet.contains(i) <==> self.cells@[i].y == n
            - 1) by {
            if self.cells@[i].y == n - 1 {
                assert(columns.contains(self.cells@[i].x as int));
                assert(foot(self.cells@[i].x as int) == i);
            }
            if feet.contains(i) {
                let x = choose|x: int| columns.contains(x) && foot(x) == i;
                crate::maze::lemma_coords_unique(
                    n,
                    x,
                    n - 1,
                    self.cells@[i].x as int,
                    self.cells@[i].y as int,
                );
            }
        }
        assert(feet.subset_of(all)) by {
            assert forall|i: int| feet.contains(i) implies all.contains(i) by {
                let x = choose|x: int| columns.contains(x) && foot(x) == i;
                crate::maze::lemma_index_bounds(n, x, n - 1);
            }
        }
        vstd::set_lib::lemma_set_difference_len(all, feet);
        assert(all.intersect(feet) =~= feet);
        // The passages downwards: one for every cell but those of the last
        // row.
        let below = |i: int| (i, i + 1);
        let down = tops.map(below);
        assert(vstd::relations::injective_on(below, tops));
        vstd::set_lib::lemma_map_size(tops, down, below);
        assert(down.disjoint(across)) by {
            assert forall|e: (int, int)| down.contains(e) implies !across.contains(e) by {
                if across.contains(e) {
                    let i = choose|i: int| tops.contains(i) && below(i) == e;
                    let j = choose|j: int| lefts.contains(j) && right(j) == e;
                    assert(n == 1);
                }
            }
        }
        vstd::set_lib::lemma_set_disjoint_lens(down, across);
        assert(self.passages() =~= down + across) by {
            assert forall|e: (int, int)| self.passages().contains(e) implies (down + across).contains(
                e,
            ) by {
                self.lemma_adjacent_offsets(e.0, e.1);
                self.lemma_neighbors(e.0);
                if e.1 == e.0 + 1 {
                    assert(tops.contains(e.0));
                    assert(below(e.0) == e);
                } else {
                    assert(lefts.contains(e.0));
                    assert(right(e.0) == e);
                }
            }
            assert forall|e: (int, int)| (down + across).contains(e) implies self.passages().contains(
                e,
            ) by {
                if down.contains(e) {
                    let i = choose|i: int| tops.contains(i) && below(i) == e;
                    self.lemma_neighbors(i);
                    assert(self.adjacent(i, i + 1));
                } else {
                    let j = choose|j: int| lefts.contains(j) && right(j) == e;
                    self.lemma_neighbors(j);
                    let c = self.cells@[j];
                    assert(c.x < n - 1) by (nonlinear_arith)
                        requires
                            c.x * n + c.y == j,
                            j + n < n * n,
                            0 <= c.y,
                            0 <= c.x,
                            n >= 1,
                    ;
                    assert(self.adjacent(j, j + n));
                }
            }
        }
    }

    /// From a flagged cell, flags that spread to every neighbour reach the
    /// first cell.
    proof fn lemma_flood_down(&self, flags: Seq<bool>, i: int)
        requires
            self.shaped(),
            flags.len() == self.cells@.len(),
            self.in_grid(i),
            flags[i],
            forall|a: int, b: int| #[trigger] self.adjacent(a, b) && flags[a] ==> flags[b],
        ensures
            flags[0],
        decreases i,
    {
        if i > 0 {
            self.lemma_neighbors(i);
            let c = self.cells@[i];
            if c.y > 0 {
                assert(self.adjacent(i, i - 1));
                self.lemma_flood_down(flags, i - 1);
            } else {
                assert(c.x > 0) by (nonlinear_arith)
                    requires
                        c.x * self.board_size + c.y == i,
                        c.y == 0,
                        c.x >= 0,
                        i > 0,
                ;
                assert(self.adjacent(i, i - self.board_size));
                self.lemma_flood_down(flags, i - self.board_size);
            }
        }
    }

    /// From the first cell, flags that spread to every neighbour reach
    /// every cell.
    proof fn lemma_flood_up(&self, flags: Seq<bool>, i: int)
        requires
            self.shaped(),
            flags.len() == self.cells@.len(),
            self.in_grid(i),
            flags[0],
            forall|a: int, b: int| #[trigger] self.adjacent(a, b) && flags[a] ==> flags[b],
        ensures
            flags[i],
        decreases i,
    {
        if i > 0 {
            self.lemma_neighbors(i);
            let c = self.cells@[i];
            if c.y > 0 {
                self.lemma_flood_up(flags, i - 1);
                assert(self.adjacent(i - 1, i));
            } else {
                assert(c.x > 0) by (nonlinear_arith)
                    requires
                        c.x * self.board_size + c.y == i,
                        c.y == 0,
                        c.x >= 0,
                        i > 0,
                ;
                self.lemma_flood_up(flags, i - self.board_size);
                assert(self.adjacent(i - self.board_size, i));
            }
        }
    }

    /// The grid is in one piece: flags that are up somewhere and spread from
    /// every flagged cell to its neighbours are up everywhere.
    pub proof fn lemma_flood(&self, flags: Seq<bool>, start: int)
        requires
            self.shaped(),
            flags.len() == self.cells@.len(),
            self.in_grid(start),
            flags[start],
            forall|a: int, b: int| #[trigger] self.adjacent(a, b) && flags[a] ==> flags[b],
        ensures
            forall|i: int| 0 <= i < flags.len() ==> flags[i],
    {
        self.lemma_flood_down(flags, start);
        assert forall|i: int| 0 <= i < flags.len() implies flags[i] by {
            self.lemma_flood_up(flags, i);
        }
    }
}

} // verus!
