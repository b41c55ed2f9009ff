//! Dead ends, and braiding: links added at dead ends.

use crate::cell::CellKind;
use crate::cell::nodes_of;
use crate::graph::Node;
use crate::graph::edge_key;
use crate::grid::Grid;
use crate::kind::Kind;
use crate::model::Maze;
use crate::model::joined;
use crate::model::lemma_edge_key;
use crate::model::lemma_edge_key_eq;
use crate::random::choose_index;
use crate::random::random_range;
use crate::random::shuffle;
use vstd::prelude::*;

verus! {

impl Maze {
    /// The test for dead ends.
    pub open spec fn dead_end_cells(self) -> spec_fn(Node) -> bool {
        |n: Node| self.is_dead_end(n)
    }

    /// The cells that are dead ends.
    pub open spec fn dead_ends(self) -> Set<Node> {
        Set::new(|c: Node| self.has_cell(c) && self.is_dead_end(c))
    }

    /// Whether every cell has a link.
    pub open spec fn all_linked(self) -> bool {
        forall|c: Node| self.has_cell(c) ==> !#[trigger] self.unlinked(c)
    }

    /// There are no more dead ends than cells.
    pub proof fn lemma_dead_ends_finite(self)
        ensures
            self.dead_ends().finite(),
            self.dead_ends().len() <= self.cells.len(),
    {
        assert(self.dead_ends().subset_of(self.cells.to_set()));
        vstd::seq_lib::seq_to_set_is_finite(self.cells);
        vstd::set_lib::lemma_set_subset_finite(self.cells.to_set(), self.dead_ends());
        vstd::set_lib::lemma_len_subset(self.dead_ends(), self.cells.to_set());
        self.cells.lemma_cardinality_of_set();
    }

    /// The links of the cells of a list, each counted at the cell that it
    /// leaves.
    pub open spec fn degrees(self, cells: Seq<Node>) -> nat
        decreases cells.len(),
    {
        if cells.len() == 0 {
            0
        } else {
            self.degrees(cells.drop_last()) + self.links_of(cells.last()).len()
        }
    }

    /// The maze without one link, given by its key.
    pub open spec fn without(self, e: (Node, Node)) -> Maze {
        Maze { cells: self.cells, edges: self.edges.remove(e) }
    }

    /// A cell is linked to cells only: to finitely many.
    pub proof fn lemma_links_finite(self, c: Node)
        requires
            self.wf(),
        ensures
            self.links_of(c).finite(),
    {
        assert(self.links_of(c).subset_of(self.cells.to_set())) by {
            assert forall|b: Node| self.links_of(c).contains(b) implies self.cells.to_set().contains(
                b,
            ) by {
                self.lemma_linked_cells(c, b);
            }
        }
        vstd::seq_lib::seq_to_set_is_finite(self.cells);
        vstd::set_lib::lemma_set_subset_finite(self.cells.to_set(), self.links_of(c));
    }

    /// Without one link a cell has one link fewer at most, and as many as
    /// before if the link is not one of its own.
    pub proof fn lemma_degree_without(self, e: (Node, Node), c: Node)
        requires
            self.wf(),
            self.edges.contains(e),
        ensures
            self.without(e).wf(),
            self.links_of(c).len() <= self.without(e).links_of(c).len() + (if c == e.0 || c == e.1 {
                1int
            } else {
                0int
            }),
    {
        let pre = self.without(e);
        self.lemma_links_finite(c);
        pre.lemma_links_finite(c);
        let other = if c == e.0 {
            e.1
        } else {
            e.0
        };
        assert forall|b: Node| self.links_of(c).contains(b) implies pre.links_of(c).contains(b) || ((c
            == e.0 || c == e.1) && b == other) by {
            if edge_key(c, b) == e {
                lemma_edge_key_eq(c, b, e.0, e.1);
            }
        }
        if c == e.0 || c == e.1 {
            assert(self.links_of(c).subset_of(pre.links_of(c).insert(other)));
            vstd::set_lib::lemma_len_subset(self.links_of(c), pre.links_of(c).insert(other));
        } else {
            assert(self.links_of(c).subset_of(pre.links_of(c)));
            vstd::set_lib::lemma_len_subset(self.links_of(c), pre.links_of(c));
        }
    }

    /// Without one link the cells of a list in which none stands twice have
    /// two links fewer at most.
    pub proof fn lemma_degrees_without(self, e: (Node, Node), cells: Seq<Node>)
        requires
            self.wf(),
            self.edges.contains(e),
            cells.no_duplicates(),
        ensures
            self.degrees(cells) <= self.without(e).degrees(cells) + (if cells.contains(e.0) {
                1int
            } else {
                0int
            }) + (if cells.contains(e.1) && e.1 != e.0 {
                1int
            } else {
                0int
            }),
        decreases cells.len(),
    {
        if cells.len() > 0 {
            let front = cells.drop_last();
            let last = cells.last();
            self.lemma_degrees_without(e, front);
            self.lemma_degree_without(e, last);
            assert(cells[cells.len() - 1] == last);
            assert forall|x: Node| front.contains(x) implies cells.contains(x) && x != last by {
                let i = choose|i: int| 0 <= i < front.len() && front[i] == x;
                assert(cells[i] == x);
            }
        }
    }

    /// In a maze without links no cell has a link.
    pub proof fn lemma_degrees_none(self, cells: Seq<Node>)
        requires
            self.edges =~= Set::<(Node, Node)>::empty(),
        ensures
            self.degrees(cells) == 0,
        decreases cells.len(),
    {
        if cells.len() > 0 {
            self.lemma_degrees_none(cells.drop_last());
            assert(self.links_of(cells.last()) =~= Set::<Node>::empty());
        }
    }

    /// Every link is counted at two cells at most.
    pub proof fn lemma_degrees_most(self, cells: Seq<Node>)
        requires
            self.wf(),
            cells.no_duplicates(),
        ensures
            self.degrees(cells) <= 2 * self.edges.len(),
        decreases self.edges.len(),
    {
        if self.edges.len() == 0 {
            self.lemma_degrees_none(cells);
        } else {
            let e = self.edges.choose();
            self.lemma_degree_without(e, e.0);
            self.lemma_degrees_without(e, cells);
            self.without(e).lemma_degrees_most(cells);
        }
    }

    /// Cells with two links or more each have twice as many links as they
    /// are, at least.
    pub proof fn lemma_degrees_least(self, cells: Seq<Node>)
        requires
            forall|i: int| 0 <= i < cells.len() ==> self.links_of(#[trigger] cells[i]).len() >= 2,
        ensures
            self.degrees(cells) >= 2 * cells.len(),
        decreases cells.len(),
    {
        if cells.len() > 0 {
            let front = cells.drop_last();
            assert forall|i: int| 0 <= i < front.len() implies self.links_of(
                #[trigger] front[i],
            ).len() >= 2 by {
                assert(front[i] == cells[i]);
            }
            self.lemma_degrees_least(front);
            assert(cells.last() == cells[cells.len() - 1]);
        }
    }

    /// In a perfect maze of two cells or more every cell has a link.
    pub proof fn lemma_perfect_linked(self)
        requires
            self.is_perfect(),
            self.cells.len() >= 2,
        ensures
            self.all_linked(),
    {
        assert forall|c: Node| self.has_cell(c) implies !#[trigger] self.unlinked(c) by {
            let d = if c == self.cells[0] {
                self.cells[1]
            } else {
                self.cells[0]
            };
            assert(self.has_cell(d) && c != d);
            assert(self.joins(c, d));
            self.lemma_joined_is_linked(c, d);
        }
    }

    /// A perfect maze of two cells or more has a dead end.
    pub proof fn lemma_tree_has_dead_end(self)
        requires
            self.is_perfect(),
            self.cells.len() >= 2,
        ensures
            exists|c: Node| #[trigger] self.dead_ends().contains(c),
    {
        if forall|c: Node| !#[trigger] self.dead_ends().contains(c) {
            assert forall|i: int| 0 <= i < self.cells.len() implies self.links_of(
                #[trigger] self.cells[i],
            ).len() >= 2 by {
                let c = self.cells[i];
                let d = if i == 0 {
                    self.cells[1]
                } else {
                    self.cells[0]
                };
                assert(self.has_cell(c) && self.has_cell(d) && c != d);
                assert(self.joins(c, d));
                self.lemma_joined_is_linked(c, d);
                let b = choose|b: Node| self.linked(c, b);
                assert(self.links_of(c).contains(b));
                self.lemma_links_finite(c);
                Set::lemma_is_singleton(self.links_of(c));
                assert(!self.dead_ends().contains(c));
                if self.links_of(c).len() == 1 {
                    assert(self.links_of(c) =~= set![b]);
                }
                vstd::set_lib::lemma_set_empty_equivalency_len(self.links_of(c));
            }
            self.lemma_degrees_least(self.cells);
            self.lemma_degrees_most(self.cells);
        }
    }

    /// A new link between a dead end and another cell with a link leaves both
    /// no dead ends, and every other cell as it was.
    pub proof fn lemma_braid_link(self, a: Node, b: Node)
        requires
            self.wf(),
            self.has_cell(a),
            self.has_cell(b),
            self.is_dead_end(a),
            !self.unlinked(b),
            !self.linked(a, b),
            a != b,
        ensures
            self.connect(a, b).wf(),
            self.connect(a, b).dead_ends() =~= self.dead_ends().remove(a).remove(b),
            self.connect(a, b).link_count() == self.link_count() + 1,
            self.all_linked() ==> self.connect(a, b).all_linked(),
            self.connect(a, b).dead_ends().len() + 1 <= self.dead_ends().len(),
            self.dead_ends().len() <= self.connect(a, b).dead_ends().len() + 2,
    {
        let post = self.connect(a, b);
        lemma_edge_key(a, b);
        assert forall|x: Node, y: Node| post.linked(x, y) <==> self.linked(x, y) || (x == a && y
            == b) || (x == b && y == a) by {
            lemma_edge_key(x, y);
            if edge_key(x, y) == edge_key(a, b) {
                lemma_edge_key_eq(x, y, a, b);
            }
        }
        assert forall|x: Node| x != a && x != b implies post.links_of(x) =~= self.links_of(x) by {}
        assert(post.links_of(a) =~= self.links_of(a).insert(b));
        assert(post.links_of(b) =~= self.links_of(b).insert(a));
        assert(!post.is_dead_end(a)) by {
            let y = choose|y: Node| self.links_of(a) =~= set![y];
            assert(self.links_of(a).contains(y));
            if post.is_dead_end(a) {
                let z = choose|z: Node| post.links_of(a) =~= set![z];
                assert(post.links_of(a).contains(y));
                assert(post.links_of(a).contains(b));
            }
        }
        assert(!post.is_dead_end(b)) by {
            let y = choose|y: Node| self.linked(b, y);
            self.lemma_linked_symmetric(a, b);
            assert(self.links_of(b).contains(y));
            if post.is_dead_end(b) {
                let z = choose|z: Node| post.links_of(b) =~= set![z];
                assert(post.links_of(b).contains(y));
                assert(post.links_of(b).contains(a));
            }
        }
        assert forall|c: Node| post.dead_ends().contains(c) <==> self.dead_ends().remove(a).remove(
            b,
        ).contains(c) by {
            if c != a && c != b {
                assert(post.links_of(c) =~= self.links_of(c));
            }
        }
        self.lemma_dead_ends_finite();
        assert(self.dead_ends().contains(a));
        lemma_remove_len(self.dead_ends(), a);
        lemma_remove_len(self.dead_ends().remove(a), b);
        assert(post.dead_ends() =~= self.dead_ends().remove(a).remove(b));
        if self.all_linked() {
            assert forall|c: Node| post.has_cell(c) implies !#[trigger] post.unlinked(c) by {
                assert(!self.unlinked(c));
                let y = choose|y: Node| self.linked(c, y);
                assert(post.linked(c, y));
            }
        }
    }
}

/// A finite set without one element is finite and has one element fewer, if
/// it had the element.
pub proof fn lemma_remove_len(s: Set<Node>, a: Node)
    requires
        s.finite(),
    ensures
        s.remove(a).finite(),
        s.len() == s.remove(a).len() + (if s.contains(a) {
            1int
        } else {
            0int
        }),
{
}

/// What a filter keeps of a list without repetitions has no repetitions.
pub proof fn lemma_filter_distinct(s: Seq<Node>, keep: spec_fn(Node) -> bool)
    requires
        s.no_duplicates(),
    ensures
        s.filter(keep).no_duplicates(),
    decreases s.len(),
{
    if s.len() > 0 {
        let front = s.drop_last();
        lemma_filter_distinct(front, keep);
        assert(s =~= front.push(s.last()));
        front.lemma_filter_push(s.last(), keep);
        if front.filter(keep).contains(s.last()) {
            front.lemma_filter_contains_rev(keep, s.last());
            let j = choose|j: int| 0 <= j < front.len() && front[j] == s.last();
            assert(s[j] == s[s.len() - 1]);
        }
    } else {
        assert(s.filter(keep) =~= Seq::<Node>::empty()) by {
            reveal(Seq::filter);
        }
    }
}

impl<K: Kind> Grid<K> {
    /// Whether a cell is linked to every cell adjacent to it.
    pub open spec fn boxed_in(&self, c: Node) -> bool {
        forall|i: int|
            0 <= i < self.kind().adjacent(self@, c).len() ==> self@.linked(
                c,
                #[trigger] self.kind().adjacent(self@, c)[i],
            )
    }

    /// What braiding does at a dead end `c`: it links `c` to an adjacent cell
    /// `n` that it was not linked to, and that is a dead end too if any such
    /// cell is.
    pub open spec fn braided(&self, c: Node, n: Node, post: Maze) -> bool {
        &&& self@.is_dead_end(c)
        &&& self.kind().adjacent(self@, c).contains(n)
        &&& self@.has_cell(n)
        &&& n != c
        &&& !self@.linked(c, n)
        &&& joined(self@, c, n, post)
        &&& post == self.kind().linking(self@, c, n)
        &&& self.kind().flat() ==> post == self@.connect(c, n)
        &&& self@.is_dead_end(n) || forall|i: int|
            0 <= i < self.kind().adjacent(self@, c).len() && !self@.linked(
                c,
                #[trigger] self.kind().adjacent(self@, c)[i],
            ) ==> !self@.is_dead_end(self.kind().adjacent(self@, c)[i])
    }

    /// The cells with exactly one link, in enumeration order.
    pub fn dead_ends(&self) -> (list: Vec<K::Cell>)
        requires
            self.wf(),
        ensures
            nodes_of(list@) == self@.cells.filter(self@.dead_end_cells()),
            forall|c: Node| #[trigger] nodes_of(list@).contains(c) <==> self@.dead_ends().contains(c),
            nodes_of(list@).no_duplicates(),
            list.len() == self@.dead_ends().len(),
    {
        let cells = self.cells();
        let mut list: Vec<K::Cell> = Vec::new();
        let mut i: usize = 0;
        let ghost keep = self@.dead_end_cells();
        assert(nodes_of(cells@).take(0).filter(keep) =~= nodes_of(list@));
        while i < cells.len()
            invariant
                i <= cells.len(),
                self.wf(),
                keep == self@.dead_end_cells(),
                nodes_of(cells@) == self@.cells,
                nodes_of(list@) == nodes_of(cells@).take(i as int).filter(keep),
            decreases cells.len() - i,
        {
            let cell = cells[i];
            let ghost before = list@;
            proof {
                let front = nodes_of(cells@).take(i as int);
                assert(nodes_of(cells@).take(i + 1) =~= front.push(cell.node()));
                front.lemma_filter_push(cell.node(), keep);
            }
            if self.is_dead_end(cell) {
                list.push(cell);
                assert(nodes_of(list@) =~= nodes_of(before).push(cell.node()));
            }
            i += 1;
        }
        proof {
            assert(nodes_of(cells@).take(cells.len() as int) =~= nodes_of(cells@));
            let found = nodes_of(list@);
            assert forall|c: Node| #[trigger] found.contains(c) <==> self@.dead_ends().contains(c) by {
                if found.contains(c) {
                    self@.cells.lemma_filter_contains_rev(keep, c);
                    let j = choose|j: int| 0 <= j < found.len() && found[j] == c;
                    self@.cells.lemma_filter_pred(keep, j);
                }
                if self@.dead_ends().contains(c) {
                    let j = choose|j: int| 0 <= j < self@.cells.len() && self@.cells[j] == c;
                    self@.cells.lemma_filter_contains(keep, j);
                }
            }
            lemma_filter_distinct(self@.cells, keep);
            found.unique_seq_to_set();
            assert(found.to_set() =~= self@.dead_ends());
        }
        list
    }

    /// One step of braiding: a cell with exactly one link is linked to a
    /// random one of the adjacent cells that it is not linked to, picked
    /// among the dead ends if any of them is one. Returns whether a link was
    /// made: none is made at a cell that is no dead end, nor at one that is
    /// linked to every adjacent cell.
    pub fn braid_at(&mut self, cell: K::Cell) -> (linked: bool)
        requires
            old(self).wf(),
            old(self)@.has_cell(cell.node()),
        ensures
            final(self).wf(),
            final(self).kind() == old(self).kind(),
            final(self).marks() == old(self).marks(),
            linked && old(self).kind().flat() ==> final(self)@.link_count() == old(self)@.link_count()
                + 1,
            if linked {
                exists|n: Node| #[trigger] old(self).braided(cell.node(), n, final(self)@)
            } else {
                final(self)@ == old(self)@ && (!old(self)@.is_dead_end(cell.node()) || old(
                    self,
                ).boxed_in(cell.node()))
            },
    {
        if !self.is_dead_end(cell) {
            return false;
        }
        let around = self.neighbours(cell);
        let ghost adj = self.kind().adjacent(self@, cell.node());
        let mut open: Vec<K::Cell> = Vec::new();
        let mut dead: Vec<K::Cell> = Vec::new();
        let mut i: usize = 0;
        while i < around.len()
            invariant
                i <= around.len(),
                self.wf(),
                *self == *old(self),
                nodes_of(around@) == adj,
                forall|j: int|
                    0 <= j < around.len() ==> self@.has_cell(#[trigger] around[j].node())
                        && around[j].node() != cell.node(),
                forall|j: int|
                    0 <= j < open.len() ==> adj.contains((#[trigger] open[j]).node())
                        && !self@.linked(cell.node(), open[j].node()) && self@.has_cell(
                        open[j].node(),
                    ) && open[j].node() != cell.node(),
                forall|j: int|
                    0 <= j < dead.len() ==> adj.contains((#[trigger] dead[j]).node())
                        && !self@.linked(cell.node(), dead[j].node()) && self@.has_cell(
                        dead[j].node(),
                    ) && dead[j].node() != cell.node() && self@.is_dead_end(dead[j].node()),
                forall|j: int|
                    0 <= j < i && !self@.linked(cell.node(), #[trigger] adj[j]) ==> open.len() > 0,
                forall|j: int|
                    0 <= j < i && !self@.linked(cell.node(), #[trigger] adj[j])
                        && self@.is_dead_end(adj[j]) ==> dead.len() > 0,
            decreases around.len() - i,
        {
            let n = around[i];
            assert(nodes_of(around@)[i as int] == n.node());
            assert(adj.contains(n.node()));
            if !self.are_linked(cell, n) {
                open.push(n);
                if self.is_dead_end(n) {
                    dead.push(n);
                }
            }
            i += 1;
        }
        let pick = match choose_index(dead.len()) {
            Some(k) => Some(dead[k]),
            None => match choose_index(open.len()) {
                Some(k) => Some(open[k]),
                None => None,
            },
        };
        match pick {
            Some(n) => {
                self.link(cell, n);
                assert(old(self).braided(cell.node(), n.node(), self@));
                proof {
                    lemma_edge_key(cell.node(), n.node());
                }
                true
            },
            None => {
                assert(self.boxed_in(cell.node()));
                false
            },
        }
    }

    /// In a flat grid a cell that is linked to every adjacent cell stays so
    /// when links are added.
    pub proof fn lemma_boxed_in_stays(&self, post: &Self, c: Node)
        requires
            self.kind().flat(),
            post.kind() == self.kind(),
            post.marks() == self.marks(),
            post@.cells == self@.cells,
            self@.edges.subset_of(post@.edges),
            self.boxed_in(c),
        ensures
            post.boxed_in(c),
    {
        self.kind().lemma_flat(self@, post@, c);
        assert forall|i: int| 0 <= i < post.kind().adjacent(post@, c).len() implies post@.linked(
            c,
            #[trigger] post.kind().adjacent(post@, c)[i],
        ) by {
            assert(self@.linked(c, self.kind().adjacent(self@, c)[i]));
        }
    }

    /// Whether every link is a link of `pre` or joins two cells that lie
    /// near each other (see [`Kind::near`]), of which one was a dead end of
    /// `pre` or is a cell that `pre` did not have.
    pub open spec fn braid_links(&self, pre: Maze) -> bool {
        forall|a: Node, b: Node| #[trigger]
            self@.linked(a, b) ==> pre.linked(a, b) || (self.kind().near(self@.cells, a, b) && (
            pre.is_dead_end(a) || pre.is_dead_end(b) || !pre.has_cell(a) || !pre.has_cell(b)))
    }

    /// Braiding at a dead end of `pre` keeps every link as
    /// [`Grid::braid_links`] says.
    pub proof fn lemma_braid_links(&self, post: &Self, pre: Maze, c: Node, n: Node)
        requires
            self.wf(),
            self@.extends(pre),
            post.kind() == self.kind(),
            post.marks() == self.marks(),
            self.braid_links(pre),
            pre.is_dead_end(c),
            self.braided(c, n, post@),
        ensures
            post.braid_links(pre),
    {
        self.kind().lemma_near(self@, c, n);
        crate::model::lemma_joined_links(self@, c, n, post@);
        assert forall|a: Node, b: Node| #[trigger] post@.linked(a, b) implies pre.linked(a, b) || (
        post.kind().near(post@.cells, a, b) && (pre.is_dead_end(a) || pre.is_dead_end(b)
            || !pre.has_cell(a) || !pre.has_cell(b))) by {
            if self@.linked(a, b) {
                if !pre.linked(a, b) {
                    assert(self.kind().near(self@.cells, a, b));
                }
            } else {
                if pre.has_cell(a) {
                    self@.lemma_extends_cell(pre, a);
                }
                if pre.has_cell(b) {
                    self@.lemma_extends_cell(pre, b);
                }
            }
        }
    }

    /// What braiding has done to a flat grid in which every cell had a
    /// link: the cells are the same, no cell has become a dead end, and
    /// every new link has taken away one dead end or two.
    pub open spec fn braid_of(&self, pre: &Self) -> bool {
        &&& self@.cells == pre@.cells
        &&& self@.all_linked()
        &&& self@.dead_ends().subset_of(pre@.dead_ends())
        &&& self@.link_count() >= pre@.link_count()
        &&& self@.dead_ends().len() + (self@.link_count() - pre@.link_count())
            <= pre@.dead_ends().len()
        &&& pre@.dead_ends().len() <= self@.dead_ends().len() + 2 * (self@.link_count()
            - pre@.link_count())
    }

    /// Passes once through the dead ends, in random order. A cell that is
    /// still a dead end when its turn comes is braided (see
    /// [`Grid::braid_at`]) with a chance of `numerator` in `denominator`, and
    /// for certain where `numerator` is no less than `denominator`.
    ///
    /// Every new link joins two cells that lie near each other, of which
    /// one was a dead end or is a tunnel cell that the link has brought
    /// (see [`Grid::braid_links`]), and a flat grid keeps its cells. In a
    /// flat grid in which every cell has a link, [`Grid::braid_of`] holds
    /// of the result, and, if braiding was certain, every dead end that is
    /// left is linked to every cell adjacent to it: there are fewer dead
    /// ends than before where one was not so linked, and none where none
    /// was, with a new link for every dead end or every two. A perfect maze
    /// of two cells or more has a dead end to begin with.
    pub fn braid(self, numerator: usize, denominator: usize) -> (maze: Self)
        requires
            self.wf(),
            denominator > 0,
        ensures
            maze.wf(),
            maze.kind() == self.kind(),
            maze.marks() == self.marks(),
            maze@.extends(self@),
            maze.braid_links(self@),
            self.kind().flat() ==> maze@.cells == self@.cells,
            self@.dead_ends().len() == 0 ==> maze@ == self@,
            self.kind().flat() && self@.all_linked() ==> maze.braid_of(&self) && (numerator
                >= denominator ==> forall|c: Node| #[trigger]
                maze@.dead_ends().contains(c) ==> maze.boxed_in(c)),
            self.kind().flat() && self@.all_linked() && numerator >= denominator && (forall|c: Node| #[trigger]
                self@.dead_ends().contains(c) ==> !self.boxed_in(c)) ==> {
                &&& maze@.dead_ends() =~= Set::<Node>::empty()
                &&& maze@.link_count() - self@.link_count() <= self@.dead_ends().len()
                &&& self@.dead_ends().len() <= 2 * (maze@.link_count() - self@.link_count())
            },
            self.kind().flat() && self@.all_linked() && numerator >= denominator && (exists|c: Node| #[trigger]
                self@.dead_ends().contains(c) && !self.boxed_in(c)) ==> maze@.dead_ends().len()
                < self@.dead_ends().len(),
            self.kind().flat() && self@.is_perfect() && self@.cells.len() >= 2 && numerator
                >= denominator && (forall|c: Node| #[trigger]
                self@.dead_ends().contains(c) ==> !self.boxed_in(c)) ==> maze@.dead_ends().len() == 0
                && 0 < self@.dead_ends().len(),
    {
        let mut grid = self;
        let mut order = grid.dead_ends();
        let ghost listed = order@;
        shuffle(&mut order);
        proof {
            vstd::seq_lib::to_multiset_len(listed);
            vstd::seq_lib::to_multiset_len(order@);
        }
        let ghost law = self.kind().flat() && self@.all_linked();
        let ghost certain = numerator >= denominator;
        proof {
            assert forall|j: int| 0 <= j < order.len() implies self@.has_cell(
                (#[trigger] order[j]).node(),
            ) by {
                assert(order@.contains(order[j]));
                vstd::seq_lib::to_multiset_contains(order@, order[j]);
                vstd::seq_lib::to_multiset_contains(listed, order[j]);
                let k = choose|k: int| 0 <= k < listed.len() && listed[k] == order[j];
                assert(nodes_of(listed)[k] == order[j].node());
                assert(nodes_of(listed).contains(order[j].node()));
            }
            assert forall|j: int| 0 <= j < order.len() implies self@.is_dead_end(
                (#[trigger] order[j]).node(),
            ) by {
                assert(order@.contains(order[j]));
                vstd::seq_lib::to_multiset_contains(order@, order[j]);
                vstd::seq_lib::to_multiset_contains(listed, order[j]);
                let k = choose|k: int| 0 <= k < listed.len() && listed[k] == order[j];
                assert(nodes_of(listed)[k] == order[j].node());
                assert(nodes_of(listed).contains(order[j].node()));
                assert(self@.dead_ends().contains(order[j].node()));
            }
            assert forall|c: Node| self@.dead_ends().contains(c) implies nodes_of(order@).contains(
                c,
            ) by {
                assert(nodes_of(listed).contains(c));
                let k = choose|k: int| 0 <= k < listed.len() && nodes_of(listed)[k] == c;
                vstd::seq_lib::to_multiset_contains(listed, listed[k]);
                vstd::seq_lib::to_multiset_contains(order@, listed[k]);
                let j = choose|j: int| 0 <= j < order.len() && order[j] == listed[k];
                assert(nodes_of(order@)[j] == c);
            }
            self@.lemma_dead_ends_finite();
        }
        let mut i: usize = 0;
        while i < order.len()
            invariant
                i <= order.len(),
                denominator > 0,
                certain == (numerator >= denominator),
                law == (self.kind().flat() && self@.all_linked()),
                grid.wf(),
                grid.kind() == self.kind(),
                grid.marks() == self.marks(),
                grid@.extends(self@),
                grid.braid_links(self@),
                self.kind().flat() ==> grid@.cells == self@.cells,
                forall|j: int| 0 <= j < order.len() ==> self@.is_dead_end((#[trigger] order[j]).node()),
                order.len() == 0 ==> grid@ == self@,
                forall|j: int| 0 <= j < order.len() ==> self@.has_cell((#[trigger] order[j]).node()),
                law ==> grid.braid_of(&self),
                law && certain ==> forall|j: int|
                    0 <= j < i ==> !grid@.is_dead_end((#[trigger] order[j]).node())
                        || grid.boxed_in(order[j].node()),
            decreases order.len() - i,
        {
            let cell = order[i];
            let ghost before = grid;
            proof {
                assert(self@.has_cell(order[i as int].node()));
                let k = choose|k: int| 0 <= k < self@.cells.len() && self@.cells[k] == cell.node();
                assert(grid@.cells[k] == cell.node());
            }
            let linked = if grid.is_dead_end(cell) && random_range(0, denominator) < numerator {
                grid.braid_at(cell)
            } else {
                false
            };
            proof {
                if linked {
                    let n = choose|n: Node| #[trigger] before.braided(cell.node(), n, grid@);
                    crate::model::lemma_joined_extends(before@, cell.node(), n, grid@);
                    before.lemma_braid_links(&grid, self@, cell.node(), n);
                    if law {
                        before@.lemma_braid_link(cell.node(), n);
                        before@.lemma_dead_ends_finite();
                        grid@.lemma_dead_ends_finite();
                    }
                }
                if law && certain {
                    assert forall|j: int| 0 <= j < i + 1 implies !grid@.is_dead_end(
                        (#[trigger] order[j]).node(),
                    ) || grid.boxed_in(order[j].node()) by {
                        let c = order[j].node();
                        if j < i {
                            if before.boxed_in(c) {
                                before.lemma_boxed_in_stays(&grid, c);
                            } else if grid@.is_dead_end(c) {
                                assert(grid@.dead_ends().contains(c)) by {
                                    let k = choose|k: int|
                                        0 <= k < self@.cells.len() && self@.cells[k] == c;
                                    assert(grid@.cells[k] == c);
                                }
                                assert(before@.dead_ends().contains(c));
                            }
                        } else if linked {
                            if grid@.is_dead_end(c) {
                                assert(grid@.dead_ends().contains(c));
                            }
                        }
                    }
                }
            }
            i += 1;
        }
        proof {
            if self@.is_perfect() && self@.cells.len() >= 2 {
                self@.lemma_perfect_linked();
                self@.lemma_tree_has_dead_end();
                self@.lemma_dead_ends_finite();
                let c = choose|c: Node| #[trigger] self@.dead_ends().contains(c);
                assert(self@.dead_ends().len() > 0) by {
                    if self@.dead_ends().len() == 0 {
                        vstd::set_lib::lemma_set_empty_equivalency_len(self@.dead_ends());
                    }
                }
            }
            if law && certain {
                assert forall|c: Node| #[trigger] grid@.dead_ends().contains(c) implies grid.boxed_in(
                    c,
                ) by {
                    assert(self@.dead_ends().contains(c));
                    assert(nodes_of(order@).contains(c));
                    let j = choose|j: int| 0 <= j < order.len() && nodes_of(order@)[j] == c;
                    assert(order[j].node() == c);
                }
                if forall|c: Node| #[trigger] self@.dead_ends().contains(c) ==> !self.boxed_in(c) {
                    assert forall|c: Node| !grid@.dead_ends().contains(c) by {
                        if grid@.dead_ends().contains(c) {
                            assert(self@.dead_ends().contains(c));
                            grid.lemma_boxed_in_before(&self, c);
                        }
                    }
                    assert(grid@.dead_ends() =~= Set::<Node>::empty());
                }
                if exists|c: Node| #[trigger] self@.dead_ends().contains(c) && !self.boxed_in(c) {
                    let c = choose|c: Node| #[trigger]
                        self@.dead_ends().contains(c) && !self.boxed_in(c);
                    grid.lemma_braid_fewer(&self, c);
                }
            }
        }
        grid
    }

    /// A dead end that is linked to every cell adjacent to it was so before
    /// links were added, if it was a dead end then.
    pub proof fn lemma_boxed_in_before(&self, pre: &Self, c: Node)
        requires
            pre.kind().flat(),
            self.kind() == pre.kind(),
            self@.cells == pre@.cells,
            pre@.edges.subset_of(self@.edges),
            pre@.is_dead_end(c),
            self@.is_dead_end(c),
            self.boxed_in(c),
        ensures
            pre.boxed_in(c),
    {
        pre.kind().lemma_flat(pre@, self@, c);
        let y = choose|y: Node| pre@.links_of(c) =~= set![y];
        let z = choose|z: Node| self@.links_of(c) =~= set![z];
        assert(pre@.links_of(c).contains(y));
        assert(self@.linked(c, y));
        assert(self@.links_of(c).contains(y));
        assert forall|i: int| 0 <= i < pre.kind().adjacent(pre@, c).len() implies pre@.linked(
            c,
            #[trigger] pre.kind().adjacent(pre@, c)[i],
        ) by {
            let x = self.kind().adjacent(self@, c)[i];
            assert(self@.linked(c, x));
            assert(self@.links_of(c).contains(x));
        }
    }

    /// Braiding for certain leaves fewer dead ends wherever a dead end was
    /// not linked to every cell adjacent to it.
    pub proof fn lemma_braid_fewer(&self, pre: &Self, c: Node)
        requires
            pre.wf(),
            self.wf(),
            pre.kind().flat(),
            self.kind() == pre.kind(),
            self.marks() == pre.marks(),
            self@.extends(pre@),
            self.braid_of(pre),
            forall|d: Node| #[trigger] self@.dead_ends().contains(d) ==> self.boxed_in(d),
            pre@.dead_ends().contains(c),
            !pre.boxed_in(c),
        ensures
            self@.dead_ends().len() < pre@.dead_ends().len(),
    {
        pre.kind().lemma_flat(pre@, self@, c);
        let adj = pre.kind().adjacent(pre@, c);
        let i = choose|i: int| 0 <= i < adj.len() && !pre@.linked(c, #[trigger] adj[i]);
        let x = adj[i];
        if self@.dead_ends().contains(c) {
            assert(self.boxed_in(c));
            assert(self@.linked(c, self.kind().adjacent(self@, c)[i]));
            let y = choose|y: Node| pre@.links_of(c) =~= set![y];
            assert(pre@.links_of(c).contains(y));
            assert(self@.linked(c, y));
            let z = choose|z: Node| self@.links_of(c) =~= set![z];
            assert(self@.links_of(c).contains(x));
            assert(self@.links_of(c).contains(y));
            assert(!pre@.links_of(c).contains(x));
        }
        pre@.lemma_dead_ends_finite();
        self@.dead_ends().lemma_subset_not_in_lt(pre@.dead_ends(), c);
    }
}

} // verus!
