//! What the generators promise of a topology in which a walk from cell to
//! adjacent cell leads from every cell to every other: a perfect maze.

use crate::cell::CellKind;
use crate::graph::Node;
use crate::grid::Grid;
use crate::kind::Kind;
use vstd::prelude::*;

verus! {

impl<K: Kind> Grid<K> {
    /// Links run both ways: what [`Grid::are_linked`] says of two cells it
    /// says of them in the other order.
    pub proof fn lemma_links_symmetric(&self, a: K::Cell, b: K::Cell)
        ensures
            self@.linked(a.node(), b.node()) == self@.linked(b.node(), a.node()),
    {
        self@.lemma_linked_symmetric(a.node(), b.node());
    }

    /// A tree that is closed under adjacency is a perfect maze, where the
    /// topology lets one reach every cell that is not in the tree anyway.
    /// This is what the recursive backtracker, the growing tree and both
    /// forms of Prim's algorithm leave.
    pub proof fn lemma_closed_perfect(&self, root: Node)
        requires
            self.wf(),
            self@.grown_from(root),
            self.closed_from(root),
            forall|n: Node|
                self@.has_cell(n) ==> #[trigger] self.reaches(root, n) || self@.touched(root).contains(
                    n,
                ),
        ensures
            self@.is_perfect(),
    {
        self.lemma_closed_tree_is_perfect(root);
    }

    /// A tree after whose growth the hunt finds nothing is a perfect maze,
    /// where adjacent cells are adjacent to each other and the topology
    /// lets one reach every cell that is not in the tree anyway. This is
    /// what hunt and kill leaves.
    pub proof fn lemma_hunted_perfect(&self, root: Node)
        requires
            self.wf(),
            self@.grown_from(root),
            self.hunted_out(),
            self.settled(root),
            self.evenly_steady(),
            forall|n: Node|
                self@.has_cell(n) ==> #[trigger] self.reaches(root, n) || self@.touched(root).contains(
                    n,
                ),
        ensures
            self@.is_perfect(),
    {
        self.lemma_hunted_closed(root);
        self.lemma_closed_perfect(root);
    }

    /// The spanning tree of the generators that grow a tree closed under
    /// adjacency: where a walk from cell to adjacent cell led from every
    /// cell of the grid `given` to every other, the grid that such a
    /// generator has grown from it is a perfect maze.
    pub proof fn lemma_spans(&self, given: &Self, root: Node)
        requires
            self.wf(),
            self.kind() == given.kind(),
            self.steady_kept(given@),
            given@.has_cell(root),
            self@.grown_from(root),
            self.closed_from(root),
            self.brought_in(given@, root),
            given.all_reachable(),
        ensures
            self@.is_perfect(),
    {
        assert forall|n: Node| self@.has_cell(n) implies #[trigger] self.reaches(root, n)
            || self@.touched(root).contains(n) by {
            if given@.has_cell(n) {
                assert(given.reaches(root, n));
                let p = choose|p: Seq<Node>| #[trigger]
                    given.is_route(p) && p.first() == root && p.last() == n;
                assert forall|i: int| 0 <= i < p.len() - 1 implies self.steady(
                    #[trigger] p[i],
                ).contains(p[i + 1]) by {
                    assert(self.steady(p[i]) == given.steady(p[i]));
                }
                assert(self.is_route(p));
            }
        }
        self.lemma_closed_perfect(root);
    }

    /// The spanning tree of the generators that end with a hunt that finds
    /// nothing: where adjacent cells of the grid `given` were adjacent to
    /// each other, and a walk from cell to adjacent cell led from every
    /// cell to every other, the grid that such a generator has grown from
    /// it is a perfect maze.
    pub proof fn lemma_spans_hunted(&self, given: &Self, root: Node)
        requires
            self.wf(),
            self.kind() == given.kind(),
            self@.extends(given@),
            self.steady_kept(given@),
            given@.has_cell(root),
            self@.grown_from(root),
            self.hunted_out(),
            self.settled(root),
            self.brought_in(given@, root),
            given.evenly_steady(),
            given.all_reachable(),
        ensures
            self@.is_perfect(),
    {
        assert forall|a: Node, i: int| self@.has_cell(a) && 0 <= i < self.steady(a).len() implies {
            let b = #[trigger] self.steady(a)[i];
            self@.has_cell(b) && self.steady(b).contains(a)
        } by {
            let b = self.steady(a)[i];
            assert(self.steady(a) == given.steady(a));
            assert(given@.has_cell(a));
            assert(given@.has_cell(given.steady(a)[i]) && given.steady(given.steady(a)[i]).contains(a));
            self@.lemma_extends_cell(given@, b);
            assert(self.steady(b) == given.steady(b));
        }
        self.lemma_hunted_closed(root);
        self.lemma_spans(given, root);
    }

    /// Where every two adjacent cells are joined by a walk along links,
    /// every two cells are. Of such a maze Kruskal's algorithm promises that
    /// it is perfect.
    pub proof fn lemma_all_joined(&self)
        requires
            self.wf(),
            self.neighbours_joined(),
            self.evenly_adjacent(),
            self.all_reachable(),
        ensures
            forall|a: Node, b: Node| self@.has_cell(a) && self@.has_cell(b) ==> #[trigger] self@.joins(a, b),
    {
        assert forall|a: Node, b: Node| self@.has_cell(a) && self@.has_cell(b) implies #[trigger] self@.joins(
            a,
            b,
        ) by {
            assert(self.reaches(a, b));
            let p = choose|p: Seq<Node>| #[trigger] self.is_route(p) && p.first() == a && p.last() == b;
            self.lemma_route_joined(p, p.len() - 1);
        }
    }
}

} // verus!
