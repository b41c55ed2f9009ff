//! The mathematical model of a maze: a list of cells and a set of links
//! between them. Every contract of the library is stated over this model.

use crate::graph::edge_key;
use crate::graph::graph_edges;
use crate::graph::graph_nodes;
use crate::graph::node_le;
use crate::graph::LinkGraph;
use crate::graph::Node;
use vstd::prelude::*;

verus! {

/// A maze as a mathematical value: its cells in enumeration order, and its
/// links, each stored once under the ordered key of its two cells.
pub struct Maze {
    pub cells: Seq<Node>,
    pub edges: Set<(Node, Node)>,
}

/// The maze that a link graph holds.
pub open spec fn maze_of(g: LinkGraph) -> Maze {
    Maze { cells: graph_nodes(g), edges: graph_edges(g) }
}

impl Maze {
    /// Whether `n` is a cell of the maze.
    pub open spec fn has_cell(self, n: Node) -> bool {
        self.cells.contains(n)
    }

    /// Whether a link joins `a` and `b`.
    pub open spec fn linked(self, a: Node, b: Node) -> bool {
        self.edges.contains(edge_key(a, b))
    }

    /// No cell is listed twice, and every link is stored under its ordered key
    /// and joins two cells of the maze.
    pub open spec fn wf(self) -> bool {
        &&& self.cells.no_duplicates()
        &&& self.edges.finite()
        &&& forall|e: (Node, Node)| #[trigger]
            self.edges.contains(e) ==> node_le(e.0, e.1) && self.has_cell(e.0) && self.has_cell(
                e.1,
            )
    }

    /// The maze with a link between `a` and `b`.
    pub open spec fn connect(self, a: Node, b: Node) -> Maze {
        Maze { cells: self.cells, edges: self.edges.insert(edge_key(a, b)) }
    }

    /// The maze without the link between `a` and `b`.
    pub open spec fn disconnect(self, a: Node, b: Node) -> Maze {
        Maze { cells: self.cells, edges: self.edges.remove(edge_key(a, b)) }
    }

    /// The maze with `n` as its last cell, unless it is a cell already.
    pub open spec fn with_cell(self, n: Node) -> Maze {
        Maze { cells: crate::graph::with_node(self.cells, n), edges: self.edges }
    }

    /// The cells linked to `a`.
    pub open spec fn links_of(self, a: Node) -> Set<Node> {
        Set::new(|b: Node| self.linked(a, b))
    }

    /// Whether `a` has no link at all.
    pub open spec fn unlinked(self, a: Node) -> bool {
        forall|b: Node| !self.linked(a, b)
    }

    /// The test for cells without a link.
    pub open spec fn unlinked_cells(self) -> spec_fn(Node) -> bool {
        |n: Node| self.unlinked(n)
    }

    /// The test for cells with a link.
    pub open spec fn linked_cells(self) -> spec_fn(Node) -> bool {
        |n: Node| !self.unlinked(n)
    }

    /// Whether `a` has exactly one link.
    pub open spec fn is_dead_end(self, a: Node) -> bool {
        exists|b: Node| self.links_of(a) =~= set![b]
    }

    /// The number of links.
    pub open spec fn link_count(self) -> nat {
        self.edges.len()
    }

    /// Whether every two consecutive cells of `p` are linked.
    pub open spec fn is_walk(self, p: Seq<Node>) -> bool {
        &&& p.len() > 0
        &&& forall|i: int| 0 <= i < p.len() - 1 ==> self.linked(#[trigger] p[i], p[i + 1])
    }

    /// Whether a walk along links leads from `a` to `b`.
    pub open spec fn joins(self, a: Node, b: Node) -> bool {
        exists|p: Seq<Node>| #[trigger] self.is_walk(p) && p.first() == a && p.last() == b
    }

    /// Whether the links form a tree over exactly the cells in `reached`, which
    /// include `root`: every link joins two of them, each of them can be
    /// walked to from `root`, and there is one link fewer than cells reached.
    pub open spec fn is_tree(self, root: Node, reached: Set<Node>) -> bool {
        &&& self.wf()
        &&& reached.finite()
        &&& reached.contains(root)
        &&& forall|n: Node| #[trigger] reached.contains(n) ==> self.has_cell(n)
        &&& forall|e: (Node, Node)| #[trigger]
            self.edges.contains(e) ==> reached.contains(e.0) && reached.contains(e.1)
        &&& forall|n: Node| #[trigger] reached.contains(n) ==> self.joins(root, n)
        &&& self.edges.len() + 1 == reached.len()
    }

    /// The cells that have a link, and `root`.
    pub open spec fn touched(self, root: Node) -> Set<Node> {
        Set::new(|n: Node| n == root || !self.unlinked(n))
    }

    /// Whether the links form a tree that holds `root` and every cell that
    /// has a link.
    pub open spec fn grown_from(self, root: Node) -> bool {
        self.is_tree(root, self.touched(root))
    }

    /// Whether this maze has all cells of `pre`, in the same order and before
    /// any other, and all links of `pre`.
    pub open spec fn extends(self, pre: Maze) -> bool {
        pre.cells.is_prefix_of(self.cells) && pre.edges.subset_of(self.edges)
    }

    /// A perfect maze: a walk leads from every cell to every other, and there
    /// is exactly one link fewer than cells.
    pub open spec fn is_perfect(self) -> bool {
        &&& self.wf()
        &&& forall|a: Node, b: Node|
            self.has_cell(a) && self.has_cell(b) ==> #[trigger] self.joins(a, b)
        &&& self.edges.len() + 1 == self.cells.len()
    }
}

/// What linking `a` to `b` may do to a maze: add the link itself, or add a
/// new cell `u` and the two links `a`-`u` and `u`-`b`.
pub open spec fn joined(pre: Maze, a: Node, b: Node, post: Maze) -> bool {
    ||| post == pre.connect(a, b)
    ||| exists|u: Node| #[trigger]
        tunnelled(pre, a, u, b, post)
}

/// The second form of [`joined`], for a given new cell `u`.
pub open spec fn tunnelled(pre: Maze, a: Node, u: Node, b: Node, post: Maze) -> bool {
    !pre.has_cell(u) && post == pre.with_cell(u).connect(a, u).connect(u, b)
}

/// Linking keeps the cells and links that were there.
pub proof fn lemma_joined_extends(pre: Maze, a: Node, b: Node, post: Maze)
    requires
        joined(pre, a, b, post),
    ensures
        post.extends(pre),
{
}

/// After `a` was linked to `b`, a walk leads from one to the other.
pub proof fn lemma_joined_joins(pre: Maze, a: Node, b: Node, post: Maze)
    requires
        joined(pre, a, b, post),
    ensures
        post.joins(a, b),
{
    post.lemma_joins_reflexive(a);
    if post == pre.connect(a, b) {
        lemma_edge_key(a, b);
        post.lemma_joins_step(a, a, b);
    } else {
        let u = choose|u: Node| #[trigger] tunnelled(pre, a, u, b, post);
        lemma_edge_key(a, u);
        lemma_edge_key(u, b);
        post.lemma_joins_step(a, a, u);
        post.lemma_joins_step(a, u, b);
    }
}

/// A link between `a` and `b` is the only link that linking them adds.
pub proof fn lemma_connect_links(m: Maze, a: Node, b: Node)
    ensures
        forall|x: Node, y: Node| #[trigger]
            m.connect(a, b).linked(x, y) ==> m.linked(x, y) || (x == a && y == b) || (x == b && y == a),
{
    assert forall|x: Node, y: Node| #[trigger] m.connect(a, b).linked(x, y) implies m.linked(x, y) || (x
        == a && y == b) || (x == b && y == a) by {
        if !m.linked(x, y) {
            lemma_edge_key_eq(x, y, a, b);
        }
    }
}

/// Every link that linking `a` to `b` adds holds `a` or a new cell.
pub proof fn lemma_joined_links(pre: Maze, a: Node, b: Node, post: Maze)
    requires
        joined(pre, a, b, post),
    ensures
        forall|x: Node, y: Node| #[trigger]
            post.linked(x, y) ==> pre.linked(x, y) || x == a || y == a || !pre.has_cell(x)
                || !pre.has_cell(y),
{
    assert forall|x: Node, y: Node| #[trigger] post.linked(x, y) implies pre.linked(x, y) || x == a
        || y == a || !pre.has_cell(x) || !pre.has_cell(y) by {
        if !pre.linked(x, y) {
            if post == pre.connect(a, b) {
                lemma_edge_key_eq(x, y, a, b);
            } else {
                let u = choose|u: Node| #[trigger] tunnelled(pre, a, u, b, post);
                if edge_key(x, y) == edge_key(a, u) {
                    lemma_edge_key_eq(x, y, a, u);
                } else {
                    lemma_edge_key_eq(x, y, u, b);
                }
            }
        }
    }
}

/// Linking `a` to `b` does what linking `b` to `a` does.
pub proof fn lemma_joined_symmetric(pre: Maze, a: Node, b: Node, post: Maze)
    requires
        joined(pre, a, b, post),
    ensures
        joined(pre, b, a, post),
{
    lemma_edge_key(a, b);
    if post != pre.connect(a, b) {
        let u = choose|u: Node| #[trigger] tunnelled(pre, a, u, b, post);
        lemma_edge_key(a, u);
        lemma_edge_key(u, b);
        assert(pre.with_cell(u).connect(b, u).connect(u, a).edges =~= post.edges);
        assert(tunnelled(pre, b, u, a, post));
    }
}

/// The key of a link does not depend on the order of its two cells, and it
/// holds exactly these two cells.
pub proof fn lemma_edge_key(a: Node, b: Node)
    ensures
        edge_key(a, b) == edge_key(b, a),
        node_le(edge_key(a, b).0, edge_key(a, b).1),
        edge_key(a, b) == (a, b) || edge_key(a, b) == (b, a),
{
}

/// Two links are the same exactly when they join the same two cells.
pub proof fn lemma_edge_key_eq(a: Node, b: Node, c: Node, d: Node)
    requires
        edge_key(a, b) == edge_key(c, d),
    ensures
        (a == c && b == d) || (a == d && b == c),
{
}

impl Maze {
    /// Being linked is symmetric.
    pub proof fn lemma_linked_symmetric(self, a: Node, b: Node)
        ensures
            self.linked(a, b) == self.linked(b, a),
    {
        lemma_edge_key(a, b);
    }

    /// In a well-formed maze a link joins two cells of the maze.
    pub proof fn lemma_linked_cells(self, a: Node, b: Node)
        requires
            self.wf(),
            self.linked(a, b),
        ensures
            self.has_cell(a),
            self.has_cell(b),
    {
        lemma_edge_key(a, b);
    }
}

impl Maze {
    /// A walk stays a walk when links are added.
    pub proof fn lemma_walk_grows(self, other: Maze, p: Seq<Node>)
        requires
            self.is_walk(p),
            self.edges.subset_of(other.edges),
        ensures
            other.is_walk(p),
    {
        assert forall|i: int| 0 <= i < p.len() - 1 implies other.linked(#[trigger] p[i], p[i + 1]) by {
            assert(self.linked(p[i], p[i + 1]));
        }
    }

    /// Two joined cells stay joined when links are added.
    pub proof fn lemma_joins_grows(self, other: Maze, a: Node, b: Node)
        requires
            self.joins(a, b),
            self.edges.subset_of(other.edges),
        ensures
            other.joins(a, b),
    {
        let p = choose|p: Seq<Node>| #[trigger] self.is_walk(p) && p.first() == a && p.last() == b;
        self.lemma_walk_grows(other, p);
    }

    /// Every cell is joined to itself.
    pub proof fn lemma_joins_reflexive(self, a: Node)
        ensures
            self.joins(a, a),
    {
        let p = seq![a];
        assert(self.is_walk(p));
        assert(p.first() == a && p.last() == a);
    }

    /// A walk from `a` to `b` and a link from `b` to `c` make a walk from `a`
    /// to `c`.
    pub proof fn lemma_joins_step(self, a: Node, b: Node, c: Node)
        requires
            self.joins(a, b),
            self.linked(b, c),
        ensures
            self.joins(a, c),
    {
        let p = choose|p: Seq<Node>| #[trigger] self.is_walk(p) && p.first() == a && p.last() == b;
        let q = p.push(c);
        assert forall|i: int| 0 <= i < q.len() - 1 implies self.linked(#[trigger] q[i], q[i + 1]) by {
            if i < p.len() - 1 {
                assert(self.linked(p[i], p[i + 1]));
            }
        }
        assert(self.is_walk(q));
        assert(q.first() == a && q.last() == c);
    }

    /// Walks can be put end to end.
    pub proof fn lemma_joins_transitive(self, a: Node, b: Node, c: Node)
        requires
            self.joins(a, b),
            self.joins(b, c),
        ensures
            self.joins(a, c),
    {
        let p = choose|p: Seq<Node>| #[trigger] self.is_walk(p) && p.first() == a && p.last() == b;
        let q = choose|q: Seq<Node>| #[trigger] self.is_walk(q) && q.first() == b && q.last() == c;
        let r = p + q.subrange(1, q.len() as int);
        assert forall|i: int| 0 <= i < r.len() - 1 implies self.linked(#[trigger] r[i], r[i + 1]) by {
            if i < p.len() - 1 {
                assert(self.linked(p[i], p[i + 1]));
            } else {
                let j = i - p.len() + 1;
                assert(self.linked(q[j], q[j + 1]));
            }
        }
        assert(self.is_walk(r));
        assert(r.first() == a && r.last() == c);
    }

    /// A walk can be taken backwards.
    pub proof fn lemma_joins_symmetric(self, a: Node, b: Node)
        requires
            self.joins(a, b),
        ensures
            self.joins(b, a),
    {
        let p = choose|p: Seq<Node>| #[trigger] self.is_walk(p) && p.first() == a && p.last() == b;
        let r = p.reverse();
        assert forall|i: int| 0 <= i < r.len() - 1 implies self.linked(#[trigger] r[i], r[i + 1]) by {
            let j = p.len() - 2 - i;
            assert(self.linked(p[j], p[j + 1]));
            self.lemma_linked_symmetric(p[j], p[j + 1]);
        }
        assert(self.is_walk(r));
        assert(r.first() == b && r.last() == a);
    }

    /// A cell that is joined to another cell has a link.
    pub proof fn lemma_joined_is_linked(self, a: Node, b: Node)
        requires
            self.joins(a, b),
            a != b,
        ensures
            !self.unlinked(a),
            !self.unlinked(b),
    {
        let p = choose|p: Seq<Node>| #[trigger] self.is_walk(p) && p.first() == a && p.last() == b;
        assert(self.linked(p[0], p[1]));
        assert(self.linked(p[p.len() - 2], p[p.len() - 2 + 1]));
        self.lemma_linked_symmetric(p[p.len() - 2], b);
    }

    /// A tree stays a tree when a cell outside it is linked to one of its
    /// cells.
    pub proof fn lemma_tree_extend(self, root: Node, reached: Set<Node>, a: Node, b: Node)
        requires
            self.is_tree(root, reached),
            reached.contains(a),
            !reached.contains(b),
            self.has_cell(b),
        ensures
            self.connect(a, b).is_tree(root, reached.insert(b)),
            self.connect(a, b).link_count() == self.link_count() + 1,
    {
        let post = self.connect(a, b);
        lemma_edge_key(a, b);
        assert forall|n: Node| #[trigger] reached.insert(b).contains(n) implies post.joins(
            root,
            n,
        ) by {
            if n == b {
                self.lemma_joins_grows(post, root, a);
                post.lemma_joins_step(root, a, b);
            } else {
                self.lemma_joins_grows(post, root, n);
            }
        }
        assert(!self.edges.contains(edge_key(a, b)));
    }

    /// A tree stays a tree when the maze gets a cell.
    pub proof fn lemma_tree_with_cell(self, root: Node, reached: Set<Node>, u: Node)
        requires
            self.is_tree(root, reached),
        ensures
            self.with_cell(u).is_tree(root, reached),
    {
        let post = self.with_cell(u);
        assert forall|n: Node| self.has_cell(n) implies post.has_cell(n) by {
            if !self.cells.contains(u) {
                let i = choose|i: int| 0 <= i < self.cells.len() && self.cells[i] == n;
                assert(self.cells.push(u)[i] == n);
            }
        }
        assert forall|n: Node| #[trigger] reached.contains(n) implies post.joins(root, n) by {
            self.lemma_joins_grows(post, root, n);
        }
    }

    /// The cells of a tree are the root and the cells with a link.
    pub proof fn lemma_tree_touched(self, root: Node, reached: Set<Node>)
        requires
            self.is_tree(root, reached),
        ensures
            reached =~= self.touched(root),
    {
        assert forall|n: Node| reached.contains(n) implies self.touched(root).contains(n) by {
            if n != root {
                self.lemma_joined_is_linked(root, n);
            }
        }
        assert forall|n: Node| self.touched(root).contains(n) implies reached.contains(n) by {
            if n != root {
                let b = choose|b: Node| self.linked(n, b);
                lemma_edge_key(n, b);
            }
        }
    }

    /// The step by which the generators grow a tree: when a cell of the
    /// tree is linked to a cell without links, the result is a tree again,
    /// with one cell more, or two when the link runs through a new cell.
    pub proof fn lemma_grow(self, root: Node, a: Node, b: Node, post: Maze)
        requires
            self.grown_from(root),
            a == root || !self.unlinked(a),
            self.unlinked(b),
            a != b,
            self.has_cell(b),
            joined(self, a, b, post),
        ensures
            post.grown_from(root),
            post.touched(root).len() > self.touched(root).len(),
            post.cells.len() - post.touched(root).len() < self.cells.len() - self.touched(
                root,
            ).len(),
            post.touched(root).len() <= post.cells.len(),
            post.cells.len() - post.touched(root).len() == self.cells.len() - self.touched(
                root,
            ).len() - 1,
            !self.touched(root).contains(b),
            post.touched(root).contains(b),
            self.touched(root).subset_of(post.touched(root)),
            post.extends(self),
    {
        let reached = self.touched(root);
        lemma_joined_extends(self, a, b, post);
        if b == root {
            self.lemma_joined_is_linked(root, a);
        }
        assert(!reached.contains(b));
        if post == self.connect(a, b) {
            self.lemma_tree_extend(root, reached, a, b);
            post.lemma_tree_touched(root, reached.insert(b));
        } else {
            let u = choose|u: Node| #[trigger] tunnelled(self, a, u, b, post);
            let m1 = self.with_cell(u);
            self.lemma_tree_with_cell(root, reached, u);
            assert(m1.has_cell(u)) by {
                assert(self.cells.push(u)[self.cells.len() as int] == u);
            }
            m1.lemma_tree_extend(root, reached, a, u);
            let m2 = m1.connect(a, u);
            assert(m1.has_cell(b)) by {
                let i = choose|i: int| 0 <= i < self.cells.len() && self.cells[i] == b;
                assert(self.cells.push(u)[i] == b);
            }
            m2.lemma_tree_extend(root, reached.insert(u), u, b);
            post.lemma_tree_touched(root, reached.insert(u).insert(b));
        }
        post.lemma_tree_size(root, post.touched(root));
    }

    /// Growing a tree by a link adds to it no cell of the maze but the one
    /// that was linked.
    pub proof fn lemma_grow_only(self, root: Node, a: Node, b: Node, post: Maze)
        requires
            self.wf(),
            self.has_cell(a),
            self.has_cell(b),
            joined(self, b, a, post),
        ensures
            forall|n: Node|
                post.touched(root).contains(n) && self.has_cell(n) ==> self.touched(root).contains(
                    n,
                ) || n == a || n == b,
            forall|n: Node| !self.has_cell(n) && post.has_cell(n) ==> !post.unlinked(n),
    {
        lemma_joined_symmetric(self, b, a, post);
        lemma_edge_key(a, b);
        assert forall|n: Node|
            post.touched(root).contains(n) && self.has_cell(n) implies self.touched(root).contains(
            n,
        ) || n == a || n == b by {
            if n != root && n != a && n != b {
                let y = choose|y: Node| post.linked(n, y);
                lemma_edge_key(n, y);
                if post == self.connect(a, b) {
                    if edge_key(n, y) == edge_key(a, b) {
                        lemma_edge_key_eq(n, y, a, b);
                    }
                    assert(self.linked(n, y));
                } else {
                    let u = choose|u: Node| #[trigger] tunnelled(self, a, u, b, post);
                    lemma_edge_key(a, u);
                    lemma_edge_key(u, b);
                    if edge_key(n, y) == edge_key(a, u) {
                        lemma_edge_key_eq(n, y, a, u);
                    }
                    if edge_key(n, y) == edge_key(u, b) {
                        lemma_edge_key_eq(n, y, u, b);
                    }
                    assert(self.linked(n, y));
                }
            }
        }
        assert forall|n: Node| !self.has_cell(n) && post.has_cell(n) implies !post.unlinked(n) by {
            if post == self.connect(a, b) {
            } else {
                let u = choose|u: Node| #[trigger] tunnelled(self, a, u, b, post);
                lemma_edge_key(a, u);
                let k = choose|k: int| 0 <= k < post.cells.len() && post.cells[k] == n;
                if k < self.cells.len() {
                    assert(self.cells[k] == n);
                }
                assert(n == u);
                assert(post.linked(u, b));
            }
        }
    }

    /// A maze that extends another has its cells.
    pub proof fn lemma_extends_cell(self, pre: Maze, n: Node)
        requires
            self.extends(pre),
            pre.has_cell(n),
        ensures
            self.has_cell(n),
    {
        let k = choose|k: int| 0 <= k < pre.cells.len() && pre.cells[k] == n;
        assert(self.cells[k] == n);
    }

    /// A tree has at most as many cells as the maze.
    pub proof fn lemma_tree_size(self, root: Node, reached: Set<Node>)
        requires
            self.is_tree(root, reached),
        ensures
            reached.len() <= self.cells.len(),
    {
        self.cells.unique_seq_to_set();
        assert(reached.subset_of(self.cells.to_set()));
        vstd::set_lib::lemma_len_subset(reached, self.cells.to_set());
    }

    /// A tree that holds every cell of the maze makes the maze perfect.
    pub proof fn lemma_tree_spans(self, root: Node)
        requires
            self.grown_from(root),
            forall|n: Node| self.has_cell(n) ==> self.touched(root).contains(n),
        ensures
            self.is_perfect(),
    {
        let reached = self.touched(root);
        self.cells.unique_seq_to_set();
        assert forall|n: Node| reached.contains(n) <==> self.cells.to_set().contains(n) by {
            if reached.contains(n) {
                assert(self.has_cell(n));
            }
            if self.cells.to_set().contains(n) {
                assert(self.has_cell(n));
            }
        }
        assert(reached =~= self.cells.to_set());
        assert forall|a: Node, b: Node| self.has_cell(a) && self.has_cell(b) implies #[trigger] self.joins(
            a,
            b,
        ) by {
            self.lemma_joins_symmetric(root, a);
            self.lemma_joins_transitive(a, root, b);
        }
    }

    /// A tree with as many cells as the maze makes the maze perfect.
    pub proof fn lemma_full_tree(self, root: Node)
        requires
            self.grown_from(root),
            self.touched(root).len() == self.cells.len(),
        ensures
            self.is_perfect(),
    {
        let reached = self.touched(root);
        self.cells.unique_seq_to_set();
        assert(reached.subset_of(self.cells.to_set()));
        vstd::set_lib::lemma_subset_equality(reached, self.cells.to_set());
        assert forall|n: Node| self.has_cell(n) implies reached.contains(n) by {
            assert(self.cells.to_set().contains(n));
        }
        self.lemma_tree_spans(root);
    }

    /// Whether `x` has a link to a cell of the maze that ranks lower.
    pub open spec fn descends(self, rank: spec_fn(Node) -> nat, x: Node) -> bool {
        exists|n: Node| self.has_cell(n) && #[trigger] self.linked(x, n) && rank(n) < rank(x)
    }

    /// Where every cell but `root` has a link to a cell that ranks lower, a
    /// walk leads from every cell to `root`.
    pub proof fn lemma_descent(self, root: Node, rank: spec_fn(Node) -> nat, c: Node)
        requires
            self.has_cell(c),
            forall|x: Node| self.has_cell(x) && x != root ==> #[trigger] self.descends(rank, x),
        ensures
            self.joins(c, root),
        decreases rank(c),
    {
        if c == root {
            self.lemma_joins_reflexive(c);
        } else {
            assert(self.descends(rank, c));
            let n = choose|n: Node| self.has_cell(n) && #[trigger] self.linked(c, n) && rank(n) < rank(c);
            self.lemma_descent(root, rank, n);
            self.lemma_joins_reflexive(c);
            self.lemma_joins_step(c, c, n);
            self.lemma_joins_transitive(c, n, root);
        }
    }

    /// A maze in which a walk leads from every cell to `root`, with one link
    /// fewer than cells, is perfect.
    pub proof fn lemma_perfect_by_root(self, root: Node)
        requires
            self.wf(),
            forall|c: Node| self.has_cell(c) ==> #[trigger] self.joins(c, root),
            self.edges.len() + 1 == self.cells.len(),
        ensures
            self.is_perfect(),
    {
        assert forall|a: Node, b: Node| self.has_cell(a) && self.has_cell(b) implies #[trigger] self.joins(
            a,
            b,
        ) by {
            assert(self.joins(b, root));
            self.lemma_joins_symmetric(b, root);
            self.lemma_joins_transitive(a, root, b);
        }
    }

    /// A maze without links is a tree of one cell, whichever cell is taken
    /// as its root.
    pub proof fn lemma_tree_start(self, root: Node)
        requires
            self.wf(),
            self.has_cell(root),
            self.edges =~= Set::<(Node, Node)>::empty(),
        ensures
            self.grown_from(root),
            self.touched(root) =~= set![root],
    {
        assert(self.touched(root) =~= set![root]);
        self.lemma_joins_reflexive(root);
    }
}

/// A filter that every element passes keeps the sequence as it is.
pub proof fn lemma_filter_all(s: Seq<Node>, keep: spec_fn(Node) -> bool)
    requires
        forall|i: int| 0 <= i < s.len() ==> keep(#[trigger] s[i]),
    ensures
        s.filter(keep) == s,
    decreases s.len(),
{
    reveal(Seq::filter);
    if s.len() > 0 {
        lemma_filter_all(s.drop_last(), keep);
        assert(s.drop_last().push(s.last()) =~= s);
    }
}

/// A filter that no element passes keeps nothing.
pub proof fn lemma_filter_none(s: Seq<Node>, keep: spec_fn(Node) -> bool)
    requires
        forall|i: int| 0 <= i < s.len() ==> !keep(#[trigger] s[i]),
    ensures
        s.filter(keep) == Seq::<Node>::empty(),
    decreases s.len(),
{
    reveal(Seq::filter);
    if s.len() > 0 {
        lemma_filter_none(s.drop_last(), keep);
    }
}

} // verus!
