//! The grid: a topology, its cells, and the links between them.

use crate::cell::CellKind;
use crate::cell::cells_from;
use crate::cell::nodes_of;
use crate::graph::LinkGraph;
use crate::graph::Node;
use crate::graph::graph_add_edge;
use crate::graph::graph_contains_edge;
use crate::graph::graph_neighbors;
use crate::graph::graph_node_count;
use crate::graph::graph_node_list;
use crate::graph::graph_remove_edge;
use crate::kind::Kind;
use crate::kind::cells_are;
use crate::model::Maze;
use crate::model::joined;
use crate::model::lemma_edge_key;
use crate::model::maze_of;
use crate::random::choose_index;
use vstd::prelude::*;

verus! {

/// A grid of one topology: its cells, the links between them, and an optional
/// start and goal for distance queries.
pub struct Grid<K: Kind> {
    pub(crate) kind: K,
    pub(crate) links: LinkGraph,
    pub(crate) start: Option<K::Cell>,
    pub(crate) goal: Option<K::Cell>,
}

impl<K: Kind> View for Grid<K> {
    type V = Maze;

    open(crate) spec fn view(&self) -> Maze {
        maze_of(self.links)
    }
}

impl<K: Kind> Grid<K> {
    /// The grid's topology.
    pub open(crate) spec fn kind(&self) -> K {
        self.kind
    }

    /// The cell from which distances are measured, if one is set.
    pub open(crate) spec fn start(&self) -> Option<K::Cell> {
        self.start
    }

    /// The cell to which a path is wanted, if one is set.
    pub open(crate) spec fn goal(&self) -> Option<K::Cell> {
        self.goal
    }

    /// The cells that are marked: the start and the goal.
    pub open(crate) spec fn marks(&self) -> (Option<K::Cell>, Option<K::Cell>) {
        (self.start, self.goal)
    }

    /// The invariant of every grid: its maze is well formed, and its cells are
    /// cells that its topology allows.
    pub open spec fn wf(&self) -> bool {
        &&& self.kind().valid()
        &&& self@.wf()
        &&& self.kind().cells_ok(self@.cells)
        &&& cells_are::<K::Cell>(self@.cells)
    }

    /// The cells adjacent to a cell whatever the links are.
    pub open spec fn steady(&self, n: Node) -> Seq<Node> {
        self.kind().steady(self@.cells, n)
    }

    /// Whether every cell that is adjacent, whatever the links are, to a
    /// cell of the tree grown from `root` is in that tree too.
    pub open spec fn closed_from(&self, root: Node) -> bool {
        forall|v: Node, i: int|
            self@.touched(root).contains(v) && 0 <= i < self.steady(v).len()
                ==> self@.touched(root).contains(#[trigger] self.steady(v)[i])
    }

    /// Whether a walk from cell to adjacent cell leads from `a` to `b`,
    /// whatever the links are.
    pub open spec fn reaches(&self, a: Node, b: Node) -> bool {
        exists|p: Seq<Node>| #[trigger] self.is_route(p) && p.first() == a && p.last() == b
    }

    /// Whether each cell of `p` but the first is adjacent to the one before
    /// it.
    pub open spec fn is_route(&self, p: Seq<Node>) -> bool {
        &&& p.len() > 0
        &&& forall|i: int| 0 <= i < p.len() - 1 ==> self.steady(#[trigger] p[i]).contains(p[i + 1])
    }

    /// The state of a generator that grows a tree from `root` and keeps a
    /// list of cells that it may still grow from: the links form a tree, the
    /// listed cells are in it, and every cell that is adjacent, whatever the
    /// links are, to a cell of the tree that is not listed is in the tree
    /// too.
    pub open spec fn frontier(&self, root: Node, active: Seq<Node>) -> bool {
        &&& self.wf()
        &&& self@.grown_from(root)
        &&& self@.touched(root).len() <= self@.cells.len()
        &&& forall|i: int| 0 <= i < active.len() ==> self@.touched(root).contains(#[trigger] active[i])
        &&& forall|v: Node, j: int|
            self@.touched(root).contains(v) && !active.contains(v) && 0 <= j < self.steady(v).len()
                ==> self@.touched(root).contains(#[trigger] self.steady(v)[j])
    }

    /// Whether every cell that the grid has beyond those of `given` is in the
    /// tree grown from `root`.
    pub open spec fn brought_in(&self, given: Maze, root: Node) -> bool {
        forall|n: Node| !given.has_cell(n) && #[trigger] self@.has_cell(n) ==> self@.touched(root).contains(n)
    }

    /// How many cells are not in the tree grown from `root`.
    pub open spec fn slack(&self, root: Node) -> int {
        self@.cells.len() - self@.touched(root).len()
    }

    /// The link graph, for the topologies' own operations.
    pub(crate) fn graph(&self) -> (g: &LinkGraph)
        ensures
            maze_of(*g) == self@,
    {
        &self.links
    }

    /// The topology.
    pub(crate) fn topology(&self) -> (k: &K)
        ensures
            *k == self.kind(),
    {
        &self.kind
    }

    /// A grid of a topology, with the cells that the topology begins with
    /// and without links.
    pub fn new(kind: K, start: Option<K::Cell>, goal: Option<K::Cell>) -> (g: Self)
        requires
            kind.valid(),
        ensures
            g.wf(),
            g.kind() == kind,
            g@.cells == kind.first_cells(),
            g@.edges == Set::<(Node, Node)>::empty(),
            g.start() == start,
            g.goal() == goal,
    {
        let links = kind.prepare_grid();
        Self { kind, links, start, goal }
    }

    /// The cells adjacent to a cell, linked or not, in the order of the
    /// topology.
    pub fn neighbours(&self, cell: K::Cell) -> (list: Vec<K::Cell>)
        requires
            self.wf(),
        ensures
            forall|i: int|
                0 <= i < list.len() ==> self@.has_cell(#[trigger] list[i].node())
                    && list[i].node() != cell.node(),
            nodes_of(list@) == self.kind().adjacent(self@, cell.node()),
    {
        self.kind.neighbours(&self.links, cell)
    }

    /// Links two cells of the grid as the topology understands it: with the
    /// link itself, or, in a weave grid, with a tunnel where a cell lies
    /// between the two.
    pub fn link(&mut self, cell: K::Cell, other: K::Cell)
        requires
            old(self).wf(),
            old(self)@.has_cell(cell.node()),
            old(self)@.has_cell(other.node()),
        ensures
            final(self).wf(),
            final(self).kind() == old(self).kind(),
            final(self).marks() == old(self).marks(),
            final(self)@ == old(self).kind().linking(old(self)@, cell.node(), other.node()),
            joined(old(self)@, cell.node(), other.node(), final(self)@),
            old(self).kind().flat() ==> final(self)@ == old(self)@.connect(
                cell.node(),
                other.node(),
            ),
    {
        self.kind.link(&mut self.links, cell, other);
    }

    /// Adds the link between two cells of the grid, whatever the topology.
    pub fn connect(&mut self, cell: K::Cell, other: K::Cell)
        requires
            old(self).wf(),
            old(self)@.has_cell(cell.node()),
            old(self)@.has_cell(other.node()),
        ensures
            final(self).wf(),
            final(self).kind() == old(self).kind(),
            final(self).marks() == old(self).marks(),
            final(self)@ == old(self)@.connect(cell.node(), other.node()),
    {
        proof {
            lemma_edge_key(cell.node(), other.node());
        }
        graph_add_edge(&mut self.links, cell.to_node(), other.to_node());
        assert(maze_of(self.links).cells =~= maze_of(old(self).links).cells);
    }

    /// Removes the link between two cells, if there is one.
    pub fn unlink(&mut self, cell: K::Cell, other: K::Cell)
        requires
            old(self).wf(),
        ensures
            final(self).wf(),
            final(self).kind() == old(self).kind(),
            final(self).marks() == old(self).marks(),
            final(self)@ == old(self)@.disconnect(cell.node(), other.node()),
    {
        graph_remove_edge(&mut self.links, cell.to_node(), other.to_node());
    }

    /// The cells linked to `cell`, each once.
    pub fn links(&self, cell: K::Cell) -> (list: Vec<K::Cell>)
        requires
            self.wf(),
        ensures
            nodes_of(list@).no_duplicates(),
            forall|b: Node| #[trigger]
                nodes_of(list@).contains(b) <==> self@.linked(cell.node(), b),
    {
        let nodes = graph_neighbors(&self.links, cell.to_node());
        assert forall|n: Node| #[trigger] nodes@.contains(n) implies K::Cell::is_node(n) by {
            self@.lemma_linked_cells(cell.node(), n);
        }
        cells_from(&nodes)
    }

    /// Whether a link joins the two cells.
    pub fn are_linked(&self, cell: K::Cell, other: K::Cell) -> (linked: bool)
        requires
            self.wf(),
        ensures
            linked == self@.linked(cell.node(), other.node()),
    {
        graph_contains_edge(&self.links, cell.to_node(), other.to_node())
    }

    /// All cells, in the topology's enumeration order.
    pub fn cells(&self) -> (list: Vec<K::Cell>)
        requires
            self.wf(),
        ensures
            nodes_of(list@) == self@.cells,
    {
        let nodes = graph_node_list(&self.links);
        cells_from(&nodes)
    }

    /// The number of cells.
    pub fn size(&self) -> (n: usize)
        requires
            self.wf(),
        ensures
            n == self@.cells.len(),
    {
        graph_node_count(&self.links)
    }

    /// A cell of the grid, picked at random. The grid must have a cell.
    pub fn get_random_cell(&self) -> (cell: K::Cell)
        requires
            self.wf(),
            self@.cells.len() > 0,
        ensures
            self@.has_cell(cell.node()),
    {
        let nodes = graph_node_list(&self.links);
        let picked = choose_index(nodes.len());
        let i = picked.unwrap();
        assert(nodes@.contains(nodes[i as int]));
        K::Cell::from_node(nodes[i])
    }

    /// The number of rows of the topology.
    pub fn num_rows(&self) -> (n: usize)
        ensures
            n == self.kind().row_count(),
    {
        self.kind.num_rows()
    }

    /// The cell from which distances are measured, if one is set.
    pub fn start_cell(&self) -> (cell: Option<K::Cell>)
        ensures
            cell == self.start(),
    {
        self.start
    }

    /// The cell to which a path is wanted, if one is set.
    pub fn goal_cell(&self) -> (cell: Option<K::Cell>)
        ensures
            cell == self.goal(),
    {
        self.goal
    }

    /// Sets the cell from which distances are measured.
    pub fn set_start(&mut self, start: K::Cell)
        ensures
            final(self)@ == old(self)@,
            final(self).kind() == old(self).kind(),
            final(self).wf() == old(self).wf(),
            final(self).start() == Some(start),
            final(self).goal() == old(self).goal(),
    {
        self.start = Some(start);
    }

    /// Sets the cell to which a path is wanted.
    pub fn set_goal(&mut self, start: K::Cell)
        ensures
            final(self)@ == old(self)@,
            final(self).kind() == old(self).kind(),
            final(self).wf() == old(self).wf(),
            final(self).start() == old(self).start(),
            final(self).goal() == Some(start),
    {
        self.goal = Some(start);
    }

    /// Whether a cell has a link.
    pub fn has_links(&self, cell: K::Cell) -> (linked: bool)
        requires
            self.wf(),
        ensures
            linked == !self@.unlinked(cell.node()),
    {
        let nodes = graph_neighbors(&self.links, cell.to_node());
        proof {
            let a = cell.node();
            if nodes.len() > 0 {
                assert(nodes@.contains(nodes@[0]));
                assert(self@.linked(a, nodes@[0]));
            } else {
                assert forall|b: Node| !self@.linked(a, b) by {
                    if self@.linked(a, b) {
                        assert(nodes@.contains(b));
                    }
                }
            }
        }
        nodes.len() > 0
    }

    /// Whether a cell has exactly one link.
    pub fn is_dead_end(&self, cell: K::Cell) -> (dead: bool)
        requires
            self.wf(),
        ensures
            dead == self@.is_dead_end(cell.node()),
    {
        let nodes = graph_neighbors(&self.links, cell.to_node());
        proof {
            let a = cell.node();
            if nodes.len() == 1 {
                assert(nodes@.contains(nodes@[0]));
                assert forall|b: Node| self@.links_of(a).contains(b) implies b == nodes@[0] by {
                    assert(nodes@.contains(b));
                }
                assert(self@.links_of(a) =~= set![nodes@[0]]);
            } else if self@.is_dead_end(a) {
                let b = choose|b: Node| self@.links_of(a) =~= set![b];
                assert(self@.links_of(a).contains(b));
                assert(nodes@.contains(b));
                assert(nodes@.contains(nodes@[0]));
                assert(nodes@.contains(nodes@[1]));
                assert(self@.links_of(a).contains(nodes@[0]));
                assert(self@.links_of(a).contains(nodes@[1]));
            }
        }
        nodes.len() == 1
    }

    /// The cells of a list that have a link, or those that have none, in the
    /// order of the list.
    fn sift(&self, all: &Vec<K::Cell>, linked: bool) -> (list: Vec<K::Cell>)
        requires
            self.wf(),
        ensures
            nodes_of(list@) == nodes_of(all@).filter(
                if linked {
                    self@.linked_cells()
                } else {
                    self@.unlinked_cells()
                },
            ),
            forall|i: int|
                0 <= i < list.len() ==> nodes_of(all@).contains(#[trigger] list[i].node())
                    && self@.unlinked(list[i].node()) != linked,
    {
        let mut list: Vec<K::Cell> = Vec::new();
        let mut i: usize = 0;
        let ghost keep = if linked {
            self@.linked_cells()
        } else {
            self@.unlinked_cells()
        };
        assert(nodes_of(all@).take(0).filter(keep) =~= nodes_of(list@));
        while i < all.len()
            invariant
                i <= all.len(),
                self.wf(),
                keep == if linked {
                    self@.linked_cells()
                } else {
                    self@.unlinked_cells()
                },
                nodes_of(list@) == nodes_of(all@).take(i as int).filter(keep),
                forall|j: int|
                    0 <= j < list.len() ==> nodes_of(all@).contains(#[trigger] list[j].node())
                        && self@.unlinked(list[j].node()) != linked,
            decreases all.len() - i,
        {
            let candidate = all[i];
            let ghost before = list@;
            proof {
                let front = nodes_of(all@).take(i as int);
                assert(nodes_of(all@).take(i + 1) =~= front.push(candidate.node()));
                front.lemma_filter_push(candidate.node(), keep);
                assert(nodes_of(all@)[i as int] == candidate.node());
            }
            if self.has_links(candidate) == linked {
                list.push(candidate);
                assert(nodes_of(list@) =~= nodes_of(before).push(candidate.node()));
            }
            i += 1;
        }
        assert(nodes_of(all@).take(all.len() as int) =~= nodes_of(all@));
        list
    }

    /// The neighbours of a cell that have no link, in the order of
    /// [`Grid::neighbours`].
    pub fn unvisited_neighbours(&self, cell: K::Cell) -> (list: Vec<K::Cell>)
        requires
            self.wf(),
        ensures
            nodes_of(list@) == self.kind().adjacent(self@, cell.node()).filter(
                self@.unlinked_cells(),
            ),
            forall|i: int|
                0 <= i < list.len() ==> self@.has_cell(#[trigger] list[i].node())
                    && list[i].node() != cell.node() && self@.unlinked(list[i].node())
                    && self.kind().adjacent(self@, cell.node()).contains(list[i].node()),
    {
        let all = self.neighbours(cell);
        let list = self.sift(&all, false);
        proof {
            assert forall|i: int| 0 <= i < list.len() implies self@.has_cell(
                #[trigger] list[i].node(),
            ) && list[i].node() != cell.node() by {
                let j = choose|j: int|
                    0 <= j < all.len() && nodes_of(all@)[j] == list[i].node();
                assert(all[j].node() == list[i].node());
            }
        }
        list
    }

    /// The neighbours of a cell that have a link, in the order of
    /// [`Grid::neighbours`].
    pub fn visited_neighbours(&self, cell: K::Cell) -> (list: Vec<K::Cell>)
        requires
            self.wf(),
        ensures
            nodes_of(list@) == self.kind().adjacent(self@, cell.node()).filter(
                self@.linked_cells(),
            ),
            forall|i: int|
                0 <= i < list.len() ==> self@.has_cell(#[trigger] list[i].node())
                    && list[i].node() != cell.node() && !self@.unlinked(list[i].node())
                    && self.kind().adjacent(self@, cell.node()).contains(list[i].node()),
    {
        let all = self.neighbours(cell);
        let list = self.sift(&all, true);
        proof {
            assert forall|i: int| 0 <= i < list.len() implies self@.has_cell(
                #[trigger] list[i].node(),
            ) && list[i].node() != cell.node() by {
                let j = choose|j: int|
                    0 <= j < all.len() && nodes_of(all@)[j] == list[i].node();
                assert(all[j].node() == list[i].node());
            }
        }
        list
    }

    /// A tree that is closed under adjacency holds every cell that the
    /// topology lets one reach from its root: where that is every cell, the
    /// maze is perfect.
    pub proof fn lemma_closed_tree_is_perfect(&self, root: Node)
        requires
            self.wf(),
            self@.grown_from(root),
            self.closed_from(root),
            forall|n: Node|
                self@.has_cell(n) ==> #[trigger] self.reaches(root, n) || self@.touched(root).contains(
                    n,
                ),
        ensures
            self@.is_perfect(),
    {
        let reached = self@.touched(root);
        assert forall|n: Node| self@.has_cell(n) implies reached.contains(n) by {
            if self.reaches(root, n) {
                let p = choose|p: Seq<Node>| #[trigger]
                    self.is_route(p) && p.first() == root && p.last() == n;
                self.lemma_route_in_tree(root, p, p.len() - 1);
            }
        }
        self@.lemma_tree_spans(root);
    }

    /// Whether every cell adjacent to a cell of the grid is a cell of the
    /// grid, and adjacent cells are adjacent to each other.
    pub open spec fn evenly_adjacent(&self) -> bool {
        forall|a: Node, i: int|
            self@.has_cell(a) && 0 <= i < self.kind().adjacent(self@, a).len() ==> {
                let b = #[trigger] self.kind().adjacent(self@, a)[i];
                self@.has_cell(b) && self.kind().adjacent(self@, b).contains(a)
            }
    }

    /// Whether a walk from cell to adjacent cell leads from every cell to
    /// every other.
    pub open spec fn all_reachable(&self) -> bool {
        forall|a: Node, b: Node| self@.has_cell(a) && self@.has_cell(b) ==> #[trigger] self.reaches(a, b)
    }

    /// Where a walk along links leads from every cell to the cells adjacent
    /// to it, one leads to every cell that a walk from cell to adjacent
    /// cell leads to.
    pub proof fn lemma_route_joined(&self, p: Seq<Node>, i: int)
        requires
            self.is_route(p),
            0 <= i < p.len(),
            self@.has_cell(p[0]),
            forall|a: Node, k: int|
                self@.has_cell(a) && 0 <= k < self.kind().adjacent(self@, a).len() ==> self@.has_cell(
                    #[trigger] self.kind().adjacent(self@, a)[k],
                ) && self@.joins(a, self.kind().adjacent(self@, a)[k]),
        ensures
            self@.has_cell(p[i]),
            self@.joins(p[0], p[i]),
        decreases i,
    {
        if i == 0 {
            self@.lemma_joins_reflexive(p[0]);
        } else {
            self.lemma_route_joined(p, i - 1);
            let adj = self.kind().adjacent(self@, p[i - 1]);
            let near = self.steady(p[i - 1]);
            assert(near.contains(p[i - 1 + 1]));
            let j = choose|j: int| 0 <= j < near.len() && near[j] == p[i];
            self.kind().lemma_steady(self@, p[i - 1]);
            assert(adj.contains(near[j]));
            let k = choose|k: int| 0 <= k < adj.len() && adj[k] == p[i];
            assert(self@.joins(p[i - 1], adj[k]));
            self@.lemma_joins_transitive(p[0], p[i - 1], p[i]);
        }
    }

    /// A route can be taken one adjacent cell further.
    pub proof fn lemma_reaches_step(&self, a: Node, b: Node, c: Node)
        requires
            self.reaches(a, b),
            self.steady(b).contains(c),
        ensures
            self.reaches(a, c),
    {
        let p = choose|p: Seq<Node>| #[trigger] self.is_route(p) && p.first() == a && p.last() == b;
        let q = p.push(c);
        assert forall|i: int| 0 <= i < q.len() - 1 implies self.steady(#[trigger] q[i]).contains(
            q[i + 1],
        ) by {
            if i < p.len() - 1 {
                assert(self.steady(p[i]).contains(p[i + 1]));
            }
        }
        assert(self.is_route(q));
        assert(q.first() == a && q.last() == c);
    }

    /// Routes can be put end to end.
    pub proof fn lemma_reaches_transitive(&self, a: Node, b: Node, c: Node)
        requires
            self.reaches(a, b),
            self.reaches(b, c),
        ensures
            self.reaches(a, c),
    {
        let p = choose|p: Seq<Node>| #[trigger] self.is_route(p) && p.first() == a && p.last() == b;
        let q = choose|q: Seq<Node>| #[trigger] self.is_route(q) && q.first() == b && q.last() == c;
        let r = p + q.subrange(1, q.len() as int);
        assert forall|i: int| 0 <= i < r.len() - 1 implies self.steady(#[trigger] r[i]).contains(
            r[i + 1],
        ) by {
            if i < p.len() - 1 {
                assert(self.steady(p[i]).contains(p[i + 1]));
            } else {
                let j = i - p.len() + 1;
                assert(self.steady(q[j]).contains(q[j + 1]));
            }
        }
        assert(self.is_route(r));
        assert(r.first() == a && r.last() == c);
    }

    /// Every cell reaches itself.
    pub proof fn lemma_reaches_self(&self, a: Node)
        ensures
            self.reaches(a, a),
    {
        let p = seq![a];
        assert(self.is_route(p));
        assert(p.first() == a && p.last() == a);
    }

    /// Along a route from the root of a closed tree every cell is in the tree.
    pub proof fn lemma_route_in_tree(&self, root: Node, p: Seq<Node>, i: int)
        requires
            self.closed_from(root),
            self.is_route(p),
            p.first() == root,
            0 <= i < p.len(),
        ensures
            self@.touched(root).contains(p[i]),
        decreases i,
    {
        if i > 0 {
            self.lemma_route_in_tree(root, p, i - 1);
            let adj = self.steady(p[i - 1]);
            assert(adj.contains(p[i - 1 + 1]));
            let j = choose|j: int| 0 <= j < adj.len() && adj[j] == p[i];
            assert(self@.touched(root).contains(adj[j]));
        }
    }

    /// A grid without links is the start of a tree at any of its cells.
    pub proof fn lemma_frontier_start(&self, root: Node, active: Seq<Node>)
        requires
            self.wf(),
            self@.has_cell(root),
            self@.edges =~= Set::<(Node, Node)>::empty(),
            active =~= seq![root],
        ensures
            self.frontier(root, active),
            self@.extends(self@),
    {
        self@.lemma_tree_start(root);
        self@.lemma_tree_size(root, self@.touched(root));
        assert(active[0] == root);
    }

    /// Whether every link is a link of `given` or joins two cells that lie
    /// near each other (see [`Kind::near`]): in a flat topology, a cell and
    /// a cell adjacent to it.
    pub open spec fn near_links(&self, given: Maze) -> bool {
        forall|a: Node, b: Node| #[trigger]
            self@.linked(a, b) ==> given.linked(a, b) || self.kind().near(self@.cells, a, b)
    }

    /// Whether the cells adjacent to a cell whatever the links are are
    /// those that they were in `given`, and a cell that `given` did not have
    /// has none.
    pub open spec fn steady_kept(&self, given: Maze) -> bool {
        forall|n: Node|
            #[trigger] self.steady(n) == self.kind().steady(given.cells, n) && (!given.has_cell(n)
                && self@.has_cell(n) ==> self.steady(n).len() == 0)
    }

    /// What holds of a grid that was grown from `given` by links between
    /// adjacent cells: every link that `given` did not have joins two cells
    /// that lie near each other (see [`Grid::near_links`]), and adjacency
    /// whatever the links are is as it was (see [`Grid::steady_kept`]).
    pub open spec fn grown_near(&self, given: Maze) -> bool {
        self.near_links(given) && self.steady_kept(given)
    }

    /// A grid with the same topology, cells and links has what
    /// [`Grid::grown_near`] says in common.
    pub proof fn lemma_grown_same(&self, post: &Self, given: Maze)
        requires
            post.kind() == self.kind(),
            post@ == self@,
            self.grown_near(given),
        ensures
            post.grown_near(given),
    {
        assert forall|n: Node|
            #[trigger] post.steady(n) == post.kind().steady(given.cells, n) && (!given.has_cell(n)
                && post@.has_cell(n) ==> post.steady(n).len() == 0) by {
            assert(self.steady(n) == self.kind().steady(given.cells, n));
        }
    }

    /// Linking a cell to a cell adjacent or near to it keeps what
    /// [`Grid::grown_near`] says.
    pub proof fn lemma_grown_near(&self, post: &Self, given: Maze, a: Node, b: Node)
        requires
            self.wf(),
            self.kind().adjacent(self@, a).contains(b) || self.kind().near(self@.cells, a, b),
            post.kind() == self.kind(),
            post.marks() == self.marks(),
            post@ == self.kind().linking(self@, a, b),
            self.grown_near(given),
        ensures
            post.grown_near(given),
    {
        self.kind().lemma_near(self@, a, b);
        assert forall|n: Node|
            #[trigger] post.steady(n) == post.kind().steady(given.cells, n) && (!given.has_cell(n)
                && post@.has_cell(n) ==> post.steady(n).len() == 0) by {
            self.kind().lemma_steady_linked(self@, a, b, n);
            assert(self.steady(n) == self.kind().steady(given.cells, n));
        }
    }

    /// One step of a generator that grows a tree: links the listed cell at
    /// `idx` to `neighbour` and lists the neighbour too, or, without a
    /// neighbour, takes the cell at `idx` off the list, moving the last
    /// listed cell into its place.
    pub(crate) fn advance(
        &mut self,
        active: &mut Vec<K::Cell>,
        idx: usize,
        neighbour: Option<K::Cell>,
        Ghost(root): Ghost<Node>,
        Ghost(given): Ghost<Maze>,
    )
        requires
            old(self).frontier(root, nodes_of(old(active)@)),
            old(self).grown_near(given),
            idx < old(active).len(),
            match neighbour {
                Some(n) => old(self)@.has_cell(n.node()) && n.node() != old(active)[idx as int].node()
                    && old(self)@.unlinked(n.node()) && old(self).kind().adjacent(
                    old(self)@,
                    old(active)[idx as int].node(),
                ).contains(n.node()),
                None => old(self).kind().adjacent(old(self)@, old(active)[idx as int].node()).filter(
                    old(self)@.unlinked_cells(),
                ).len() == 0,
            },
        ensures
            final(self).frontier(root, nodes_of(final(active)@)),
            final(self).grown_near(given),
            final(self).kind() == old(self).kind(),
            final(self).marks() == old(self).marks(),
            final(self)@.extends(old(self)@),
            match neighbour {
                Some(n) => final(self)@ == old(self).kind().linking(
                    old(self)@,
                    old(active)[idx as int].node(),
                    n.node(),
                ) && final(active)@ == old(active)@.push(n),
                None => final(self)@ == old(self)@ && final(active)@ == old(active)@.update(
                    idx as int,
                    old(active)@.last(),
                ).drop_last(),
            },
            final(self).slack(root) < old(self).slack(root) || (final(self)@ == old(self)@
                && final(active).len() < old(active).len()),
            old(self)@.touched(root).subset_of(final(self)@.touched(root)),
            forall|n: Node|
                !old(self)@.has_cell(n) && #[trigger] final(self)@.has_cell(n)
                    ==> final(self)@.touched(root).contains(n),
    {
        let cell = active[idx];
        let ghost held = nodes_of(active@);
        let ghost before = *self;
        assert(held[idx as int] == cell.node());
        match neighbour {
            Some(n) => {
                self.link(cell, n);
                active.push(n);
                proof {
                    assert(nodes_of(active@) =~= held.push(n.node()));
                    before.lemma_frontier_grows(self, root, held, idx as int, n.node());
                    before.lemma_grown_near(self, given, cell.node(), n.node());
                }
            },
            None => {
                active.swap_remove(idx);
                proof {
                    assert(nodes_of(active@) =~= held.update(idx as int, held.last()).drop_last());
                    self.lemma_frontier_retires(root, held, idx as int);
                }
            },
        }
    }

    /// Linking a listed cell to a cell without links, and listing that cell,
    /// keeps the state of a generator that grows a tree.
    pub proof fn lemma_frontier_grows(&self, post: &Self, root: Node, held: Seq<Node>, idx: int, n: Node)
        requires
            self.frontier(root, held),
            0 <= idx < held.len(),
            self@.has_cell(n),
            n != held[idx],
            self@.unlinked(n),
            post.wf(),
            post.kind() == self.kind(),
            post.marks() == self.marks(),
            post@ == self.kind().linking(self@, held[idx], n),
            joined(self@, held[idx], n, post@),
        ensures
            post.frontier(root, held.push(n)),
            post.slack(root) < self.slack(root),
            post@.extends(self@),
            self@.touched(root).subset_of(post@.touched(root)),
            forall|x: Node|
                !self@.has_cell(x) && #[trigger] post@.has_cell(x) ==> post@.touched(root).contains(x),
    {
        let cell = held[idx];
        let now = held.push(n);
        assert(self@.touched(root).contains(cell));
        self@.lemma_grow(root, cell, n, post@);
        self@.lemma_grow_only(root, n, cell, post@);
        assert forall|i: int| 0 <= i < now.len() implies post@.touched(root).contains(
            #[trigger] now[i],
        ) by {
            if i < held.len() {
                assert(self@.touched(root).contains(held[i]));
            }
        }
        assert forall|v: Node, j: int|
            post@.touched(root).contains(v) && !now.contains(v) && 0 <= j
                < post.steady(v).len() implies post@.touched(root).contains(
            #[trigger] post.steady(v)[j],
        ) by {
            self.kind().lemma_steady_linked(self@, cell, n, v);
            assert(now[held.len() as int] == n);
            if held.contains(v) {
                let k = choose|k: int| 0 <= k < held.len() && held[k] == v;
                assert(now[k] == v);
            }
            if self@.has_cell(v) {
                assert(self@.touched(root).contains(v));
                assert(self@.touched(root).contains(self.steady(v)[j]));
            }
        }
        assert forall|x: Node| !self@.has_cell(x) && #[trigger] post@.has_cell(x) implies post@.touched(
            root,
        ).contains(x) by {}
    }

    /// Taking a listed cell without unlinked neighbours off the list keeps
    /// the state of a generator that grows a tree.
    pub proof fn lemma_frontier_retires(&self, root: Node, held: Seq<Node>, idx: int)
        requires
            self.frontier(root, held),
            0 <= idx < held.len(),
            self.kind().adjacent(self@, held[idx]).filter(self@.unlinked_cells()).len() == 0,
        ensures
            self.frontier(root, held.update(idx, held.last()).drop_last()),
    {
        let cell = held[idx];
        let now = held.update(idx, held.last()).drop_last();
        assert forall|i: int| 0 <= i < now.len() implies self@.touched(root).contains(
            #[trigger] now[i],
        ) by {
            if i == idx {
                assert(now[i] == held[held.len() - 1]);
            } else {
                assert(now[i] == held[i]);
            }
        }
        let adj = self.kind().adjacent(self@, cell);
        assert forall|v: Node, j: int|
            self@.touched(root).contains(v) && !now.contains(v) && 0 <= j
                < self.steady(v).len() implies self@.touched(root).contains(
            #[trigger] self.steady(v)[j],
        ) by {
            if held.contains(v) {
                let k = choose|k: int| 0 <= k < held.len() && held[k] == v;
                if k != idx {
                    if k == held.len() - 1 {
                        assert(now[idx] == v);
                    } else {
                        assert(now[k] == v);
                    }
                }
                assert(v == cell);
                let x = self.steady(v)[j];
                self.kind().lemma_steady(self@, v);
                assert(adj.contains(x));
                let i = choose|i: int| 0 <= i < adj.len() && adj[i] == x;
                if self@.unlinked(x) {
                    assert(adj.filter(self@.unlinked_cells()).contains(x)) by {
                        lemma_filter_keeps(adj, self@.unlinked_cells(), i);
                    }
                }
            }
        }
    }
}

/// An element that passes a filter is in what the filter keeps.
pub proof fn lemma_filter_keeps(s: Seq<Node>, keep: spec_fn(Node) -> bool, i: int)
    requires
        0 <= i < s.len(),
        keep(s[i]),
    ensures
        s.filter(keep).contains(s[i]),
{
    s.lemma_filter_contains(keep, i);
}

} // verus!
