//! Hunt and kill: a random walk that, when stuck, hunts for a new start.

use crate::cell::CellKind;
use crate::cell::nodes_of;
use crate::graph::Node;
use crate::grid::Grid;
use crate::kind::Kind;
use crate::model::Maze;
use crate::model::joined;
use crate::model::lemma_edge_key;
use crate::model::lemma_joined_symmetric;
use crate::random::choose_index;
use vstd::prelude::*;

verus! {

impl<K: Kind> Grid<K> {
    /// Whether the hunt would find nothing: no cell without links has a
    /// neighbour with links.
    pub open spec fn hunted_out(&self) -> bool {
        forall|c: Node|
            self@.has_cell(c) && self@.unlinked(c) ==> (#[trigger] self.kind().adjacent(
                self@,
                c,
            )).filter(self@.linked_cells()).len() == 0
    }

    /// What a successful hunt does: `c` had no links, its neighbour `b` had
    /// one, and the two were linked.
    pub open spec fn caught(&self, c: Node, b: Node, post: Maze) -> bool {
        &&& self@.has_cell(c)
        &&& self@.unlinked(c)
        &&& self@.has_cell(b)
        &&& !self@.unlinked(b)
        &&& self.kind().adjacent(self@, c).contains(b)
        &&& joined(self@, c, b, post)
        &&& post == self.kind().linking(self@, c, b)
    }

    /// Whether the first cell of a walk is done with: it has a link, or no
    /// cell is adjacent to it whatever the links are.
    pub open spec fn settled(&self, root: Node) -> bool {
        self@.unlinked(root) ==> self.steady(root).len() == 0
    }

    /// Whether every cell that is adjacent to a cell of the grid, whatever
    /// the links are, is a cell of the grid, and such cells are adjacent to
    /// each other.
    pub open spec fn evenly_steady(&self) -> bool {
        forall|a: Node, i: int|
            self@.has_cell(a) && 0 <= i < self.steady(a).len() ==> {
                let b = #[trigger] self.steady(a)[i];
                self@.has_cell(b) && self.steady(b).contains(a)
            }
    }

    /// In a flat topology in which adjacent cells are adjacent to each
    /// other, they are so whatever the links are.
    pub proof fn lemma_evenly_steady(&self)
        requires
            self.kind().flat(),
            self.evenly_adjacent(),
        ensures
            self.evenly_steady(),
    {
        assert forall|a: Node, i: int|
            self@.has_cell(a) && 0 <= i < self.steady(a).len() implies {
            let b = #[trigger] self.steady(a)[i];
            self@.has_cell(b) && self.steady(b).contains(a)
        } by {
            self.kind().lemma_steady(self@, a);
            let b = self.kind().adjacent(self@, a)[i];
            self.kind().lemma_steady(self@, b);
        }
    }

    /// The hunt: looks through the cells in enumeration order for the first
    /// one without links that has a neighbour with links, links it to one of
    /// those neighbours, picked at random, and returns it. Returns nothing,
    /// and changes nothing, when there is no such cell.
    pub fn hunt(&mut self) -> (found: Option<K::Cell>)
        requires
            old(self).wf(),
        ensures
            final(self).wf(),
            final(self).kind() == old(self).kind(),
            final(self).marks() == old(self).marks(),
            found is Some ==> exists|b: Node| #[trigger]
                old(self).caught(found->Some_0.node(), b, final(self)@),
            found is None ==> final(self)@ == old(self)@ && old(self).hunted_out(),
    {
        let cells = self.cells();
        let mut i: usize = 0;
        while i < cells.len()
            invariant
                i <= cells.len(),
                self.wf(),
                *self == *old(self),
                nodes_of(cells@) == self@.cells,
                forall|j: int|
                    0 <= j < i && self@.unlinked(self@.cells[j]) ==> (
                    #[trigger] self.kind().adjacent(self@, self@.cells[j])).filter(
                        self@.linked_cells(),
                    ).len() == 0,
            decreases cells.len() - i,
        {
            let c = cells[i];
            assert(nodes_of(cells@)[i as int] == c.node());
            if !self.has_links(c) {
                let visited = self.visited_neighbours(c);
                match choose_index(visited.len()) {
                    Some(k) => {
                        let neighbour = visited[k];
                        proof {
                            let adj = self.kind().adjacent(self@, c.node());
                            assert(nodes_of(visited@)[k as int] == neighbour.node());
                            adj.lemma_filter_contains_rev(self@.linked_cells(), neighbour.node());
                        }
                        self.link(c, neighbour);
                        assert(old(self).caught(c.node(), neighbour.node(), self@));
                        let found = Some(c);
                        assert(old(self).caught(found->Some_0.node(), neighbour.node(), self@));
                        return found;
                    },
                    None => {},
                }
            }
            i += 1;
        }
        proof {
            assert forall|c: Node| self@.has_cell(c) && self@.unlinked(c) implies (
            #[trigger] self.kind().adjacent(self@, c)).filter(self@.linked_cells()).len() == 0 by {
                let j = choose|j: int| 0 <= j < self@.cells.len() && self@.cells[j] == c;
            }
        }
        None
    }

    /// The first cell of a tree, if it has no unlinked neighbours, has a
    /// link or no neighbours.
    proof fn lemma_settled_at_start(&self, root: Node)
        requires
            self@.grown_from(root),
            self.kind().adjacent(self@, root).filter(self@.unlinked_cells()).len() == 0,
        ensures
            self.settled(root),
    {
        let adj = self.kind().adjacent(self@, root);
        self.kind().lemma_steady(self@, root);
        if self@.unlinked(root) && self.steady(root).len() > 0 {
            let b = self.steady(root)[0];
            assert(adj.contains(b));
            let k = choose|k: int| 0 <= k < adj.len() && adj[k] == b;
            if self@.unlinked(b) {
                adj.lemma_filter_contains(self@.unlinked_cells(), k);
                let f = adj.filter(self@.unlinked_cells());
                let j = choose|j: int| 0 <= j < f.len() && f[j] == b;
            } else {
                assert(self@.touched(root).contains(b));
                assert(self@.joins(root, b));
                self@.lemma_joined_is_linked(root, b);
            }
        }
    }

    /// Linking `a` to `b` keeps the first cell settled, and settles it
    /// where `a` is the first cell.
    proof fn lemma_settled_after(&self, root: Node, a: Node, b: Node, post: Self, started: bool)
        requires
            self@.wf(),
            post.kind() == self.kind(),
            post.marks() == self.marks(),
            post@ == self.kind().linking(self@, a, b),
            joined(self@, a, b, post@),
            started ==> self.settled(root),
            !started ==> a == root,
        ensures
            post.settled(root),
    {
        self.kind().lemma_steady_linked(self@, a, b, root);
        lemma_edge_key(a, b);
        if post@.unlinked(root) {
            if !started {
                if post@ == self@.connect(a, b) {
                    assert(post@.linked(a, b));
                } else {
                    let u = choose|u: Node| #[trigger] crate::model::tunnelled(self@, a, u, b, post@);
                    lemma_edge_key(a, u);
                    assert(post@.linked(a, u));
                }
            } else {
                crate::model::lemma_joined_extends(self@, a, b, post@);
                assert forall|x: Node| !self@.linked(root, x) by {
                    assert(!post@.linked(root, x));
                }
            }
        }
    }

    /// Where adjacent cells are adjacent to each other, a tree after whose
    /// growth the hunt finds nothing is closed under adjacency.
    pub proof fn lemma_hunted_closed(&self, root: Node)
        requires
            self.wf(),
            self@.grown_from(root),
            self.hunted_out(),
            self.settled(root),
            self.evenly_steady(),
        ensures
            self.closed_from(root),
    {
        assert forall|v: Node, i: int|
            self@.touched(root).contains(v) && 0 <= i < self.steady(v).len() implies self@.touched(
            root,
        ).contains(#[trigger] self.steady(v)[i]) by {
            let x = self.steady(v)[i];
            assert(self@.has_cell(v));
            assert(self@.has_cell(x) && self.steady(x).contains(v));
            if !self@.touched(root).contains(x) {
                let around = self.kind().adjacent(self@, x);
                assert(around.filter(self@.linked_cells()).len() == 0);
                self.kind().lemma_steady(self@, x);
                let at = choose|at: int| 0 <= at < self.steady(x).len() && self.steady(x)[at] == v;
                assert(around.contains(self.steady(x)[at]));
                let k = choose|k: int| 0 <= k < around.len() && around[k] == v;
                if !self@.unlinked(v) {
                    around.lemma_filter_contains(self@.linked_cells(), k);
                    let f = around.filter(self@.linked_cells());
                    let j = choose|j: int| 0 <= j < f.len() && f[j] == v;
                }
            }
        }
    }

    /// Walks from a random cell to random neighbours without links, linking
    /// each to the cell before it. When the cell at the end of the walk has
    /// no such neighbour, hunts (see [`Grid::hunt`]) and walks on from the
    /// cell that the hunt returns. Ends when the hunt finds nothing.
    ///
    /// The links of the result form a tree that holds the first cell, every
    /// cell with a link and every cell that a link has brought into the
    /// grid, and each joins two cells that lie near each other. No cell
    /// without links has a neighbour with links, and the first cell has a
    /// link unless no cell is adjacent to it. Where adjacent cells of the
    /// grid are adjacent to each other, and a walk from cell to adjacent
    /// cell leads from every cell to every other, the result is a perfect
    /// maze.
    pub fn hunt_and_kill(self) -> (maze: Self)
        requires
            self.wf(),
            self@.cells.len() > 0,
            self@.edges =~= Set::<(Node, Node)>::empty(),
        ensures
            maze.wf(),
            maze.kind() == self.kind(),
            maze.marks() == self.marks(),
            maze@.extends(self@),
            maze.grown_near(self@),
            self.evenly_steady() && self.all_reachable() ==> maze@.is_perfect(),
            exists|root: Node|
                {
                    &&& self@.has_cell(root)
                    &&& #[trigger] maze@.grown_from(root)
                    &&& maze.hunted_out()
                    &&& maze.settled(root)
                    &&& maze.brought_in(self@, root)
                },
    {
        let start = self.get_random_cell();
        proof {
            self@.lemma_tree_start(start.node());
        }
        let maze = self.hunt_on(start, Ghost(self@));
        proof {
            if self.evenly_steady() && self.all_reachable() {
                maze.lemma_spans_hunted(&self, start.node());
            }
        }
        maze
    }

    /// Hunt and kill from a tree that is there: walks on from the first
    /// cell of the tree as [`Grid::hunt_and_kill`] does, until the hunt
    /// finds nothing. So a generator whose own walk was given up finishes
    /// its tree.
    pub(crate) fn hunt_on(self, start: K::Cell, Ghost(given): Ghost<Maze>) -> (maze: Self)
        requires
            self.wf(),
            self@.extends(given),
            self.grown_near(given),
            given.has_cell(start.node()),
            self@.grown_from(start.node()),
            self.brought_in(given, start.node()),
        ensures
            maze.wf(),
            maze.kind() == self.kind(),
            maze.marks() == self.marks(),
            maze@.extends(self@),
            maze.grown_near(given),
            maze@.grown_from(start.node()),
            maze.hunted_out(),
            maze.settled(start.node()),
            maze.brought_in(given, start.node()),
            self@.touched(start.node()).subset_of(maze@.touched(start.node())),
    {
        let mut grid = self;
        let ghost root = start.node();
        let mut current = start;
        let ghost mut started = false;
        proof {
            grid@.lemma_tree_size(root, grid@.touched(root));
        }
        loop
            invariant
                grid.wf(),
                grid.kind() == self.kind(),
                grid.marks() == self.marks(),
                grid@.extends(self@),
                self@.extends(given),
                grid.grown_near(given),
                given.has_cell(root),
                grid@.grown_from(root),
                grid@.touched(root).len() <= grid@.cells.len(),
                grid@.touched(root).contains(current.node()),
                self@.touched(root).subset_of(grid@.touched(root)),
                !started ==> current.node() == root,
                started ==> grid.settled(root),
                grid.brought_in(given, root),
            ensures
                grid.wf(),
                grid.kind() == self.kind(),
                grid.marks() == self.marks(),
                grid@.extends(self@),
                grid.grown_near(given),
                grid@.grown_from(root),
                grid.hunted_out(),
                grid.settled(root),
                grid.brought_in(given, root),
                self@.touched(root).subset_of(grid@.touched(root)),
            decreases grid@.cells.len() - grid@.touched(root).len(),
        {
            let candidates = grid.unvisited_neighbours(current);
            let ghost before = grid;
            match choose_index(candidates.len()) {
                Some(i) => {
                    let neighbour = candidates[i];
                    grid.link(current, neighbour);
                    proof {
                        before.lemma_grown_near(&grid, given, current.node(), neighbour.node());
                        before@.lemma_grow(root, current.node(), neighbour.node(), grid@);
                        before@.lemma_grow_only(root, neighbour.node(), current.node(), grid@);
                        before.lemma_settled_after(
                            root,
                            current.node(),
                            neighbour.node(),
                            grid,
                            started,
                        );
                    }
                    current = neighbour;
                },
                None => {
                    proof {
                        if !started {
                            grid.lemma_settled_at_start(root);
                        }
                    }
                    match grid.hunt() {
                        Some(c) => {
                            proof {
                                let b = choose|b: Node| #[trigger]
                                    before.caught(c.node(), b, grid@);
                                before.lemma_grown_near(&grid, given, c.node(), b);
                                lemma_joined_symmetric(before@, c.node(), b, grid@);
                                before@.lemma_grow(root, b, c.node(), grid@);
                                before@.lemma_grow_only(root, c.node(), b, grid@);
                                before.lemma_settled_after(root, c.node(), b, grid, true);
                            }
                            current = c;
                        },
                        None => {
                            proof {
                                before.lemma_grown_same(&grid, given);
                            }
                            break ;
                        },
                    }
                },
            }
            proof {
                started = true;
            }
        }
        grid
    }
}

} // verus!
