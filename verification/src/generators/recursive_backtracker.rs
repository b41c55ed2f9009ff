//! Depth-first search with an explicit stack.

use crate::cell::CellKind;
use crate::cell::nodes_of;
use crate::graph::Node;
use crate::grid::Grid;
use crate::kind::Kind;
use crate::random::choose_index;
use vstd::prelude::*;

verus! {

impl<K: Kind> Grid<K> {
    /// Walks from a random cell to random neighbours without links, linking
    /// each to the cell before it, and steps back along the walk whenever
    /// the cell at its end has no such neighbour left.
    ///
    /// The links of the result form a tree that holds the first cell, every
    /// cell with a link, every cell that a link has brought into the grid,
    /// and every cell that is adjacent, whatever the links are, to a cell of
    /// the tree. Where a walk from cell to adjacent cell leads from every
    /// cell of the grid to every other, the result is a perfect maze.
    pub fn recursive_backtracker(self) -> (maze: Self)
        requires
            self.wf(),
            self@.cells.len() > 0,
            self@.edges =~= Set::<(Node, Node)>::empty(),
        ensures
            maze.wf(),
            maze.kind() == self.kind(),
            maze.marks() == self.marks(),
            maze@.extends(self@),
            maze.grown_near(self@),
            self.all_reachable() ==> maze@.is_perfect(),
            exists|root: Node|
                self@.has_cell(root) && #[trigger] maze@.grown_from(root) && maze.closed_from(root)
                    && maze.brought_in(self@, root),
    {
        let mut grid = self;
        let start = grid.get_random_cell();
        let ghost root = start.node();
        let mut stack: Vec<K::Cell> = Vec::new();
        stack.push(start);
        proof {
            grid.lemma_frontier_start(root, nodes_of(stack@));
        }
        while stack.len() > 0
            invariant
                grid.frontier(root, nodes_of(stack@)),
                grid.grown_near(self@),
                grid.kind() == self.kind(),
                grid.marks() == self.marks(),
                grid@.extends(self@),
                grid.brought_in(self@, root),
                self@.has_cell(root),
            decreases grid.slack(root), stack.len(),
        {
            let top = stack.len() - 1;
            let candidates = grid.unvisited_neighbours(stack[top]);
            let neighbour = match choose_index(candidates.len()) {
                Some(i) => Some(candidates[i]),
                None => None,
            };
            grid.advance(&mut stack, top, neighbour, Ghost(root), Ghost(self@));
        }
        assert(nodes_of(stack@) =~= Seq::<Node>::empty());
        proof {
            if self.all_reachable() {
                grid.lemma_spans(&self, root);
            }
        }
        grid
    }
}

} // verus!
