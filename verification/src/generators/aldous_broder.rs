//! Aldous-Broder: a random walk that links every cell it enters for the
//! first time.

use crate::cell::CellKind;
use crate::cell::nodes_of;
use crate::graph::Node;
use crate::grid::Grid;
use crate::kind::Kind;
use crate::random::choose_index;
use vstd::prelude::*;

verus! {

impl<K: Kind> Grid<K> {
    /// One step of the walk from `cell` to its neighbour `next`: a neighbour
    /// without links is linked to `cell`. Returns whether it was.
    pub fn walk_step(&mut self, cell: K::Cell, next: K::Cell) -> (linked: bool)
        requires
            old(self).wf(),
            old(self)@.has_cell(cell.node()),
            old(self)@.has_cell(next.node()),
        ensures
            final(self).wf(),
            final(self).kind() == old(self).kind(),
            final(self).marks() == old(self).marks(),
            linked == old(self)@.unlinked(next.node()),
            if linked {
                crate::model::joined(old(self)@, cell.node(), next.node(), final(self)@)
                    && final(self)@ == old(self).kind().linking(
                    old(self)@,
                    cell.node(),
                    next.node(),
                )
            } else {
                final(self)@ == old(self)@
            },
    {
        if !self.has_links(next) {
            self.link(cell, next);
            true
        } else {
            false
        }
    }

    /// Walks from a random cell to random neighbours, and links every cell
    /// without links that the walk enters to the cell it came from, until as
    /// many links are made as the grid has cells but one. The walk is given
    /// up at a cell without neighbours, and after as many steps as the
    /// machine can count; what is left of the tree is then grown as hunt
    /// and kill grows it (see [`Grid::hunt_on`]), which does nothing where
    /// the walk has come to every cell.
    ///
    /// The links of the result form a tree that holds the first cell, every
    /// cell with a link and every cell that a link has brought into the
    /// grid, and each joins two cells that lie near each other. No cell
    /// without links has a neighbour with links, and the first cell has a
    /// link unless no cell is adjacent to it. Where adjacent cells of the
    /// grid are adjacent to each other, and a walk from cell to adjacent
    /// cell leads from every cell to every other, the result is a perfect
    /// maze.
    pub fn aldous_broder(self) -> (maze: Self)
        requires
            self.wf(),
            self@.cells.len() > 0,
            self@.edges =~= Set::<(Node, Node)>::empty(),
        ensures
            maze.wf(),
            maze.kind() == self.kind(),
            maze.marks() == self.marks(),
            maze@.extends(self@),
            maze.grown_near(self@),
            self.evenly_steady() && self.all_reachable() ==> maze@.is_perfect(),
            exists|root: Node|
                {
                    &&& self@.has_cell(root)
                    &&& #[trigger] maze@.grown_from(root)
                    &&& maze.hunted_out()
                    &&& maze.settled(root)
                    &&& maze.brought_in(self@, root)
                    &&& maze.slack(root) == 0 ==> maze@.is_perfect()
                },
    {
        let mut grid = self;
        let start = grid.get_random_cell();
        let mut cell = start;
        let ghost root = cell.node();
        let mut unvisited: usize = grid.size() - 1;
        let mut steps: usize = 0;
        proof {
            grid@.lemma_tree_start(root);
        }
        while unvisited > 0 && steps < usize::MAX
            invariant
                grid.wf(),
                grid.kind() == self.kind(),
                grid.marks() == self.marks(),
                grid@.extends(self@),
                grid.grown_near(self@),
                self@.has_cell(root),
                grid@.grown_from(root),
                grid.brought_in(self@, root),
                grid@.touched(root).contains(cell.node()),
                unvisited == grid.slack(root),
            decreases usize::MAX - steps,
        {
            let around = grid.neighbours(cell);
            match choose_index(around.len()) {
                Some(i) => {
                    let next = around[i];
                    let ghost before = grid@;
                    let ghost was = grid;
                    let linked = grid.walk_step(cell, next);
                    proof {
                        if !linked {
                            was.lemma_grown_same(&grid, self@);
                        }
                        if linked {
                            before.lemma_grow(root, cell.node(), next.node(), grid@);
                            before.lemma_grow_only(root, next.node(), cell.node(), grid@);
                            assert(nodes_of(around@)[i as int] == next.node());
                            was.lemma_grown_near(&grid, self@, cell.node(), next.node());
                        }
                    }
                    if linked {
                        unvisited -= 1;
                    }
                    cell = next;
                },
                None => {
                    break ;
                },
            }
            steps += 1;
        }
        let maze = grid.hunt_on(start, Ghost(self@));
        proof {
            if maze.slack(root) == 0 {
                maze@.lemma_full_tree(root);
            }
            if self.evenly_steady() && self.all_reachable() {
                maze.lemma_spans_hunted(&self, root);
            }
        }
        maze
    }
}

} // verus!
