//! Prim's algorithm in two forms: with a random active cell at each step,
//! and with random cell costs that decide every choice.

use crate::cell::nodes_of;
use crate::cell::CellKind;
use crate::cell_map::map_entries;
use crate::cell_map::map_get;
use crate::cell_map::map_insert;
use crate::cell_map::map_new;
use crate::cell_map::CellMap;
use crate::graph::Node;
use crate::grid::Grid;
use crate::kind::Kind;
use crate::random::choose_index;
use crate::random::random_range;
use vstd::prelude::*;

verus! {

/// The cost of a cell under a cost map: what the map holds for it, and
/// nothing for a cell that the map does not hold.
pub open spec fn cost_of(costs: Map<Node, usize>, n: Node) -> usize {
    if costs.dom().contains(n) {
        costs[n]
    } else {
        0
    }
}

/// Whether the cell at place `i` of a list is its cheapest: the first among
/// those of least cost.
pub open spec fn is_cheapest(costs: Map<Node, usize>, cells: Seq<Node>, i: int) -> bool {
    &&& 0 <= i < cells.len()
    &&& forall|j: int| 0 <= j < cells.len() ==> cost_of(costs, cells[i]) <= cost_of(costs, #[trigger] cells[j])
    &&& forall|j: int| 0 <= j < i ==> cost_of(costs, cells[i]) < cost_of(costs, #[trigger] cells[j])
}

/// The place of the cheapest cell of a list: the first among those of least
/// cost. Nothing for an empty list.
pub fn cheapest<C: CellKind>(costs: &CellMap, cells: &Vec<C>) -> (at: Option<usize>)
    ensures
        at is Some ==> is_cheapest(map_entries(*costs), nodes_of(cells@), at->Some_0 as int),
        match at {
            Some(i) => {
                &&& i < cells.len()
                &&& forall|j: int|
                    0 <= j < cells.len() ==> cost_of(map_entries(*costs), cells[i as int].node())
                        <= cost_of(map_entries(*costs), (#[trigger] cells[j]).node())
                &&& forall|j: int|
                    0 <= j < i ==> cost_of(map_entries(*costs), cells[i as int].node()) < cost_of(
                        map_entries(*costs),
                        (#[trigger] cells[j]).node(),
                    )
            },
            None => cells.len() == 0,
        },
{
    if cells.len() == 0 {
        return None;
    }
    let mut best: usize = 0;
    let mut least: usize = match map_get(costs, cells[0].to_node()) {
        Some(c) => c,
        None => 0,
    };
    let mut i: usize = 1;
    while i < cells.len()
        invariant
            1 <= i <= cells.len(),
            best < i,
            least == cost_of(map_entries(*costs), cells[best as int].node()),
            forall|j: int|
                0 <= j < i ==> least <= cost_of(map_entries(*costs), (#[trigger] cells[j]).node()),
            forall|j: int|
                0 <= j < best ==> least < cost_of(map_entries(*costs), (#[trigger] cells[j]).node()),
        decreases cells.len() - i,
    {
        let cost = match map_get(costs, cells[i].to_node()) {
            Some(c) => c,
            None => 0,
        };
        if cost < least {
            best = i;
            least = cost;
        }
        i += 1;
    }
    proof {
        let listed = nodes_of(cells@);
        assert forall|j: int| 0 <= j < listed.len() implies cost_of(
            map_entries(*costs),
            listed[best as int],
        ) <= cost_of(map_entries(*costs), #[trigger] listed[j]) by {
            assert(listed[j] == cells[j].node());
        }
        assert forall|j: int| 0 <= j < best implies cost_of(
            map_entries(*costs),
            listed[best as int],
        ) < cost_of(map_entries(*costs), #[trigger] listed[j]) by {
            assert(listed[j] == cells[j].node());
        }
    }
    Some(best)
}

impl<K: Kind> Grid<K> {
    /// A random cost below 100 for every cell.
    pub fn random_costs(&self) -> (costs: CellMap)
        requires
            self.wf(),
        ensures
            forall|n: Node|
                self@.has_cell(n) ==> #[trigger] map_entries(costs).dom().contains(n)
                    && map_entries(costs)[n] < 100,
    {
        let cells = self.cells();
        let mut costs = map_new();
        let mut i: usize = 0;
        while i < cells.len()
            invariant
                i <= cells.len(),
                nodes_of(cells@) == self@.cells,
                forall|j: int|
                    0 <= j < i ==> #[trigger] map_entries(costs).dom().contains(self@.cells[j])
                        && map_entries(costs)[self@.cells[j]] < 100,
            decreases cells.len() - i,
        {
            assert(nodes_of(cells@)[i as int] == cells[i as int].node());
            map_insert(&mut costs, cells[i].to_node(), random_range(0, 100));
            i += 1;
        }
        proof {
            assert forall|n: Node| self@.has_cell(n) implies #[trigger] map_entries(
                costs,
            ).dom().contains(n) && map_entries(costs)[n] < 100 by {
                let j = choose|j: int| 0 <= j < self@.cells.len() && self@.cells[j] == n;
                assert(map_entries(costs).dom().contains(self@.cells[j]));
            }
        }
        costs
    }

    /// Grows a tree from a random cell: at each step a random active cell
    /// is linked to a random neighbour without links, which becomes active
    /// too, or, if it has none, is active no longer.
    ///
    /// The links of the result form a tree that holds the first cell, every
    /// cell with a link, every cell that a link has brought into the grid,
    /// and every cell that is adjacent, whatever the links are, to a cell of
    /// the tree. Where a walk from cell to adjacent cell leads from every
    /// cell of the grid to every other, the result is a perfect maze.
    pub fn simplified_prims(self) -> (maze: Self)
        requires
            self.wf(),
            self@.cells.len() > 0,
            self@.edges =~= Set::<(Node, Node)>::empty(),
        ensures
            maze.wf(),
            maze.kind() == self.kind(),
            maze.marks() == self.marks(),
            maze@.extends(self@),
            maze.grown_near(self@),
            self.all_reachable() ==> maze@.is_perfect(),
            exists|root: Node|
                self@.has_cell(root) && #[trigger] maze@.grown_from(root) && maze.closed_from(root)
                    && maze.brought_in(self@, root),
    {
        let mut grid = self;
        let start = grid.get_random_cell();
        let ghost root = start.node();
        let mut active: Vec<K::Cell> = Vec::new();
        active.push(start);
        proof {
            grid.lemma_frontier_start(root, nodes_of(active@));
        }
        while active.len() > 0
            invariant
                grid.frontier(root, nodes_of(active@)),
                grid.grown_near(self@),
                grid.kind() == self.kind(),
                grid.marks() == self.marks(),
                grid@.extends(self@),
                grid.brought_in(self@, root),
                self@.has_cell(root),
            decreases grid.slack(root), active.len(),
        {
            let idx = choose_index(active.len()).unwrap();
            let candidates = grid.unvisited_neighbours(active[idx]);
            let neighbour = match choose_index(candidates.len()) {
                Some(i) => Some(candidates[i]),
                None => None,
            };
            grid.advance(&mut active, idx, neighbour, Ghost(root), Ghost(self@));
        }
        assert(nodes_of(active@) =~= Seq::<Node>::empty());
        proof {
            if self.all_reachable() {
                grid.lemma_spans(&self, root);
            }
        }
        grid
    }

    /// One step of Prim's algorithm with costs: the cheapest active cell is
    /// linked to the cheapest of its neighbours without links, which becomes
    /// active too, or, if it has none, is active no longer (the last active
    /// cell takes its place). Of cells that cost the same the first counts
    /// as the cheapest. Returns the place of the active cell and the
    /// neighbour.
    pub fn prims_step(&mut self, active: &mut Vec<K::Cell>, costs: &CellMap) -> (done: (
        usize,
        Option<K::Cell>,
    ))
        requires
            old(self).wf(),
            old(active).len() > 0,
            forall|i: int|
                0 <= i < old(active).len() ==> old(self)@.has_cell((#[trigger] old(active)[i]).node()),
        ensures
            final(self).wf(),
            final(self).kind() == old(self).kind(),
            final(self).marks() == old(self).marks(),
            is_cheapest(map_entries(*costs), nodes_of(old(active)@), done.0 as int),
            ({
                let cell = old(active)[done.0 as int].node();
                let around = old(self).kind().adjacent(old(self)@, cell);
                let open = around.filter(old(self)@.unlinked_cells());
                match done.1 {
                    Some(n) => {
                        &&& exists|j: int| #[trigger]
                            is_cheapest(map_entries(*costs), open, j) && open[j] == n.node()
                        &&& around.contains(n.node())
                        &&& old(self)@.has_cell(n.node())
                        &&& old(self)@.unlinked(n.node())
                        &&& n.node() != cell
                        &&& final(self)@ == old(self).kind().linking(old(self)@, cell, n.node())
                        &&& crate::model::joined(old(self)@, cell, n.node(), final(self)@)
                        &&& final(active)@ == old(active)@.push(n)
                    },
                    None => {
                        &&& open.len() == 0
                        &&& final(self)@ == old(self)@
                        &&& final(active)@ == old(active)@.update(
                            done.0 as int,
                            old(active)@.last(),
                        ).drop_last()
                    },
                }
            }),
    {
        let idx = cheapest(costs, active).unwrap();
        let cell = active[idx];
        let candidates = self.unvisited_neighbours(cell);
        match cheapest(costs, &candidates) {
            Some(i) => {
                let n = candidates[i];
                proof {
                    assert(nodes_of(candidates@)[i as int] == n.node());
                }
                self.link(cell, n);
                active.push(n);
                (idx, Some(n))
            },
            None => {
                proof {
                    assert(nodes_of(candidates@).len() == 0);
                }
                active.swap_remove(idx);
                (idx, None)
            },
        }
    }

    /// Grows a tree from a random cell, with a random cost for every cell:
    /// at each step the cheapest active cell is linked to its cheapest
    /// neighbour without links, which becomes active too, or, if it has
    /// none, is active no longer (see [`Grid::prims_step`]).
    ///
    /// The links of the result form a tree that holds the first cell, every
    /// cell with a link, every cell that a link has brought into the grid,
    /// and every cell that is adjacent, whatever the links are, to a cell of
    /// the tree. Where a walk from cell to adjacent cell leads from every
    /// cell of the grid to every other, the result is a perfect maze.
    pub fn true_prims(self) -> (maze: Self)
        requires
            self.wf(),
            self@.cells.len() > 0,
            self@.edges =~= Set::<(Node, Node)>::empty(),
        ensures
            maze.wf(),
            maze.kind() == self.kind(),
            maze.marks() == self.marks(),
            maze@.extends(self@),
            maze.grown_near(self@),
            self.all_reachable() ==> maze@.is_perfect(),
            exists|root: Node|
                self@.has_cell(root) && #[trigger] maze@.grown_from(root) && maze.closed_from(root)
                    && maze.brought_in(self@, root),
    {
        let mut grid = self;
        let start = grid.get_random_cell();
        let ghost root = start.node();
        let mut active: Vec<K::Cell> = Vec::new();
        active.push(start);
        let costs = grid.random_costs();
        proof {
            grid.lemma_frontier_start(root, nodes_of(active@));
        }
        while active.len() > 0
            invariant
                grid.frontier(root, nodes_of(active@)),
                grid.grown_near(self@),
                grid.kind() == self.kind(),
                grid.marks() == self.marks(),
                grid@.extends(self@),
                grid.brought_in(self@, root),
                self@.has_cell(root),
            decreases grid.slack(root), active.len(),
        {
            let ghost before = grid;
            let ghost held = nodes_of(active@);
            proof {
                assert forall|i: int| 0 <= i < active.len() implies grid@.has_cell(
                    (#[trigger] active[i]).node(),
                ) by {
                    assert(held[i] == active[i].node());
                    assert(grid@.touched(root).contains(held[i]));
                }
            }
            let (idx, neighbour) = grid.prims_step(&mut active, &costs);
            proof {
                match neighbour {
                    Some(n) => {
                        assert(nodes_of(active@) =~= held.push(n.node()));
                        before.lemma_frontier_grows(&grid, root, held, idx as int, n.node());
                        before.lemma_grown_near(&grid, self@, held[idx as int], n.node());
                    },
                    None => {
                        before.lemma_grown_same(&grid, self@);
                        assert(nodes_of(active@) =~= held.update(idx as int, held.last()).drop_last());
                        before.lemma_frontier_retires(root, held, idx as int);
                        let now = held.update(idx as int, held.last()).drop_last();
                        assert forall|v: Node, j: int|
                            grid@.touched(root).contains(v) && !now.contains(v) && 0 <= j
                                < grid.steady(v).len() implies grid@.touched(root).contains(
                            #[trigger] grid.steady(v)[j],
                        ) by {
                            assert(grid.steady(v) == before.steady(v));
                            assert(before@.touched(root).contains(before.steady(v)[j]));
                        }
                        assert(grid.frontier(root, now));
                    },
                }
            }
        }
        assert(nodes_of(active@) =~= Seq::<Node>::empty());
        proof {
            if self.all_reachable() {
                grid.lemma_spans(&self, root);
            }
        }
        grid
    }
}

} // verus!
