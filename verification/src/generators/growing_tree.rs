//! The growing tree: a tree grown from a list of active cells, with the rule
//! that picks the next active cell left to the caller.

use crate::cell::nodes_of;
use crate::cell::CellKind;
use crate::graph::Node;
use crate::grid::Grid;
use crate::kind::Kind;
use crate::random::choose_index;
use crate::model::Maze;
use vstd::prelude::*;

verus! {

/// The first place in a list at which a cell stands.
pub fn position_of<C: CellKind>(list: &Vec<C>, cell: &C) -> (at: Option<usize>)
    ensures
        match at {
            Some(i) => i < list.len() && list[i as int].node() == cell.node() && forall|j: int|
                0 <= j < i ==> (#[trigger] list[j]).node() != cell.node(),
            None => !nodes_of(list@).contains(cell.node()),
        },
{
    let wanted = cell.to_node();
    let mut i: usize = 0;
    while i < list.len()
        invariant
            i <= list.len(),
            wanted == cell.node(),
            forall|j: int| 0 <= j < i ==> (#[trigger] list[j]).node() != cell.node(),
        decreases list.len() - i,
    {
        let here = list[i].to_node();
        if here.0 == wanted.0 && here.1 == wanted.1 && here.2 == wanted.2 {
            return Some(i);
        }
        i += 1;
    }
    proof {
        if nodes_of(list@).contains(cell.node()) {
            let j = choose|j: int| 0 <= j < list.len() && nodes_of(list@)[j] == cell.node();
            assert(list[j].node() == cell.node());
        }
    }
    None
}

impl<K: Kind> Grid<K> {
    /// A cell without links that is adjacent to a listed cell is not listed
    /// itself, and is a cell that the grid had at first.
    pub proof fn lemma_outside_active(&self, given: Maze, root: Node, active: Seq<Node>, idx: int, n: Node)
        requires
            self.frontier(root, active),
            self.brought_in(given, root),
            0 <= idx < active.len(),
            self@.has_cell(n),
            self@.unlinked(n),
            n != active[idx],
        ensures
            !active.contains(n),
            given.has_cell(n),
    {
        let x = active[idx];
        assert(self@.touched(root).contains(x));
        if n == root {
            assert(self@.joins(root, x));
            self@.lemma_joined_is_linked(root, x);
        }
        assert(!self@.touched(root).contains(n));
        if active.contains(n) {
            let j = choose|j: int| 0 <= j < active.len() && active[j] == n;
            assert(self@.touched(root).contains(active[j]));
        }
    }

    /// Grows a tree from a random cell. While `select` picks a cell from the
    /// list of active cells, that cell is linked to a random neighbour
    /// without links, which becomes active too, or, if it has none, leaves
    /// the list. `select` must pick a cell of the list it is given; it is
    /// only ever given lists of cells of the grid in which no cell stands
    /// twice, and must take every such list.
    ///
    /// The links of the result form a tree that holds the first cell, every
    /// cell with a link and every cell that a link has brought into the
    /// grid. If `select` picks a cell from every list that has one, every
    /// cell that is adjacent, whatever the links are, to a cell of the tree
    /// is in the tree; the result is then a perfect maze, where a walk from
    /// cell to adjacent cell leads from every cell of the grid to every
    /// other.
    pub fn growing_tree<F: Fn(&Vec<K::Cell>) -> Option<&K::Cell>>(self, select: F) -> (maze: Self)
        requires
            self.wf(),
            self@.cells.len() > 0,
            self@.edges =~= Set::<(Node, Node)>::empty(),
            forall|list: &Vec<K::Cell>|
                nodes_of(list@).no_duplicates() && (forall|n: Node| #[trigger]
                    nodes_of(list@).contains(n) ==> self@.has_cell(n)) ==> call_requires(
                    select,
                    (list,),
                ),
            forall|list: &Vec<K::Cell>, picked: Option<&K::Cell>|
                call_ensures(select, (list,), picked) && picked is Some ==> nodes_of(
                    list@,
                ).contains(picked->Some_0.node()),
        ensures
            maze.wf(),
            maze.kind() == self.kind(),
            maze.marks() == self.marks(),
            maze@.extends(self@),
            maze.grown_near(self@),
            (forall|list: &Vec<K::Cell>, picked: Option<&K::Cell>|
                call_ensures(select, (list,), picked) && list.len() > 0 ==> picked is Some)
                && self.all_reachable() ==> maze@.is_perfect(),
            exists|root: Node|
                {
                    &&& self@.has_cell(root)
                    &&& #[trigger] maze@.grown_from(root)
                    &&& maze.brought_in(self@, root)
                    &&& (forall|list: &Vec<K::Cell>, picked: Option<&K::Cell>|
                        call_ensures(select, (list,), picked) && list.len() > 0 ==> picked is Some)
                        ==> maze.closed_from(root)
                },
    {
        let mut grid = self;
        let start = grid.get_random_cell();
        let ghost root = start.node();
        let mut active: Vec<K::Cell> = Vec::new();
        active.push(start);
        proof {
            grid.lemma_frontier_start(root, nodes_of(active@));
            assert(nodes_of(active@) =~= seq![root]);
        }
        loop
            invariant
                grid.frontier(root, nodes_of(active@)),
                grid.grown_near(self@),
                grid.kind() == self.kind(),
                grid.marks() == self.marks(),
                grid@.extends(self@),
                grid.brought_in(self@, root),
                self@.has_cell(root),
                nodes_of(active@).no_duplicates(),
                forall|n: Node| #[trigger] nodes_of(active@).contains(n) ==> self@.has_cell(n),
                forall|list: &Vec<K::Cell>|
                    nodes_of(list@).no_duplicates() && (forall|n: Node| #[trigger]
                        nodes_of(list@).contains(n) ==> self@.has_cell(n)) ==> call_requires(
                        select,
                        (list,),
                    ),
                forall|list: &Vec<K::Cell>, picked: Option<&K::Cell>|
                    call_ensures(select, (list,), picked) && picked is Some ==> nodes_of(
                        list@,
                    ).contains(picked->Some_0.node()),
            ensures
                grid.frontier(root, nodes_of(active@)),
                grid.grown_near(self@),
                grid.kind() == self.kind(),
                grid.marks() == self.marks(),
                grid@.extends(self@),
                grid.brought_in(self@, root),
                (forall|list: &Vec<K::Cell>, picked: Option<&K::Cell>|
                    call_ensures(select, (list,), picked) && list.len() > 0 ==> picked is Some)
                    ==> active.len() == 0,
            decreases grid.slack(root), active.len(),
        {
            let idx = match select(&active) {
                Some(cell) => position_of(&active, cell),
                None => None,
            };
            match idx {
                Some(idx) => {
                    let candidates = grid.unvisited_neighbours(active[idx]);
                    let neighbour = match choose_index(candidates.len()) {
                        Some(i) => Some(candidates[i]),
                        None => None,
                    };
                    let ghost held = nodes_of(active@);
                    proof {
                        if neighbour is Some {
                            grid.lemma_outside_active(self@, root, held, idx as int, neighbour->Some_0.node());
                        }
                    }
                    grid.advance(&mut active, idx, neighbour, Ghost(root), Ghost(self@));
                    proof {
                        let now = nodes_of(active@);
                        if neighbour is Some {
                            let n = neighbour->Some_0.node();
                            assert(now =~= held.push(n));
                            assert forall|x: Node| #[trigger] now.contains(x) implies self@.has_cell(
                                x,
                            ) by {
                                let j = choose|j: int| 0 <= j < now.len() && now[j] == x;
                                if j < held.len() {
                                    assert(held.contains(held[j]));
                                }
                            }
                        } else {
                            assert(now =~= held.update(idx as int, held.last()).drop_last());
                            assert forall|x: Node| #[trigger] now.contains(x) implies self@.has_cell(
                                x,
                            ) by {
                                let j = choose|j: int| 0 <= j < now.len() && now[j] == x;
                                if j == idx {
                                    assert(held.contains(held.last()));
                                } else {
                                    assert(held.contains(held[j]));
                                }
                            }
                        }
                    }
                },
                None => {
                    break ;
                },
            }
        }
        proof {
            if active.len() == 0 {
                assert(nodes_of(active@) =~= Seq::<Node>::empty());
                if self.all_reachable() {
                    grid.lemma_spans(&self, root);
                }
            }
        }
        grid
    }
}

} // verus!
