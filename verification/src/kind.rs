//! Topologies: what cells a grid has and which of them are adjacent.

use crate::cell::nodes_of;
use crate::cell::CellKind;
use crate::graph::graph_nodes;
use crate::graph::LinkGraph;
use crate::graph::Node;
use crate::model::joined;
use crate::model::maze_of;
use crate::model::Maze;
use vstd::prelude::*;

pub use crate::hex::Hex;
pub use crate::masked::Masked;
pub use crate::polar::Polar;
pub use crate::regular::Regular;
pub use crate::triangle::Triangle;
pub use crate::weave::Weave;
pub use crate::weighted::Weighted;

verus! {

/// Whether every node of `cells` stands for a cell of type `C`.
pub open spec fn cells_are<C: CellKind>(cells: Seq<Node>) -> bool {
    forall|n: Node| #[trigger] cells.contains(n) ==> C::is_node(n)
}

/// A topology: the shape of a grid. It knows which cells a grid starts with,
/// which cells are adjacent to a cell, and what linking two cells means.
pub trait Kind: Sized {
    type Cell: CellKind;

    /// Whether the dimensions fit the machine's integers.
    spec fn valid(&self) -> bool;

    /// The cells that a grid of this topology begins with, in the order in
    /// which it enumerates them.
    spec fn first_cells(&self) -> Seq<Node>;

    /// Whether `cells` is a cell list that a grid of this topology may have.
    spec fn cells_ok(&self, cells: Seq<Node>) -> bool;

    /// The cells adjacent to a cell in a maze of this topology, in the order
    /// in which [`Kind::neighbours`] lists them.
    spec fn adjacent(&self, m: Maze, n: Node) -> Seq<Node>;

    /// The cells adjacent to a cell whatever the links are: those that the
    /// cells of the maze decide alone.
    spec fn steady(&self, cells: Seq<Node>, n: Node) -> Seq<Node>;

    /// Every cell that is adjacent whatever the links are is adjacent, and in
    /// a flat topology no other cell is.
    proof fn lemma_steady(&self, m: Maze, n: Node)
        ensures
            forall|i: int|
                0 <= i < self.steady(m.cells, n).len() ==> self.adjacent(m, n).contains(
                    #[trigger] self.steady(m.cells, n)[i],
                ),
            self.flat() ==> self.steady(m.cells, n) == self.adjacent(m, n),
    ;

    /// Linking two cells leaves the cells that are adjacent whatever the
    /// links are as they were, and a cell that the link brings has none.
    proof fn lemma_steady_linked(&self, m: Maze, a: Node, b: Node, n: Node)
        requires
            m.wf(),
        ensures
            self.steady(self.linking(m, a, b).cells, n) == self.steady(m.cells, n),
            !m.has_cell(n) && self.linking(m, a, b).has_cell(n) ==> self.steady(m.cells, n).len()
                == 0,
    ;

    /// Whether the grid is flat: adjacency depends on the cells alone, and
    /// linking adds the link and nothing else.
    spec fn flat(&self) -> bool;

    /// In a flat topology two mazes with the same cells have the same
    /// adjacency.
    proof fn lemma_flat(&self, a: Maze, b: Maze, n: Node)
        requires
            a.cells == b.cells,
        ensures
            self.flat() ==> self.adjacent(a, n) == self.adjacent(b, n),
    ;

    /// The maze after two of its cells were linked.
    spec fn linking(&self, m: Maze, a: Node, b: Node) -> Maze;

    /// Whether two cells lie so near each other that a link between cells
    /// adjacent to each other may join them.
    spec fn near(&self, cells: Seq<Node>, a: Node, b: Node) -> bool;

    /// A cell lies near the cells adjacent to it. Linking two cells that lie
    /// near each other makes links between cells that lie near each other
    /// only, and cells that lay near each other still do.
    proof fn lemma_near(&self, m: Maze, a: Node, b: Node)
        requires
            m.wf(),
            self.adjacent(m, a).contains(b) || self.near(m.cells, a, b),
        ensures
            self.near(m.cells, a, b),
            forall|x: Node, y: Node| #[trigger]
                self.linking(m, a, b).linked(x, y) ==> m.linked(x, y) || self.near(
                    self.linking(m, a, b).cells,
                    x,
                    y,
                ),
            forall|x: Node, y: Node| #[trigger]
                self.near(m.cells, x, y) ==> self.near(self.linking(m, a, b).cells, x, y),
    ;

    /// The number of rows.
    spec fn row_count(&self) -> usize;

    fn num_rows(&self) -> (n: usize)
        ensures
            n == self.row_count(),
    ;

    /// The cells of a new grid, without links.
    fn prepare_grid(&self) -> (g: LinkGraph)
        requires
            self.valid(),
        ensures
            maze_of(g).wf(),
            maze_of(g).edges == Set::<(Node, Node)>::empty(),
            graph_nodes(g) == self.first_cells(),
            self.cells_ok(graph_nodes(g)),
            cells_are::<Self::Cell>(graph_nodes(g)),
    ;

    /// Links two cells of the grid as this topology understands it.
    fn link(&self, links: &mut LinkGraph, cell: Self::Cell, other: Self::Cell)
        requires
            self.valid(),
            maze_of(*old(links)).wf(),
            self.cells_ok(graph_nodes(*old(links))),
            cells_are::<Self::Cell>(graph_nodes(*old(links))),
            maze_of(*old(links)).has_cell(cell.node()),
            maze_of(*old(links)).has_cell(other.node()),
        ensures
            maze_of(*final(links)).wf(),
            self.cells_ok(graph_nodes(*final(links))),
            cells_are::<Self::Cell>(graph_nodes(*final(links))),
            maze_of(*final(links)) == self.linking(
                maze_of(*old(links)),
                cell.node(),
                other.node(),
            ),
            joined(maze_of(*old(links)), cell.node(), other.node(), maze_of(*final(links))),
            self.flat() ==> maze_of(*final(links)) == maze_of(*old(links)).connect(
                cell.node(),
                other.node(),
            ),
    ;

    /// The cells adjacent to `cell`, linked or not.
    fn neighbours(&self, links: &LinkGraph, cell: Self::Cell) -> (list: Vec<Self::Cell>)
        requires
            self.valid(),
            maze_of(*links).wf(),
            self.cells_ok(graph_nodes(*links)),
            cells_are::<Self::Cell>(graph_nodes(*links)),
        ensures
            forall|i: int|
                0 <= i < list.len() ==> maze_of(*links).has_cell(#[trigger] list[i].node())
                    && list[i].node() != cell.node(),
            nodes_of(list@) == self.adjacent(maze_of(*links), cell.node()),
    ;
}

} // verus!
