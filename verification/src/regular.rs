//! The regular topology: square cells in rows and columns.

use crate::cell::CellKind;
use crate::cell::RegularCell;
use crate::cell::cell_opt;
use crate::cell::node_opt;
use crate::graph::LinkGraph;
use crate::graph::Node;
use crate::graph::graph_add_edge;
use crate::graph::graph_nodes;
use crate::grid::Grid;
use crate::kind::Kind;
use crate::model::Maze;
use crate::model::lemma_edge_key;
use crate::model::maze_of;
use crate::rect::compass;
use crate::rect::compass_cells;
use crate::rect::fill_rect;
use crate::rect::grid_cells;
use crate::rect::in_rect;
use crate::rect::lemma_compass;
use crate::rect::lemma_grid_cells_contains;
use crate::rect::lemma_rect_step;
use crate::rect::step_towards;
use crate::rect::surface;
use crate::rect::surface_at;
use crate::rect::surface_near;
use vstd::prelude::*;

verus! {

/// A rectangle of square cells.
pub struct Regular {
    pub rows: usize,
    pub cols: usize,
}

impl Regular {
    /// The topology of a grid of so many rows and columns.
    pub fn new(rows: usize, cols: usize) -> (k: Self)
        ensures
            k.rows == rows,
            k.cols == cols,
    {
        Self { rows, cols }
    }
}

impl Kind for Regular {
    type Cell = RegularCell;

    open spec fn valid(&self) -> bool {
        self.rows <= isize::MAX && self.cols <= isize::MAX
    }

    open spec fn first_cells(&self) -> Seq<Node> {
        grid_cells(self.rows as nat, self.cols as nat)
    }

    open spec fn cells_ok(&self, cells: Seq<Node>) -> bool {
        cells == grid_cells(self.rows as nat, self.cols as nat)
    }

    open spec fn adjacent(&self, m: Maze, n: Node) -> Seq<Node> {
        compass(m, n.0 as int, n.1 as int)
    }

    open spec fn steady(&self, cells: Seq<Node>, n: Node) -> Seq<Node> {
        self.adjacent(Maze { cells, edges: Set::empty() }, n)
    }

    proof fn lemma_steady(&self, m: Maze, n: Node) {
        let bare = Maze { cells: m.cells, edges: Set::empty() };
        self.lemma_flat(bare, m, n);
        let adj = self.adjacent(m, n);
        assert forall|i: int| 0 <= i < adj.len() implies adj.contains(#[trigger] adj[i]) by {}
    }

    proof fn lemma_steady_linked(&self, m: Maze, a: Node, b: Node, n: Node) {
        assert(self.linking(m, a, b).cells == m.cells);
    }

    open spec fn flat(&self) -> bool {
        true
    }

    open spec fn linking(&self, m: Maze, a: Node, b: Node) -> Maze {
        m.connect(a, b)
    }

    open spec fn near(&self, cells: Seq<Node>, a: Node, b: Node) -> bool {
        self.steady(cells, a).contains(b) || self.steady(cells, b).contains(a)
    }

    proof fn lemma_near(&self, m: Maze, a: Node, b: Node) {
        crate::model::lemma_connect_links(m, a, b);
        self.lemma_steady(m, a);
    }

    proof fn lemma_flat(&self, a: Maze, b: Maze, n: Node) {
    }

    open spec fn row_count(&self) -> usize {
        self.rows
    }

    fn num_rows(&self) -> (n: usize) {
        self.rows
    }

    fn prepare_grid(&self) -> (g: LinkGraph) {
        let g = fill_rect(self.rows, self.cols);
        proof {
            assert forall|n: Node| #[trigger] graph_nodes(g).contains(n) implies RegularCell::is_node(
                n,
            ) by {
                lemma_grid_cells_contains(self.rows as nat, self.cols as nat, n);
            }
        }
        g
    }

    fn link(&self, links: &mut LinkGraph, cell: RegularCell, other: RegularCell) {
        proof {
            lemma_edge_key(cell.node(), other.node());
        }
        graph_add_edge(links, cell.to_node(), other.to_node());
        assert(maze_of(*links).cells =~= maze_of(*old(links)).cells);
    }

    fn neighbours(&self, links: &LinkGraph, cell: RegularCell) -> (list: Vec<RegularCell>) {
        compass_cells(links, cell.row, cell.col)
    }
}

impl Grid<Regular> {
    /// The number of columns.
    pub fn num_cols(&self) -> (n: usize)
        ensures
            n == self.kind().cols,
    {
        self.topology().cols
    }

    /// A wellformed regular grid has exactly the cells of its rectangle.
    pub proof fn lemma_cells(&self, row: int, col: int)
        requires
            self.wf(),
        ensures
            surface(self@, row, col) is Some <==> in_rect(
                self.kind().rows as nat,
                self.kind().cols as nat,
                row,
                col,
            ),
    {
        if isize::MIN <= row <= isize::MAX && isize::MIN <= col <= isize::MAX {
            lemma_grid_cells_contains(
                self.kind().rows as nat,
                self.kind().cols as nat,
                (row as isize, col as isize, 0usize),
            );
        }
    }

    /// In a regular grid a walk from cell to adjacent cell leads from every
    /// cell to every other.
    pub proof fn lemma_reaches(&self, a: Node, b: Node)
        requires
            self.wf(),
            self@.has_cell(a),
            self@.has_cell(b),
        ensures
            self.reaches(a, b),
        decreases vstd::math::abs(b.0 - a.0) + vstd::math::abs(b.1 - a.1),
    {
        lemma_rect_step(self@, self.kind().rows as nat, self.kind().cols as nat, a, b);
        if a == b {
            self.lemma_reaches_self(a);
        } else {
            let m = step_towards(a, b);
            self.lemma_reaches(a, m);
            self.lemma_reaches_step(a, m, b);
        }
    }

    /// In a regular grid adjacent cells are cells of the grid, adjacent to
    /// each other, and a walk from cell to adjacent cell leads from every
    /// cell to every other.
    pub proof fn lemma_topology(&self)
        requires
            self.wf(),
        ensures
            self.evenly_adjacent(),
            self.all_reachable(),
    {
        assert forall|a: Node, i: int|
            self@.has_cell(a) && 0 <= i < self.kind().adjacent(self@, a).len() implies {
            let b = #[trigger] self.kind().adjacent(self@, a)[i];
            self@.has_cell(b) && self.kind().adjacent(self@, b).contains(a)
        } by {
            let adj = self.kind().adjacent(self@, a);
            let b = adj[i];
            assert(adj.contains(b));
            lemma_grid_cells_contains(self.kind().rows as nat, self.kind().cols as nat, a);
            lemma_compass(self@, a, b);
        }
        assert forall|a: Node, b: Node| self@.has_cell(a) && self@.has_cell(b) implies #[trigger] self.reaches(
            a,
            b,
        ) by {
            self.lemma_reaches(a, b);
        }
    }

    /// The cell at a row and column, if the grid has one there.
    pub fn get(&self, row: isize, col: isize) -> (cell: Option<RegularCell>)
        requires
            self.wf(),
        ensures
            node_opt(cell) == surface(self@, row as int, col as int),
    {
        cell_opt(surface_at(self.graph(), row, col))
    }

    /// The cell to the north, if there is one.
    pub fn north(&self, cell: RegularCell) -> (found: Option<RegularCell>)
        requires
            self.wf(),
        ensures
            node_opt(found) == surface(self@, cell.row - 1, cell.col as int),
    {
        cell_opt(surface_near(self.graph(), cell.row, cell.col, -1, 0))
    }

    /// The cell to the south, if there is one.
    pub fn south(&self, cell: RegularCell) -> (found: Option<RegularCell>)
        requires
            self.wf(),
        ensures
            node_opt(found) == surface(self@, cell.row + 1, cell.col as int),
    {
        cell_opt(surface_near(self.graph(), cell.row, cell.col, 1, 0))
    }

    /// The cell to the west, if there is one.
    pub fn west(&self, cell: RegularCell) -> (found: Option<RegularCell>)
        requires
            self.wf(),
        ensures
            node_opt(found) == surface(self@, cell.row as int, cell.col - 1),
    {
        cell_opt(surface_near(self.graph(), cell.row, cell.col, 0, -1))
    }

    /// The cell to the east, if there is one.
    pub fn east(&self, cell: RegularCell) -> (found: Option<RegularCell>)
        requires
            self.wf(),
        ensures
            node_opt(found) == surface(self@, cell.row as int, cell.col + 1),
    {
        cell_opt(surface_near(self.graph(), cell.row, cell.col, 0, 1))
    }

    /// The cells row by row, each row from west to east.
    pub fn rows(&self) -> (list: Vec<Vec<RegularCell>>)
        requires
            self.wf(),
        ensures
            list.len() == self.kind().rows,
            forall|r: int| 0 <= r < list.len() ==> (#[trigger] list[r]).len() == self.kind().cols,
            forall|r: int, c: int|
                0 <= r < self.kind().rows && 0 <= c < self.kind().cols ==> (
                #[trigger] list[r][c]).node() == (r as isize, c as isize, 0usize),
    {
        crate::rect::rect_rows(self.topology().rows, self.topology().cols)
    }
}

} // verus!
