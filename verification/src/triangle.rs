//! The triangle topology: triangular cells in rows and columns, pointing
//! up and down in turn.

use crate::cell::CellKind;
use crate::cell::TriangleCell;
use crate::cell::cell_opt;
use crate::cell::node_opt;
use crate::graph::LinkGraph;
use crate::graph::Node;
use crate::graph::graph_add_edge;
use crate::graph::graph_nodes;
use crate::grid::Grid;
use crate::kind::Kind;
use crate::model::Maze;
use crate::model::lemma_edge_key;
use crate::model::maze_of;
use crate::rect::fill_rect;
use crate::rect::grid_cells;
use crate::rect::lemma_grid_cells_contains;
use crate::rect::present;
use crate::rect::surface;
use crate::rect::surface_at;
use crate::rect::surface_near;
use vstd::prelude::*;

verus! {

/// A rectangle of triangular cells.
pub struct Triangle {
    pub rows: usize,
    pub cols: usize,
}

impl Triangle {
    /// The topology of a grid of so many rows and columns.
    pub fn new(rows: usize, cols: usize) -> (k: Self)
        ensures
            k.rows == rows,
            k.cols == cols,
    {
        Self { rows, cols }
    }
}

/// Whether the triangle at a place points up.
pub open spec fn upright(row: int, col: int) -> bool {
    (row + col) % 2 == 0
}

/// The triangle across the base of the one at a place: to the south of
/// one that points up, to the north of one that points down.
pub open spec fn across(m: Maze, row: int, col: int, north: bool) -> Option<Node> {
    if north == upright(row, col) {
        None
    } else if north {
        surface(m, row - 1, col)
    } else {
        surface(m, row + 1, col)
    }
}

/// The triangles around a place: north, south, west and east, those that the
/// maze has and that share a side with the one at the place.
pub open spec fn triangle_around(m: Maze, row: int, col: int) -> Seq<Node> {
    present(triangle_places(m, row, col))
}

/// Looks up the triangle across the base.
fn across_at(links: &LinkGraph, cell: TriangleCell, north: bool) -> (found: Option<Node>)
    ensures
        found == across(maze_of(*links), cell.row as int, cell.col as int, north),
{
    if north == cell.is_upright() {
        None
    } else if north {
        surface_near(links, cell.row, cell.col, -1, 0)
    } else {
        surface_near(links, cell.row, cell.col, 1, 0)
    }
}

/// The four places around a triangle.
pub open spec fn triangle_places(m: Maze, row: int, col: int) -> Seq<Option<Node>> {
    seq![
        across(m, row, col, true),
        across(m, row, col, false),
        surface(m, row, col - 1),
        surface(m, row, col + 1),
    ]
}

/// A triangle adjacent to a triangle is a triangle of the maze, and has the
/// triangle among those adjacent to it.
pub proof fn lemma_triangle_around(m: Maze, rows: nat, cols: nat, a: Node, b: Node)
    requires
        rows <= isize::MAX,
        cols <= isize::MAX,
        m.cells == grid_cells(rows, cols),
        m.has_cell(a),
        triangle_around(m, a.0 as int, a.1 as int).contains(b),
    ensures
        m.has_cell(b),
        triangle_around(m, b.0 as int, b.1 as int).contains(a),
{
    lemma_grid_cells_contains(rows, cols, a);
    let found = triangle_places(m, a.0 as int, a.1 as int);
    crate::rect::lemma_present_contains(found, b);
    let j = choose|j: int| 0 <= j < found.len() && found[j] == Some(b);
    let back = triangle_places(m, b.0 as int, b.1 as int);
    crate::rect::lemma_present_contains(back, a);
    if j == 0 {
        assert(back[1] == Some(a));
    } else if j == 1 {
        assert(back[0] == Some(a));
    } else if j == 2 {
        assert(back[3] == Some(a));
    } else {
        assert(back[2] == Some(a));
    }
}

/// The place from which a walk towards `a` comes to the triangle `b`: the
/// place across the base of `b` where that is the way to the row of `a`, and
/// else a place beside `b`, towards the column of `a` if that is another
/// column.
pub open spec fn triangle_step(cols: nat, a: Node, b: Node) -> Node {
    if b.0 > a.0 && !upright(b.0 as int, b.1 as int) {
        ((b.0 - 1) as isize, b.1, 0usize)
    } else if b.0 < a.0 && upright(b.0 as int, b.1 as int) {
        ((b.0 + 1) as isize, b.1, 0usize)
    } else if b.1 > a.1 || (b.1 == a.1 && b.1 > 0) {
        (b.0, (b.1 - 1) as isize, 0usize)
    } else {
        (b.0, (b.1 + 1) as isize, 0usize)
    }
}

/// How far a walk towards `a` is from `a` at the triangle `b`: by the rows
/// between them first, then by whether the walk must step aside at `b`,
/// then by the columns between them.
pub open spec fn triangle_far(a: Node, b: Node) -> (nat, nat) {
    let rows = vstd::math::abs(b.0 - a.0);
    if rows == 0 {
        (0, vstd::math::abs(b.1 - a.1))
    } else if (b.0 > a.0) == upright(b.0 as int, b.1 as int) {
        (rows, 1)
    } else {
        (rows, 0)
    }
}

impl Kind for Triangle {
    type Cell = TriangleCell;

    open spec fn valid(&self) -> bool {
        self.rows <= isize::MAX && self.cols <= isize::MAX
    }

    open spec fn first_cells(&self) -> Seq<Node> {
        grid_cells(self.rows as nat, self.cols as nat)
    }

    open spec fn cells_ok(&self, cells: Seq<Node>) -> bool {
        cells == grid_cells(self.rows as nat, self.cols as nat)
    }

    open spec fn adjacent(&self, m: Maze, n: Node) -> Seq<Node> {
        triangle_around(m, n.0 as int, n.1 as int)
    }

    open spec fn steady(&self, cells: Seq<Node>, n: Node) -> Seq<Node> {
        self.adjacent(Maze { cells, edges: Set::empty() }, n)
    }

    proof fn lemma_steady(&self, m: Maze, n: Node) {
        let bare = Maze { cells: m.cells, edges: Set::empty() };
        self.lemma_flat(bare, m, n);
        let adj = self.adjacent(m, n);
        assert forall|i: int| 0 <= i < adj.len() implies adj.contains(#[trigger] adj[i]) by {}
    }

    proof fn lemma_steady_linked(&self, m: Maze, a: Node, b: Node, n: Node) {
        assert(self.linking(m, a, b).cells == m.cells);
    }

    open spec fn flat(&self) -> bool {
        true
    }

    open spec fn linking(&self, m: Maze, a: Node, b: Node) -> Maze {
        m.connect(a, b)
    }

    open spec fn near(&self, cells: Seq<Node>, a: Node, b: Node) -> bool {
        self.steady(cells, a).contains(b) || self.steady(cells, b).contains(a)
    }

    proof fn lemma_near(&self, m: Maze, a: Node, b: Node) {
        crate::model::lemma_connect_links(m, a, b);
        self.lemma_steady(m, a);
    }

    proof fn lemma_flat(&self, a: Maze, b: Maze, n: Node) {
    }

    open spec fn row_count(&self) -> usize {
        self.rows
    }

    fn num_rows(&self) -> (n: usize) {
        self.rows
    }

    fn prepare_grid(&self) -> (g: LinkGraph) {
        let g = fill_rect(self.rows, self.cols);
        proof {
            assert forall|n: Node| #[trigger] graph_nodes(g).contains(n) implies TriangleCell::is_node(
                n,
            ) by {
                lemma_grid_cells_contains(self.rows as nat, self.cols as nat, n);
            }
        }
        g
    }

    fn link(&self, links: &mut LinkGraph, cell: TriangleCell, other: TriangleCell) {
        proof {
            lemma_edge_key(cell.node(), other.node());
        }
        graph_add_edge(links, cell.to_node(), other.to_node());
        assert(maze_of(*links).cells =~= maze_of(*old(links)).cells);
    }

    fn neighbours(&self, links: &LinkGraph, cell: TriangleCell) -> (list: Vec<TriangleCell>) {
        let mut found: Vec<Option<Node>> = Vec::new();
        found.push(across_at(links, cell, true));
        found.push(across_at(links, cell, false));
        found.push(surface_near(links, cell.row, cell.col, 0, -1));
        found.push(surface_near(links, cell.row, cell.col, 0, 1));
        let ghost row = cell.row as int;
        let ghost col = cell.col as int;
        let ghost m = maze_of(*links);
        proof {
            assert(found@ =~= seq![
                across(m, row, col, true),
                across(m, row, col, false),
                surface(m, row, col - 1),
                surface(m, row, col + 1),
            ]);
            assert forall|n: Node| #[trigger] found@.contains(Some(n)) implies TriangleCell::is_node(
                n,
            ) by {
                let j = choose|j: int| 0 <= j < found@.len() && found@[j] == Some(n);
            }
        }
        let list: Vec<TriangleCell> = crate::rect::present_cells(&found);
        proof {
            assert forall|i: int| 0 <= i < list.len() implies m.has_cell(#[trigger] list[i].node())
                && list[i].node() != cell.node() by {
                let n = list[i].node();
                assert(crate::cell::nodes_of(list@)[i] == n);
                crate::rect::lemma_present_contains(found@, n);
                let j = choose|j: int| 0 <= j < found@.len() && found@[j] == Some(n);
            }
        }
        list
    }
}

impl Grid<Triangle> {
    /// The number of columns.
    pub fn num_cols(&self) -> (n: usize)
        ensures
            n == self.kind().cols,
    {
        self.topology().cols
    }

    /// In a triangle grid adjacent triangles are triangles of the grid,
    /// adjacent to each other; and in one of two columns or more a walk
    /// from triangle to adjacent triangle leads from every triangle to every
    /// other.
    pub proof fn lemma_topology(&self)
        requires
            self.wf(),
        ensures
            self.evenly_adjacent(),
            self.kind().cols >= 2 ==> self.all_reachable(),
    {
        let rows = self.kind().rows as nat;
        let cols = self.kind().cols as nat;
        assert forall|a: Node, i: int|
            self@.has_cell(a) && 0 <= i < self.kind().adjacent(self@, a).len() implies {
            let b = #[trigger] self.kind().adjacent(self@, a)[i];
            self@.has_cell(b) && self.kind().adjacent(self@, b).contains(a)
        } by {
            let adj = self.kind().adjacent(self@, a);
            let b = adj[i];
            assert(adj.contains(b));
            lemma_triangle_around(self@, rows, cols, a, b);
        }
        if cols >= 2 {
            assert forall|a: Node, b: Node| self@.has_cell(a) && self@.has_cell(b) implies #[trigger] self.reaches(
                a,
                b,
            ) by {
                self.lemma_reaches(a, b);
            }
        }
    }

    /// In a triangle grid of two columns or more a walk from triangle to
    /// adjacent triangle leads from every triangle to every other.
    pub proof fn lemma_reaches(&self, a: Node, b: Node)
        requires
            self.wf(),
            self.kind().cols >= 2,
            self@.has_cell(a),
            self@.has_cell(b),
        ensures
            self.reaches(a, b),
        decreases triangle_far(a, b).0, triangle_far(a, b).1,
    {
        let rows = self.kind().rows as nat;
        let cols = self.kind().cols as nat;
        lemma_grid_cells_contains(rows, cols, a);
        lemma_grid_cells_contains(rows, cols, b);
        if a == b {
            self.lemma_reaches_self(a);
        } else {
            let s = triangle_step(cols, a, b);
            lemma_grid_cells_contains(rows, cols, s);
            let found = triangle_places(self@, s.0 as int, s.1 as int);
            crate::rect::lemma_present_contains(found, b);
            if s.1 == b.1 {
                if s.0 < b.0 {
                    assert(found[1] == Some(b));
                } else {
                    assert(found[0] == Some(b));
                }
            } else if s.1 < b.1 {
                assert(found[3] == Some(b));
            } else {
                assert(found[2] == Some(b));
            }
            self.lemma_reaches(a, s);
            self.lemma_reaches_step(a, s, b);
        }
    }

    /// The triangle at a row and column, if the grid has one there.
    pub fn get(&self, row: isize, col: isize) -> (cell: Option<TriangleCell>)
        requires
            self.wf(),
        ensures
            node_opt(cell) == surface(self@, row as int, col as int),
    {
        cell_opt(surface_at(self.graph(), row, col))
    }

    /// The triangle to the north, which only a triangle that points down has.
    pub fn north(&self, cell: TriangleCell) -> (found: Option<TriangleCell>)
        requires
            self.wf(),
        ensures
            node_opt(found) == across(self@, cell.row as int, cell.col as int, true),
    {
        cell_opt(across_at(self.graph(), cell, true))
    }

    /// The triangle to the south, which only a triangle that points up has.
    pub fn south(&self, cell: TriangleCell) -> (found: Option<TriangleCell>)
        requires
            self.wf(),
        ensures
            node_opt(found) == across(self@, cell.row as int, cell.col as int, false),
    {
        cell_opt(across_at(self.graph(), cell, false))
    }

    /// The cell to the west, if there is one.
    pub fn west(&self, cell: TriangleCell) -> (found: Option<TriangleCell>)
        requires
            self.wf(),
        ensures
            node_opt(found) == surface(self@, cell.row as int, cell.col - 1),
    {
        cell_opt(surface_near(self.graph(), cell.row, cell.col, 0, -1))
    }

    /// The cell to the east, if there is one.
    pub fn east(&self, cell: TriangleCell) -> (found: Option<TriangleCell>)
        requires
            self.wf(),
        ensures
            node_opt(found) == surface(self@, cell.row as int, cell.col + 1),
    {
        cell_opt(surface_near(self.graph(), cell.row, cell.col, 0, 1))
    }
}

} // verus!
