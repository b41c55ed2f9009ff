//! The hex topology: hexagonal cells in rows and columns, every other
//! column half a row lower.

use crate::cell::CellKind;
use crate::cell::HexCell;
use crate::cell::cell_opt;
use crate::cell::node_opt;
use crate::graph::LinkGraph;
use crate::graph::Node;
use crate::graph::graph_add_edge;
use crate::graph::graph_nodes;
use crate::grid::Grid;
use crate::kind::Kind;
use crate::model::Maze;
use crate::model::lemma_edge_key;
use crate::model::maze_of;
use crate::rect::fill_rect;
use crate::rect::found_cells;
use crate::rect::grid_cells;
use crate::rect::lemma_grid_cells_contains;
use crate::rect::present;
use crate::rect::surface;
use crate::rect::surface_at;
use crate::rect::surface_near;
use vstd::prelude::*;

verus! {

/// A rectangle of hexagonal cells.
pub struct Hex {
    pub rows: usize,
    pub cols: usize,
}

impl Hex {
    /// The topology of a grid of so many rows and columns.
    pub fn new(rows: usize, cols: usize) -> (k: Self)
        ensures
            k.rows == rows,
            k.cols == cols,
    {
        Self { rows, cols }
    }
}

/// The row of the hexes north-west and north-east of a hex in column `col`
/// of row `row`.
pub open spec fn north_diagonal(row: int, col: int) -> int {
    if col % 2 == 0 {
        row - 1
    } else {
        row
    }
}

/// The row of the hexes south-west and south-east of a hex in column `col`
/// of row `row`.
pub open spec fn south_diagonal(row: int, col: int) -> int {
    if col % 2 == 0 {
        row
    } else {
        row + 1
    }
}

/// The hexes around a place: north-west, north, north-east, south-west,
/// south and south-east, those that the maze has.
pub open spec fn hex_around(m: Maze, row: int, col: int) -> Seq<Node> {
    present(hex_places(m, row, col))
}

/// How many rows the north-western hex is away: one up in even columns,
/// none in odd ones.
fn north_step(col: isize) -> (dr: i8)
    ensures
        dr == (if col % 2 == 0 {
            -1int
        } else {
            0int
        }),
{
    if col % 2 == 0 {
        -1
    } else {
        0
    }
}

/// How many rows the south-western hex is away: none in even columns, one
/// down in odd ones.
fn south_step(col: isize) -> (dr: i8)
    ensures
        dr == (if col % 2 == 0 {
            0int
        } else {
            1int
        }),
{
    if col % 2 == 0 {
        0
    } else {
        1
    }
}

/// The six places around a hex.
pub open spec fn hex_places(m: Maze, row: int, col: int) -> Seq<Option<Node>> {
    seq![
        surface(m, north_diagonal(row, col), col - 1),
        surface(m, row - 1, col),
        surface(m, north_diagonal(row, col), col + 1),
        surface(m, south_diagonal(row, col), col - 1),
        surface(m, row + 1, col),
        surface(m, south_diagonal(row, col), col + 1),
    ]
}

/// A hex next to a hex in its row or column is adjacent to it.
pub proof fn lemma_hex_step(m: Maze, rows: nat, cols: nat, s: Node, b: Node)
    requires
        rows <= isize::MAX,
        cols <= isize::MAX,
        m.cells == grid_cells(rows, cols),
        m.has_cell(s),
        m.has_cell(b),
        (s.0 == b.0 && (s.1 - b.1 == 1 || b.1 - s.1 == 1)) || (s.1 == b.1 && (s.0 - b.0 == 1 || b.0
            - s.0 == 1)),
    ensures
        hex_around(m, s.0 as int, s.1 as int).contains(b),
{
    lemma_grid_cells_contains(rows, cols, s);
    lemma_grid_cells_contains(rows, cols, b);
    let found = hex_places(m, s.0 as int, s.1 as int);
    crate::rect::lemma_present_contains(found, b);
    let row = s.0 as int;
    let col = s.1 as int;
    if s.1 == b.1 {
        if b.0 < s.0 {
            assert(found[1] == Some(b));
        } else {
            assert(found[4] == Some(b));
        }
    } else if b.1 < s.1 {
        if col % 2 == 0 {
            assert(found[3] == Some(b));
        } else {
            assert(found[0] == Some(b));
        }
    } else {
        if col % 2 == 0 {
            assert(found[5] == Some(b));
        } else {
            assert(found[2] == Some(b));
        }
    }
}

/// A hex adjacent to a hex is a hex of the maze, and has the hex among those
/// adjacent to it.
pub proof fn lemma_hex_around(m: Maze, rows: nat, cols: nat, a: Node, b: Node)
    requires
        rows <= isize::MAX,
        cols <= isize::MAX,
        m.cells == grid_cells(rows, cols),
        m.has_cell(a),
        hex_around(m, a.0 as int, a.1 as int).contains(b),
    ensures
        m.has_cell(b),
        hex_around(m, b.0 as int, b.1 as int).contains(a),
{
    lemma_grid_cells_contains(rows, cols, a);
    let found = hex_places(m, a.0 as int, a.1 as int);
    crate::rect::lemma_present_contains(found, b);
    let j = choose|j: int| 0 <= j < found.len() && found[j] == Some(b);
    let back = hex_places(m, b.0 as int, b.1 as int);
    crate::rect::lemma_present_contains(back, a);
    if j == 0 {
        assert(back[5] == Some(a));
    } else if j == 1 {
        assert(back[4] == Some(a));
    } else if j == 2 {
        assert(back[3] == Some(a));
    } else if j == 3 {
        assert(back[2] == Some(a));
    } else if j == 4 {
        assert(back[1] == Some(a));
    } else {
        assert(back[0] == Some(a));
    }
}

impl Kind for Hex {
    type Cell = HexCell;

    open spec fn valid(&self) -> bool {
        self.rows <= isize::MAX && self.cols <= isize::MAX
    }

    open spec fn first_cells(&self) -> Seq<Node> {
        grid_cells(self.rows as nat, self.cols as nat)
    }

    open spec fn cells_ok(&self, cells: Seq<Node>) -> bool {
        cells == grid_cells(self.rows as nat, self.cols as nat)
    }

    open spec fn adjacent(&self, m: Maze, n: Node) -> Seq<Node> {
        hex_around(m, n.0 as int, n.1 as int)
    }

    open spec fn steady(&self, cells: Seq<Node>, n: Node) -> Seq<Node> {
        self.adjacent(Maze { cells, edges: Set::empty() }, n)
    }

    proof fn lemma_steady(&self, m: Maze, n: Node) {
        let bare = Maze { cells: m.cells, edges: Set::empty() };
        self.lemma_flat(bare, m, n);
        let adj = self.adjacent(m, n);
        assert forall|i: int| 0 <= i < adj.len() implies adj.contains(#[trigger] adj[i]) by {}
    }

    proof fn lemma_steady_linked(&self, m: Maze, a: Node, b: Node, n: Node) {
        assert(self.linking(m, a, b).cells == m.cells);
    }

    open spec fn flat(&self) -> bool {
        true
    }

    open spec fn linking(&self, m: Maze, a: Node, b: Node) -> Maze {
        m.connect(a, b)
    }

    open spec fn near(&self, cells: Seq<Node>, a: Node, b: Node) -> bool {
        self.steady(cells, a).contains(b) || self.steady(cells, b).contains(a)
    }

    proof fn lemma_near(&self, m: Maze, a: Node, b: Node) {
        crate::model::lemma_connect_links(m, a, b);
        self.lemma_steady(m, a);
    }

    proof fn lemma_flat(&self, a: Maze, b: Maze, n: Node) {
    }

    open spec fn row_count(&self) -> usize {
        self.rows
    }

    fn num_rows(&self) -> (n: usize) {
        self.rows
    }

    fn prepare_grid(&self) -> (g: LinkGraph) {
        let g = fill_rect(self.rows, self.cols);
        proof {
            assert forall|n: Node| #[trigger] graph_nodes(g).contains(n) implies HexCell::is_node(n) by {
                lemma_grid_cells_contains(self.rows as nat, self.cols as nat, n);
            }
        }
        g
    }

    fn link(&self, links: &mut LinkGraph, cell: HexCell, other: HexCell) {
        proof {
            lemma_edge_key(cell.node(), other.node());
        }
        graph_add_edge(links, cell.to_node(), other.to_node());
        assert(maze_of(*links).cells =~= maze_of(*old(links)).cells);
    }

    fn neighbours(&self, links: &LinkGraph, cell: HexCell) -> (list: Vec<HexCell>) {
        let up = north_step(cell.col);
        let down = south_step(cell.col);
        let mut found: Vec<Option<Node>> = Vec::new();
        found.push(surface_near(links, cell.row, cell.col, up, -1));
        found.push(surface_near(links, cell.row, cell.col, -1, 0));
        found.push(surface_near(links, cell.row, cell.col, up, 1));
        found.push(surface_near(links, cell.row, cell.col, down, -1));
        found.push(surface_near(links, cell.row, cell.col, 1, 0));
        found.push(surface_near(links, cell.row, cell.col, down, 1));
        let ghost row = cell.row as int;
        let ghost col = cell.col as int;
        let ghost places = seq![
            (north_diagonal(row, col), col - 1),
            (row - 1, col),
            (north_diagonal(row, col), col + 1),
            (south_diagonal(row, col), col - 1),
            (row + 1, col),
            (south_diagonal(row, col), col + 1),
        ];
        proof {
            assert(found@ =~= seq![
                surface(maze_of(*links), north_diagonal(row, col), col - 1),
                surface(maze_of(*links), row - 1, col),
                surface(maze_of(*links), north_diagonal(row, col), col + 1),
                surface(maze_of(*links), south_diagonal(row, col), col - 1),
                surface(maze_of(*links), row + 1, col),
                surface(maze_of(*links), south_diagonal(row, col), col + 1),
            ]);
        }
        found_cells(links, &found, Ghost(places))
    }
}

impl Grid<Hex> {
    /// The number of columns.
    pub fn num_cols(&self) -> (n: usize)
        ensures
            n == self.kind().cols,
    {
        self.topology().cols
    }

    /// In a hex grid adjacent hexes are hexes of the grid, adjacent to each
    /// other, and a walk from hex to adjacent hex leads from every hex to
    /// every other.
    pub proof fn lemma_topology(&self)
        requires
            self.wf(),
        ensures
            self.evenly_adjacent(),
            self.all_reachable(),
    {
        let rows = self.kind().rows as nat;
        let cols = self.kind().cols as nat;
        assert forall|a: Node, i: int|
            self@.has_cell(a) && 0 <= i < self.kind().adjacent(self@, a).len() implies {
            let b = #[trigger] self.kind().adjacent(self@, a)[i];
            self@.has_cell(b) && self.kind().adjacent(self@, b).contains(a)
        } by {
            let adj = self.kind().adjacent(self@, a);
            let b = adj[i];
            assert(adj.contains(b));
            lemma_hex_around(self@, rows, cols, a, b);
        }
        assert forall|a: Node, b: Node| self@.has_cell(a) && self@.has_cell(b) implies #[trigger] self.reaches(
            a,
            b,
        ) by {
            self.lemma_reaches(a, b);
        }
    }

    /// A walk from hex to adjacent hex leads from every hex to every other.
    pub proof fn lemma_reaches(&self, a: Node, b: Node)
        requires
            self.wf(),
            self@.has_cell(a),
            self@.has_cell(b),
        ensures
            self.reaches(a, b),
        decreases vstd::math::abs(b.0 - a.0) + vstd::math::abs(b.1 - a.1),
    {
        let rows = self.kind().rows as nat;
        let cols = self.kind().cols as nat;
        lemma_grid_cells_contains(rows, cols, a);
        lemma_grid_cells_contains(rows, cols, b);
        if a == b {
            self.lemma_reaches_self(a);
        } else {
            let m = crate::rect::step_towards(a, b);
            lemma_grid_cells_contains(rows, cols, m);
            lemma_hex_step(self@, rows, cols, m, b);
            self.lemma_reaches(a, m);
            self.lemma_reaches_step(a, m, b);
        }
    }

    /// The hex at a row and column, if the grid has one there.
    pub fn get(&self, row: isize, col: isize) -> (cell: Option<HexCell>)
        requires
            self.wf(),
        ensures
            node_opt(cell) == surface(self@, row as int, col as int),
    {
        cell_opt(surface_at(self.graph(), row, col))
    }

    /// The hex to the north-west, if there is one.
    pub fn north_west(&self, cell: HexCell) -> (found: Option<HexCell>)
        requires
            self.wf(),
        ensures
            node_opt(found) == surface(
                self@,
                north_diagonal(cell.row as int, cell.col as int),
                cell.col - 1,
            ),
    {
        cell_opt(surface_near(self.graph(), cell.row, cell.col, north_step(cell.col), -1))
    }

    /// The cell to the north, if there is one.
    pub fn north(&self, cell: HexCell) -> (found: Option<HexCell>)
        requires
            self.wf(),
        ensures
            node_opt(found) == surface(self@, cell.row - 1, cell.col as int),
    {
        cell_opt(surface_near(self.graph(), cell.row, cell.col, -1, 0))
    }

    /// The hex to the north-east, if there is one.
    pub fn north_east(&self, cell: HexCell) -> (found: Option<HexCell>)
        requires
            self.wf(),
        ensures
            node_opt(found) == surface(
                self@,
                north_diagonal(cell.row as int, cell.col as int),
                cell.col + 1,
            ),
    {
        cell_opt(surface_near(self.graph(), cell.row, cell.col, north_step(cell.col), 1))
    }

    /// The hex to the south-west, if there is one.
    pub fn south_west(&self, cell: HexCell) -> (found: Option<HexCell>)
        requires
            self.wf(),
        ensures
            node_opt(found) == surface(
                self@,
                south_diagonal(cell.row as int, cell.col as int),
                cell.col - 1,
            ),
    {
        cell_opt(surface_near(self.graph(), cell.row, cell.col, south_step(cell.col), -1))
    }

    /// The cell to the south, if there is one.
    pub fn south(&self, cell: HexCell) -> (found: Option<HexCell>)
        requires
            self.wf(),
        ensures
            node_opt(found) == surface(self@, cell.row + 1, cell.col as int),
    {
        cell_opt(surface_near(self.graph(), cell.row, cell.col, 1, 0))
    }

    /// The hex to the south-east, if there is one.
    pub fn south_east(&self, cell: HexCell) -> (found: Option<HexCell>)
        requires
            self.wf(),
        ensures
            node_opt(found) == surface(
                self@,
                south_diagonal(cell.row as int, cell.col as int),
                cell.col + 1,
            ),
    {
        cell_opt(surface_near(self.graph(), cell.row, cell.col, south_step(cell.col), 1))
    }

    /// The hex in the next column of the same row, if there is one.
    pub fn get_next_in_row(&self, cell: HexCell) -> (found: Option<HexCell>)
        requires
            self.wf(),
        ensures
            node_opt(found) == surface(self@, cell.row as int, cell.col + 1),
    {
        cell_opt(surface_near(self.graph(), cell.row, cell.col, 0, 1))
    }

    /// The cells row by row, each row from west to east.
    pub fn rows(&self) -> (list: Vec<Vec<HexCell>>)
        requires
            self.wf(),
        ensures
            list.len() == self.kind().rows,
            forall|r: int| 0 <= r < list.len() ==> (#[trigger] list[r]).len() == self.kind().cols,
            forall|r: int, c: int|
                0 <= r < self.kind().rows && 0 <= c < self.kind().cols ==> (
                #[trigger] list[r][c]).node() == (r as isize, c as isize, 0usize),
    {
        crate::rect::rect_rows(self.topology().rows, self.topology().cols)
    }
}

} // verus!
