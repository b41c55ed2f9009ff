//! The masked topology: square cells at the open places of a mask.

use crate::braid::lemma_filter_distinct;
use crate::cell::CellKind;
use crate::cell::RegularCell;
use crate::cell::cell_opt;
use crate::cell::node_opt;
use crate::graph::LinkGraph;
use crate::graph::Node;
use crate::graph::graph_add_edge;
use crate::graph::graph_add_node;
use crate::graph::graph_new;
use crate::graph::graph_nodes;
use crate::grid::Grid;
use crate::kind::Kind;
use crate::mask::Mask;
use crate::model::Maze;
use crate::model::lemma_edge_key;
use crate::model::maze_of;
use crate::rect::compass;
use crate::rect::compass_cells;
use crate::rect::grid_cells;
use crate::rect::lemma_grid_cells_contains;
use crate::rect::lemma_grid_cells_distinct;
use crate::rect::row_cells;
use crate::rect::surface;
use crate::rect::surface_at;
use crate::rect::surface_near;
use vstd::prelude::*;

verus! {

/// The places that a mask leaves open.
pub struct Masked(pub Mask);

impl Masked {
    /// The topology of the open places of a mask.
    pub fn new(mask: Mask) -> (k: Self)
        ensures
            k.0 == mask,
    {
        Self(mask)
    }
}

/// The test for nodes at open places of a mask.
pub open spec fn open_nodes(mask: Mask) -> spec_fn(Node) -> bool {
    |n: Node| mask.open_at(n.0 as int, n.1 as int)
}

/// The surface cells at the open places of a mask, row by row.
pub open spec fn masked_cells(mask: Mask) -> Seq<Node> {
    grid_cells(mask.rows(), mask.cols()).filter(open_nodes(mask))
}

impl Kind for Masked {
    type Cell = RegularCell;

    open spec fn valid(&self) -> bool {
        self.0.wf() && self.0.rows() <= isize::MAX && self.0.cols() <= isize::MAX
    }

    open spec fn first_cells(&self) -> Seq<Node> {
        masked_cells(self.0)
    }

    open spec fn cells_ok(&self, cells: Seq<Node>) -> bool {
        cells == masked_cells(self.0)
    }

    open spec fn adjacent(&self, m: Maze, n: Node) -> Seq<Node> {
        compass(m, n.0 as int, n.1 as int)
    }

    open spec fn steady(&self, cells: Seq<Node>, n: Node) -> Seq<Node> {
        self.adjacent(Maze { cells, edges: Set::empty() }, n)
    }

    proof fn lemma_steady(&self, m: Maze, n: Node) {
        let bare = Maze { cells: m.cells, edges: Set::empty() };
        self.lemma_flat(bare, m, n);
        let adj = self.adjacent(m, n);
        assert forall|i: int| 0 <= i < adj.len() implies adj.contains(#[trigger] adj[i]) by {}
    }

    proof fn lemma_steady_linked(&self, m: Maze, a: Node, b: Node, n: Node) {
        assert(self.linking(m, a, b).cells == m.cells);
    }

    open spec fn flat(&self) -> bool {
        true
    }

    open spec fn linking(&self, m: Maze, a: Node, b: Node) -> Maze {
        m.connect(a, b)
    }

    open spec fn near(&self, cells: Seq<Node>, a: Node, b: Node) -> bool {
        self.steady(cells, a).contains(b) || self.steady(cells, b).contains(a)
    }

    proof fn lemma_near(&self, m: Maze, a: Node, b: Node) {
        crate::model::lemma_connect_links(m, a, b);
        self.lemma_steady(m, a);
    }

    proof fn lemma_flat(&self, a: Maze, b: Maze, n: Node) {
    }

    open spec fn row_count(&self) -> usize {
        self.0.rows() as usize
    }

    fn num_rows(&self) -> (n: usize) {
        self.0.num_rows()
    }

    fn prepare_grid(&self) -> (g: LinkGraph) {
        let rows = self.0.num_rows();
        let cols = self.0.num_cols();
        let ghost keep = open_nodes(self.0);
        let mut g = graph_new();
        let mut row: usize = 0;
        proof {
            assert(grid_cells(0, cols as nat).filter(keep) =~= Seq::<Node>::empty()) by {
                reveal(Seq::filter);
            }
        }
        while row < rows
            invariant
                row <= rows,
                self.valid(),
                rows == self.0.rows(),
                cols == self.0.cols(),
                keep == open_nodes(self.0),
                graph_nodes(g) == grid_cells(row as nat, cols as nat).filter(keep),
                maze_of(g).edges == Set::<(Node, Node)>::empty(),
            decreases rows - row,
        {
            let mut col: usize = 0;
            proof {
                assert(row_cells(row as int, 0).filter(keep) =~= Seq::<Node>::empty()) by {
                    reveal(Seq::filter);
                }
            }
            while col < cols
                invariant
                    row < rows,
                    col <= cols,
                    self.valid(),
                    rows == self.0.rows(),
                    cols == self.0.cols(),
                    keep == open_nodes(self.0),
                    graph_nodes(g) == grid_cells(row as nat, cols as nat).filter(keep) + row_cells(
                        row as int,
                        col as nat,
                    ).filter(keep),
                    maze_of(g).edges == Set::<(Node, Node)>::empty(),
                decreases cols - col,
            {
                let n: Node = (row as isize, col as isize, 0);
                proof {
                    let a = grid_cells(row as nat, cols as nat);
                    let b = row_cells(row as int, col as nat);
                    assert(row_cells(row as int, (col + 1) as nat) =~= b.push(n));
                    b.lemma_filter_push(n, keep);
                    if (a.filter(keep) + b.filter(keep)).contains(n) {
                        let i = choose|i: int|
                            0 <= i < (a.filter(keep) + b.filter(keep)).len() && (a.filter(keep)
                                + b.filter(keep))[i] == n;
                        if i < a.filter(keep).len() {
                            assert(a.filter(keep).contains(n));
                            a.lemma_filter_contains_rev(keep, n);
                            lemma_grid_cells_contains(row as nat, cols as nat, n);
                        } else {
                            assert(b.filter(keep).contains(b.filter(keep)[i - a.filter(keep).len()]));
                            b.lemma_filter_contains_rev(keep, n);
                            let j = choose|j: int| 0 <= j < b.len() && b[j] == n;
                        }
                    }
                    assert((a.filter(keep) + b.filter(keep)).push(n) =~= a.filter(keep) + b.filter(
                        keep,
                    ).push(n));
                }
                if self.0.get(row, col) {
                    graph_add_node(&mut g, n);
                }
                col += 1;
            }
            proof {
                let a = grid_cells(row as nat, cols as nat);
                let b = row_cells(row as int, cols as nat);
                assert(grid_cells((row + 1) as nat, cols as nat) == a + b);
                Seq::filter_distributes_over_add(a, b, keep);
            }
            row += 1;
        }
        proof {
            lemma_grid_cells_distinct(rows as nat, cols as nat);
            lemma_filter_distinct(grid_cells(rows as nat, cols as nat), keep);
            assert forall|n: Node| #[trigger] graph_nodes(g).contains(n) implies RegularCell::is_node(
                n,
            ) by {
                grid_cells(rows as nat, cols as nat).lemma_filter_contains_rev(keep, n);
                lemma_grid_cells_contains(rows as nat, cols as nat, n);
            }
        }
        g
    }

    fn link(&self, links: &mut LinkGraph, cell: RegularCell, other: RegularCell) {
        proof {
            lemma_edge_key(cell.node(), other.node());
        }
        graph_add_edge(links, cell.to_node(), other.to_node());
        assert(maze_of(*links).cells =~= maze_of(*old(links)).cells);
    }

    fn neighbours(&self, links: &LinkGraph, cell: RegularCell) -> (list: Vec<RegularCell>) {
        compass_cells(links, cell.row, cell.col)
    }
}

impl Grid<Masked> {
    /// The number of columns.
    pub fn num_cols(&self) -> (n: usize)
        ensures
            n == self.kind().0.cols(),
    {
        self.topology().0.num_cols()
    }

    /// A masked grid has a cell exactly at the open places of its mask.
    pub proof fn lemma_cells(&self, row: int, col: int)
        requires
            self.wf(),
        ensures
            surface(self@, row, col) is Some <==> self.kind().0.open_at(row, col),
    {
        let mask = self.kind().0;
        let all = grid_cells(mask.rows(), mask.cols());
        if isize::MIN <= row <= isize::MAX && isize::MIN <= col <= isize::MAX {
            let n = (row as isize, col as isize, 0usize);
            lemma_grid_cells_contains(mask.rows(), mask.cols(), n);
            if self@.has_cell(n) {
                all.lemma_filter_contains_rev(open_nodes(mask), n);
                let j = choose|j: int| 0 <= j < self@.cells.len() && self@.cells[j] == n;
                all.lemma_filter_pred(open_nodes(mask), j);
            }
            if mask.open_at(row, col) {
                let j = choose|j: int| 0 <= j < all.len() && all[j] == n;
                all.lemma_filter_contains(open_nodes(mask), j);
            }
        }
    }

    /// In a masked grid adjacent cells are cells of the grid, adjacent to
    /// each other.
    pub proof fn lemma_topology(&self)
        requires
            self.wf(),
        ensures
            self.evenly_adjacent(),
    {
        assert forall|a: Node, i: int|
            self@.has_cell(a) && 0 <= i < self.kind().adjacent(self@, a).len() implies {
            let b = #[trigger] self.kind().adjacent(self@, a)[i];
            self@.has_cell(b) && self.kind().adjacent(self@, b).contains(a)
        } by {
            let adj = self.kind().adjacent(self@, a);
            let b = adj[i];
            assert(adj.contains(b));
            assert(RegularCell::is_node(a));
            crate::rect::lemma_compass(self@, a, b);
        }
    }

    /// The cell at a row and column, if the grid has one there.
    pub fn get(&self, row: isize, col: isize) -> (cell: Option<RegularCell>)
        requires
            self.wf(),
        ensures
            node_opt(cell) == surface(self@, row as int, col as int),
    {
        cell_opt(surface_at(self.graph(), row, col))
    }

    /// The cell to the north, if there is one.
    pub fn north(&self, cell: RegularCell) -> (found: Option<RegularCell>)
        requires
            self.wf(),
        ensures
            node_opt(found) == surface(self@, cell.row - 1, cell.col as int),
    {
        cell_opt(surface_near(self.graph(), cell.row, cell.col, -1, 0))
    }

    /// The cell to the south, if there is one.
    pub fn south(&self, cell: RegularCell) -> (found: Option<RegularCell>)
        requires
            self.wf(),
        ensures
            node_opt(found) == surface(self@, cell.row + 1, cell.col as int),
    {
        cell_opt(surface_near(self.graph(), cell.row, cell.col, 1, 0))
    }

    /// The cell to the west, if there is one.
    pub fn west(&self, cell: RegularCell) -> (found: Option<RegularCell>)
        requires
            self.wf(),
        ensures
            node_opt(found) == surface(self@, cell.row as int, cell.col - 1),
    {
        cell_opt(surface_near(self.graph(), cell.row, cell.col, 0, -1))
    }

    /// The cell to the east, if there is one.
    pub fn east(&self, cell: RegularCell) -> (found: Option<RegularCell>)
        requires
            self.wf(),
        ensures
            node_opt(found) == surface(self@, cell.row as int, cell.col + 1),
    {
        cell_opt(surface_near(self.graph(), cell.row, cell.col, 0, 1))
    }
}

} // verus!
