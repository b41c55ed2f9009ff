//! The weighted topology: square cells in rows and columns, each with a
//! weight that a walk pays for entering it.

use crate::cell::CellKind;
use crate::cell::WeightedCell;
use crate::cell::cell_opt;
use crate::cell::node_opt;
use crate::cell::nodes_of;
use crate::graph::LinkGraph;
use crate::graph::Node;
use crate::graph::edge_key;
use crate::graph::graph_add_edge;
use crate::graph::graph_add_node;
use crate::graph::graph_neighbors;
use crate::graph::graph_new;
use crate::graph::graph_node_list;
use crate::graph::graph_nodes;
use crate::graph::graph_remove_node;
use crate::graph::swap_removed;
use crate::grid::Grid;
use crate::kind::Kind;
use crate::model::Maze;
use crate::model::lemma_edge_key;
use crate::model::maze_of;
use crate::rect::grid_cells;
use crate::rect::lemma_grid_cells_contains;
use crate::rect::lemma_grid_cells_distinct;
use crate::rect::present;
use crate::rect::present_cells;
use crate::rect::row_cells;
use vstd::prelude::*;

verus! {

/// A rectangle of weighted square cells.
pub struct Weighted {
    pub rows: usize,
    pub cols: usize,
}

impl Weighted {
    /// The topology of a grid of so many rows and columns.
    pub fn new(rows: usize, cols: usize) -> (k: Self)
        ensures
            k.rows == rows,
            k.cols == cols,
    {
        Self { rows, cols }
    }
}

/// The place of a node: the surface node in its row and column.
pub open spec fn spot(n: Node) -> Node {
    (n.0, n.1, 0usize)
}

/// The places of a list of nodes.
pub open spec fn spots(cells: Seq<Node>) -> Seq<Node> {
    Seq::new(cells.len(), |i: int| spot(cells[i]))
}

/// The first cell of a list that lies in a row and column.
pub open spec fn first_at(cells: Seq<Node>, row: int, col: int) -> Option<Node>
    decreases cells.len(),
{
    if cells.len() == 0 {
        None
    } else {
        match first_at(cells.drop_last(), row, col) {
            Some(n) => Some(n),
            None => if cells.last().0 == row && cells.last().1 == col {
                Some(cells.last())
            } else {
                None
            },
        }
    }
}

/// What [`first_at`] finds is a cell of the list in that row and column, and
/// it finds one if there is one.
pub proof fn lemma_first_at(cells: Seq<Node>, row: int, col: int)
    ensures
        match first_at(cells, row, col) {
            Some(n) => cells.contains(n) && n.0 == row && n.1 == col,
            None => forall|i: int|
                0 <= i < cells.len() ==> !((#[trigger] cells[i]).0 == row && cells[i].1 == col),
        },
    decreases cells.len(),
{
    if cells.len() > 0 {
        let front = cells.drop_last();
        lemma_first_at(front, row, col);
        match first_at(front, row, col) {
            Some(n) => {
                let i = choose|i: int| 0 <= i < front.len() && front[i] == n;
                assert(cells[i] == n);
            },
            None => {
                assert forall|i: int| 0 <= i < cells.len() - 1 implies !((#[trigger] cells[i]).0
                    == row && cells[i].1 == col) by {
                    assert(front[i] == cells[i]);
                }
                if cells.last().0 == row && cells.last().1 == col {
                    assert(cells[cells.len() - 1] == cells.last());
                }
            },
        }
    }
}

/// What is found in a list is found in every longer list.
pub proof fn lemma_first_at_prefix(cells: Seq<Node>, k: int, row: int, col: int)
    requires
        0 <= k <= cells.len(),
        first_at(cells.take(k), row, col) is Some,
    ensures
        first_at(cells, row, col) == first_at(cells.take(k), row, col),
    decreases cells.len() - k,
{
    if k < cells.len() {
        assert(cells.take(k + 1).drop_last() =~= cells.take(k));
        lemma_first_at_prefix(cells, k + 1, row, col);
    } else {
        assert(cells.take(k) =~= cells);
    }
}

/// The weighted cell at a place that may lie outside the machine's integers.
pub open spec fn weighted_at(m: Maze, row: int, col: int) -> Option<Node> {
    first_at(m.cells, row, col)
}

/// The weighted cells to the north, south, west and east of a place.
pub open spec fn weighted_around(m: Maze, row: int, col: int) -> Seq<Node> {
    present(weighted_places(m, row, col))
}

/// Looks through the nodes of a graph for the first in a row and column.
pub(crate) fn find_at(links: &LinkGraph, row: i128, col: i128) -> (found: Option<Node>)
    ensures
        found == weighted_at(maze_of(*links), row as int, col as int),
{
    let nodes = graph_node_list(links);
    let mut i: usize = 0;
    while i < nodes.len()
        invariant
            i <= nodes.len(),
            nodes@ == graph_nodes(*links),
            first_at(nodes@.take(i as int), row as int, col as int) is None,
        decreases nodes.len() - i,
    {
        let n = nodes[i];
        proof {
            assert(nodes@.take(i + 1).drop_last() =~= nodes@.take(i as int));
        }
        if n.0 as i128 == row && n.1 as i128 == col {
            proof {
                lemma_first_at_prefix(nodes@, i + 1, row as int, col as int);
            }
            return Some(n);
        }
        i += 1;
    }
    assert(nodes@.take(nodes.len() as int) =~= nodes@);
    None
}

/// The cells of a rectangle, row by row, each of weight 1.
pub open spec fn weighted_cells(rows: nat, cols: nat) -> Seq<Node> {
    Seq::new(
        grid_cells(rows, cols).len(),
        |i: int| (grid_cells(rows, cols)[i].0, grid_cells(rows, cols)[i].1, 1usize),
    )
}

/// Whether a cell list has exactly one cell at every place of a rectangle,
/// and none elsewhere.
pub open spec fn one_per_place(cells: Seq<Node>, rows: nat, cols: nat) -> bool {
    &&& spots(cells).no_duplicates()
    &&& forall|n: Node| spots(cells).contains(n) <==> grid_cells(rows, cols).contains(n)
}

/// In a cell list with one cell per place of a rectangle, the cell at a
/// place is found exactly where the place lies in the rectangle, and it is
/// the only cell of the list in its row and column.
pub proof fn lemma_one_per_place(cells: Seq<Node>, rows: nat, cols: nat, row: int, col: int)
    requires
        rows <= isize::MAX,
        cols <= isize::MAX,
        one_per_place(cells, rows, cols),
    ensures
        first_at(cells, row, col) is Some <==> crate::rect::in_rect(rows, cols, row, col),
        forall|x: Node|
            cells.contains(x) && x.0 == row && x.1 == col ==> first_at(cells, row, col) == Some(x),
{
    lemma_first_at(cells, row, col);
    if isize::MIN <= row <= isize::MAX && isize::MIN <= col <= isize::MAX {
        let p = (row as isize, col as isize, 0usize);
        lemma_grid_cells_contains(rows, cols, p);
        if crate::rect::in_rect(rows, cols, row, col) {
            assert(spots(cells).contains(p));
            let i = choose|i: int| 0 <= i < cells.len() && spots(cells)[i] == p;
            assert(cells[i].0 == row && cells[i].1 == col);
        }
        match first_at(cells, row, col) {
            Some(n) => {
                let i = choose|i: int| 0 <= i < cells.len() && cells[i] == n;
                assert(spots(cells)[i] == p);
                assert(spots(cells).contains(p));
            },
            None => {},
        }
    }
    assert forall|x: Node| cells.contains(x) && x.0 == row && x.1 == col implies first_at(
        cells,
        row,
        col,
    ) == Some(x) by {
        let i = choose|i: int| 0 <= i < cells.len() && cells[i] == x;
        let n = first_at(cells, row, col)->Some_0;
        let j = choose|j: int| 0 <= j < cells.len() && cells[j] == n;
        assert(spots(cells)[i] == spots(cells)[j]);
    }
}

/// The four places around a weighted cell.
pub open spec fn weighted_places(m: Maze, row: int, col: int) -> Seq<Option<Node>> {
    seq![
        weighted_at(m, row - 1, col),
        weighted_at(m, row + 1, col),
        weighted_at(m, row, col - 1),
        weighted_at(m, row, col + 1),
    ]
}

/// A cell next to a cell in its row or column is adjacent to it.
pub proof fn lemma_weighted_beside(m: Maze, rows: nat, cols: nat, a: Node, b: Node)
    requires
        rows <= isize::MAX,
        cols <= isize::MAX,
        one_per_place(m.cells, rows, cols),
        m.has_cell(a),
        m.has_cell(b),
        (a.0 == b.0 && (a.1 - b.1 == 1 || b.1 - a.1 == 1)) || (a.1 == b.1 && (a.0 - b.0 == 1 || b.0
            - a.0 == 1)),
    ensures
        weighted_around(m, a.0 as int, a.1 as int).contains(b),
{
    let found = weighted_places(m, a.0 as int, a.1 as int);
    crate::rect::lemma_present_contains(found, b);
    lemma_one_per_place(m.cells, rows, cols, b.0 as int, b.1 as int);
    if a.1 == b.1 {
        if b.0 < a.0 {
            assert(found[0] == Some(b));
        } else {
            assert(found[1] == Some(b));
        }
    } else if b.1 < a.1 {
        assert(found[2] == Some(b));
    } else {
        assert(found[3] == Some(b));
    }
}

/// A cell adjacent to a cell is a cell of the maze, beside it.
pub proof fn lemma_weighted_around(m: Maze, rows: nat, cols: nat, a: Node, b: Node)
    requires
        rows <= isize::MAX,
        cols <= isize::MAX,
        one_per_place(m.cells, rows, cols),
        m.has_cell(a),
        weighted_around(m, a.0 as int, a.1 as int).contains(b),
    ensures
        m.has_cell(b),
        weighted_around(m, b.0 as int, b.1 as int).contains(a),
{
    let row = a.0 as int;
    let col = a.1 as int;
    let found = weighted_places(m, row, col);
    crate::rect::lemma_present_contains(found, b);
    let j = choose|j: int| 0 <= j < found.len() && found[j] == Some(b);
    lemma_first_at(m.cells, row - 1, col);
    lemma_first_at(m.cells, row + 1, col);
    lemma_first_at(m.cells, row, col - 1);
    lemma_first_at(m.cells, row, col + 1);
    assert(m.has_cell(b));
    lemma_weighted_beside(m, rows, cols, b, a);
}

impl Kind for Weighted {
    type Cell = WeightedCell;

    open spec fn valid(&self) -> bool {
        self.rows <= isize::MAX && self.cols <= isize::MAX
    }

    open spec fn first_cells(&self) -> Seq<Node> {
        weighted_cells(self.rows as nat, self.cols as nat)
    }

    open spec fn cells_ok(&self, cells: Seq<Node>) -> bool {
        one_per_place(cells, self.rows as nat, self.cols as nat)
    }

    open spec fn adjacent(&self, m: Maze, n: Node) -> Seq<Node> {
        weighted_around(m, n.0 as int, n.1 as int)
    }

    open spec fn steady(&self, cells: Seq<Node>, n: Node) -> Seq<Node> {
        self.adjacent(Maze { cells, edges: Set::empty() }, n)
    }

    proof fn lemma_steady(&self, m: Maze, n: Node) {
        let bare = Maze { cells: m.cells, edges: Set::empty() };
        self.lemma_flat(bare, m, n);
        let adj = self.adjacent(m, n);
        assert forall|i: int| 0 <= i < adj.len() implies adj.contains(#[trigger] adj[i]) by {}
    }

    proof fn lemma_steady_linked(&self, m: Maze, a: Node, b: Node, n: Node) {
        assert(self.linking(m, a, b).cells == m.cells);
    }

    open spec fn flat(&self) -> bool {
        true
    }

    open spec fn linking(&self, m: Maze, a: Node, b: Node) -> Maze {
        m.connect(a, b)
    }

    open spec fn near(&self, cells: Seq<Node>, a: Node, b: Node) -> bool {
        self.steady(cells, a).contains(b) || self.steady(cells, b).contains(a)
    }

    proof fn lemma_near(&self, m: Maze, a: Node, b: Node) {
        crate::model::lemma_connect_links(m, a, b);
        self.lemma_steady(m, a);
    }

    proof fn lemma_flat(&self, a: Maze, b: Maze, n: Node) {
    }

    open spec fn row_count(&self) -> usize {
        self.rows
    }

    fn num_rows(&self) -> (n: usize) {
        self.rows
    }

    fn prepare_grid(&self) -> (g: LinkGraph) {
        let rows = self.rows;
        let cols = self.cols;
        let mut g = graph_new();
        let mut row: usize = 0;
        assert(spots(graph_nodes(g)) =~= grid_cells(0, cols as nat));
        while row < rows
            invariant
                row <= rows,
                rows <= isize::MAX,
                cols <= isize::MAX,
                spots(graph_nodes(g)) == grid_cells(row as nat, cols as nat),
                forall|i: int| 0 <= i < graph_nodes(g).len() ==> (#[trigger] graph_nodes(g)[i]).2 == 1,
                maze_of(g).edges == Set::<(Node, Node)>::empty(),
            decreases rows - row,
        {
            let mut col: usize = 0;
            assert(grid_cells(row as nat, cols as nat) + row_cells(row as int, 0) =~= grid_cells(
                row as nat,
                cols as nat,
            ));
            while col < cols
                invariant
                    row < rows,
                    col <= cols,
                    rows <= isize::MAX,
                    cols <= isize::MAX,
                    spots(graph_nodes(g)) == grid_cells(row as nat, cols as nat) + row_cells(
                        row as int,
                        col as nat,
                    ),
                    forall|i: int|
                        0 <= i < graph_nodes(g).len() ==> (#[trigger] graph_nodes(g)[i]).2 == 1,
                    maze_of(g).edges == Set::<(Node, Node)>::empty(),
                decreases cols - col,
            {
                let n: Node = (row as isize, col as isize, 1);
                let ghost before = graph_nodes(g);
                proof {
                    let a = grid_cells(row as nat, cols as nat);
                    let b = row_cells(row as int, col as nat);
                    if before.contains(n) {
                        let i = choose|i: int| 0 <= i < before.len() && before[i] == n;
                        assert(spots(before)[i] == spot(n));
                        if i < a.len() {
                            assert(a.contains(a[i]));
                            lemma_grid_cells_contains(row as nat, cols as nat, spot(n));
                        } else {
                            let k = i - a.len();
                            assert((a + b).len() == before.len());
                            assert(0 <= k < b.len());
                            assert((a + b)[i] == b[k]);
                            assert(b[k] == (row as isize, k as isize, 0usize));
                        }
                    }
                    assert(spots(before.push(n)) =~= (a + b).push(spot(n)));
                    assert((a + b).push(spot(n)) =~= a + row_cells(row as int, (col + 1) as nat));
                }
                graph_add_node(&mut g, n);
                col += 1;
            }
            assert(grid_cells((row + 1) as nat, cols as nat) == grid_cells(row as nat, cols as nat)
                + row_cells(row as int, cols as nat));
            row += 1;
        }
        proof {
            lemma_grid_cells_distinct(rows as nat, cols as nat);
            let cells = graph_nodes(g);
            assert forall|i: int, j: int| 0 <= i < j < cells.len() implies cells[i] != cells[j] by {
                assert(spots(cells)[i] != spots(cells)[j]);
            }
            assert(cells.len() == spots(cells).len());
            assert forall|i: int| 0 <= i < cells.len() implies cells[i] == weighted_cells(
                rows as nat,
                cols as nat,
            )[i] by {
                assert(spots(cells)[i] == grid_cells(rows as nat, cols as nat)[i]);
                assert(cells[i].2 == 1);
            }
            assert(cells =~= weighted_cells(rows as nat, cols as nat));
        }
        g
    }

    fn link(&self, links: &mut LinkGraph, cell: WeightedCell, other: WeightedCell) {
        proof {
            lemma_edge_key(cell.node(), other.node());
        }
        graph_add_edge(links, cell.to_node(), other.to_node());
        assert(maze_of(*links).cells =~= maze_of(*old(links)).cells);
    }

    fn neighbours(&self, links: &LinkGraph, cell: WeightedCell) -> (list: Vec<WeightedCell>) {
        let row = cell.row as i128;
        let col = cell.col as i128;
        let mut found: Vec<Option<Node>> = Vec::new();
        found.push(find_at(links, row - 1, col));
        found.push(find_at(links, row + 1, col));
        found.push(find_at(links, row, col - 1));
        found.push(find_at(links, row, col + 1));
        let ghost m = maze_of(*links);
        proof {
            assert(found@ =~= seq![
                weighted_at(m, row - 1, col as int),
                weighted_at(m, row + 1, col as int),
                weighted_at(m, row as int, col - 1),
                weighted_at(m, row as int, col + 1),
            ]);
        }
        let list: Vec<WeightedCell> = present_cells(&found);
        proof {
            assert forall|i: int| 0 <= i < list.len() implies m.has_cell(#[trigger] list[i].node())
                && list[i].node() != cell.node() by {
                let n = list[i].node();
                assert(nodes_of(list@)[i] == n);
                crate::rect::lemma_present_contains(found@, n);
                let j = choose|j: int| 0 <= j < found@.len() && found@[j] == Some(n);
                lemma_first_at(m.cells, row - 1, col as int);
                lemma_first_at(m.cells, row + 1, col as int);
                lemma_first_at(m.cells, row as int, col - 1);
                lemma_first_at(m.cells, row as int, col + 1);
            }
        }
        list
    }
}

impl Grid<Weighted> {
    /// The number of columns.
    pub fn num_cols(&self) -> (n: usize)
        ensures
            n == self.kind().cols,
    {
        self.topology().cols
    }

    /// In a weighted grid adjacent cells are cells of the grid, adjacent to
    /// each other, and a walk from cell to adjacent cell leads from every
    /// cell to every other.
    pub proof fn lemma_topology(&self)
        requires
            self.wf(),
        ensures
            self.evenly_adjacent(),
            self.all_reachable(),
    {
        let rows = self.kind().rows as nat;
        let cols = self.kind().cols as nat;
        assert forall|a: Node, i: int|
            self@.has_cell(a) && 0 <= i < self.kind().adjacent(self@, a).len() implies {
            let b = #[trigger] self.kind().adjacent(self@, a)[i];
            self@.has_cell(b) && self.kind().adjacent(self@, b).contains(a)
        } by {
            let adj = self.kind().adjacent(self@, a);
            let b = adj[i];
            assert(adj.contains(b));
            lemma_weighted_around(self@, rows, cols, a, b);
        }
        assert forall|a: Node, b: Node| self@.has_cell(a) && self@.has_cell(b) implies #[trigger] self.reaches(
            a,
            b,
        ) by {
            self.lemma_reaches(a, b);
        }
    }

    /// A walk from cell to adjacent cell leads from every cell to every
    /// other.
    pub proof fn lemma_reaches(&self, a: Node, b: Node)
        requires
            self.wf(),
            self@.has_cell(a),
            self@.has_cell(b),
        ensures
            self.reaches(a, b),
        decreases vstd::math::abs(b.0 - a.0) + vstd::math::abs(b.1 - a.1),
    {
        let rows = self.kind().rows as nat;
        let cols = self.kind().cols as nat;
        let cells = self@.cells;
        if a.0 == b.0 && a.1 == b.1 {
            lemma_one_per_place(cells, rows, cols, a.0 as int, a.1 as int);
            assert(a == b);
            self.lemma_reaches_self(a);
        } else {
            let at = crate::rect::step_towards(a, b);
            lemma_one_per_place(cells, rows, cols, a.0 as int, a.1 as int);
            lemma_one_per_place(cells, rows, cols, b.0 as int, b.1 as int);
            lemma_one_per_place(cells, rows, cols, at.0 as int, at.1 as int);
            lemma_first_at(cells, at.0 as int, at.1 as int);
            let s = first_at(cells, at.0 as int, at.1 as int)->Some_0;
            lemma_weighted_beside(self@, rows, cols, s, b);
            self.lemma_reaches(a, s);
            self.lemma_reaches_step(a, s, b);
        }
    }

    /// The cell at a row and column, whatever its weight, if the grid has
    /// one there.
    pub fn get(&self, row: isize, col: isize) -> (cell: Option<WeightedCell>)
        requires
            self.wf(),
        ensures
            node_opt(cell) == weighted_at(self@, row as int, col as int),
    {
        cell_opt(find_at(self.graph(), row as i128, col as i128))
    }

    /// The cell to the north, if there is one.
    pub fn north(&self, cell: WeightedCell) -> (found: Option<WeightedCell>)
        requires
            self.wf(),
        ensures
            node_opt(found) == weighted_at(self@, cell.row - 1, cell.col as int),
    {
        cell_opt(find_at(self.graph(), cell.row as i128 - 1, cell.col as i128))
    }

    /// The cell to the south, if there is one.
    pub fn south(&self, cell: WeightedCell) -> (found: Option<WeightedCell>)
        requires
            self.wf(),
        ensures
            node_opt(found) == weighted_at(self@, cell.row + 1, cell.col as int),
    {
        cell_opt(find_at(self.graph(), cell.row as i128 + 1, cell.col as i128))
    }

    /// The cell to the west, if there is one.
    pub fn west(&self, cell: WeightedCell) -> (found: Option<WeightedCell>)
        requires
            self.wf(),
        ensures
            node_opt(found) == weighted_at(self@, cell.row as int, cell.col - 1),
    {
        cell_opt(find_at(self.graph(), cell.row as i128, cell.col as i128 - 1))
    }

    /// The cell to the east, if there is one.
    pub fn east(&self, cell: WeightedCell) -> (found: Option<WeightedCell>)
        requires
            self.wf(),
        ensures
            node_opt(found) == weighted_at(self@, cell.row as int, cell.col + 1),
    {
        cell_opt(find_at(self.graph(), cell.row as i128, cell.col as i128 + 1))
    }

    /// Gives the cell in a row and column a new weight. As the weight is
    /// part of a cell, the cell leaves the grid, the last cell taking its
    /// place in the enumeration, and a cell with the new weight comes in as
    /// the last one, with a link to every cell that the old one was linked
    /// to. There must be a cell in that row and column, and it must not be
    /// linked to itself.
    pub fn set_weight(&mut self, row: isize, col: isize, weight: usize)
        requires
            old(self).wf(),
            weighted_at(old(self)@, row as int, col as int) is Some,
            !old(self)@.linked(
                weighted_at(old(self)@, row as int, col as int)->Some_0,
                weighted_at(old(self)@, row as int, col as int)->Some_0,
            ),
        ensures
            final(self).wf(),
            final(self).kind() == old(self).kind(),
            final(self).marks() == old(self).marks(),
            final(self)@ == reweighed(
                old(self)@,
                weighted_at(old(self)@, row as int, col as int)->Some_0,
                weight,
            ),
    {
        let found = find_at(&self.links, row as i128, col as i128);
        let cell = found.unwrap();
        let fresh: Node = (row, col, weight);
        let ghost pre = self@;
        let ghost at = pre.cells.index_of(cell);
        proof {
            lemma_first_at(pre.cells, row as int, col as int);
            lemma_swap_removed(pre.cells, at);
        }
        let connected = graph_neighbors(&self.links, cell);
        graph_remove_node(&mut self.links, cell);
        let ghost rest = swap_removed(pre.cells, at);
        let ghost kept = pre.edges.filter(|e: (Node, Node)| e.0 != cell && e.1 != cell);
        proof {
            assert(!rest.contains(fresh)) by {
                if rest.contains(fresh) {
                    let i = choose|i: int| 0 <= i < pre.cells.len() && pre.cells[i] == fresh;
                    assert(spots(pre.cells)[i] == spots(pre.cells)[at]);
                }
            }
            assert(rest.push(fresh)[rest.len() as int] == fresh);
        }
        graph_add_node(&mut self.links, fresh);
        let mut j: usize = 0;
        while j < connected.len()
            invariant
                j <= connected.len(),
                self.kind() == old(self).kind(),
                self.marks() == old(self).marks(),
                pre == old(self)@,
                pre.wf(),
                pre.has_cell(cell),
                !pre.linked(cell, cell),
                at == pre.cells.index_of(cell),
                rest == swap_removed(pre.cells, at),
                kept == pre.edges.filter(|e: (Node, Node)| e.0 != cell && e.1 != cell),
                fresh == (row, col, weight),
                rest.no_duplicates(),
                forall|n: Node| rest.contains(n) <==> pre.cells.contains(n) && n != cell,
                forall|b: Node| #[trigger] connected@.contains(b) <==> pre.linked(cell, b),
                self@.cells == rest.push(fresh),
                self@.edges.finite(),
                forall|e: (Node, Node)| #[trigger]
                    self@.edges.contains(e) ==> kept.contains(e) || exists|k: int|
                        0 <= k < j && #[trigger] relink_at(connected@, fresh, k, e),
                forall|e: (Node, Node)| #[trigger] kept.contains(e) ==> self@.edges.contains(e),
                forall|k: int|
                    0 <= k < j ==> self@.edges.contains(
                        #[trigger] edge_key(fresh, connected[k]),
                    ),
            decreases connected.len() - j,
        {
            let other = connected[j];
            proof {
                assert(connected@.contains(other));
                pre.lemma_linked_cells(cell, other);
                assert(rest.contains(other));
                let i = choose|i: int| 0 <= i < rest.len() && rest[i] == other;
                assert(rest.push(fresh)[i] == other);
                assert(rest.push(fresh)[rest.len() as int] == fresh);
            }
            let ghost before = self@.edges;
            graph_add_edge(&mut self.links, fresh, other);
            proof {
                assert forall|e: (Node, Node)| #[trigger]
                    self@.edges.contains(e) implies kept.contains(e) || exists|k: int|
                    0 <= k < j + 1 && #[trigger] relink_at(connected@, fresh, k, e) by {
                    if before.contains(e) && !kept.contains(e) {
                        let k = choose|k: int|
                            0 <= k < j && #[trigger] relink_at(connected@, fresh, k, e);
                        assert(0 <= k < j + 1 && relink_at(connected@, fresh, k, e));
                    }
                    if e == edge_key(fresh, other) {
                        assert(0 <= j < j + 1 && relink_at(connected@, fresh, j as int, e));
                    }
                }
                assert forall|k: int| 0 <= k < j + 1 implies self@.edges.contains(
                    #[trigger] edge_key(fresh, connected[k]),
                ) by {
                    if k < j {
                        assert(before.contains(edge_key(fresh, connected[k])));
                    }
                }
            }
            j += 1;
        }
        proof {
            let post = reweighed(pre, cell, weight);
            assert(fresh == (cell.0, cell.1, weight));
            assert forall|e: (Node, Node)| self@.edges.contains(e) <==> post.edges.contains(e) by {
                if self@.edges.contains(e) && !kept.contains(e) {
                    let k = choose|k: int|
                        0 <= k < connected.len() && #[trigger] relink_at(connected@, fresh, k, e);
                    assert(connected@.contains(connected[k]));
                    assert(relinked(pre, cell, fresh, connected[k], e));
                }
                if post.edges.contains(e) && !kept.contains(e) {
                    let other = choose|other: Node| #[trigger] relinked(pre, cell, fresh, other, e);
                    assert(connected@.contains(other));
                    let k = choose|k: int| 0 <= k < connected.len() && connected[k] == other;
                    assert(self@.edges.contains(edge_key(fresh, connected[k])));
                }
            }
            assert(self@.edges =~= post.edges);
            assert(self@ == post);
            lemma_reweighed_ok(pre, self.kind().rows as nat, self.kind().cols as nat, cell, weight);
        }
    }
}

/// Whether `e` links `fresh` to the cell at place `k` of a list.
pub open spec fn relink_at(list: Seq<Node>, fresh: Node, k: int, e: (Node, Node)) -> bool {
    e == edge_key(fresh, list[k])
}

/// Whether `e` is the link that stands for the link between `cell` and
/// `other` once `fresh` has taken the place of `cell`.
pub open spec fn relinked(m: Maze, cell: Node, fresh: Node, other: Node, e: (Node, Node)) -> bool {
    m.linked(cell, other) && e == edge_key(fresh, other)
}

/// The maze in which `cell` has left and a cell of the given weight in the
/// same row and column has come in as the last cell, with the links of
/// `cell`.
pub open spec fn reweighed(m: Maze, cell: Node, weight: usize) -> Maze {
    let fresh = (cell.0, cell.1, weight);
    Maze {
        cells: swap_removed(m.cells, m.cells.index_of(cell)).push(fresh),
        edges: Set::new(
            |e: (Node, Node)|
                (m.edges.contains(e) && e.0 != cell && e.1 != cell) || exists|other: Node| #[trigger]
                    relinked(m, cell, fresh, other, e),
        ),
    }
}

/// A list without repetitions from which one element was taken by swapping
/// holds every other element, once.
pub proof fn lemma_swap_removed(cells: Seq<Node>, i: int)
    requires
        cells.no_duplicates(),
        0 <= i < cells.len(),
    ensures
        swap_removed(cells, i).no_duplicates(),
        swap_removed(cells, i).len() == cells.len() - 1,
        forall|n: Node| swap_removed(cells, i).contains(n) <==> cells.contains(n) && n != cells[i],
{
    let rest = swap_removed(cells, i);
    assert forall|n: Node| rest.contains(n) <==> cells.contains(n) && n != cells[i] by {
        if rest.contains(n) {
            let k = choose|k: int| 0 <= k < rest.len() && rest[k] == n;
            if k == i {
                assert(cells[cells.len() - 1] == n);
            } else {
                assert(cells[k] == n);
            }
        }
        if cells.contains(n) && n != cells[i] {
            let k = choose|k: int| 0 <= k < cells.len() && cells[k] == n;
            if k == cells.len() - 1 {
                assert(rest[i] == n);
            } else {
                assert(rest[k] == n);
            }
        }
    }
}

/// A maze with one cell per place stays one, and wellformed, when a cell
/// gets a new weight.
pub proof fn lemma_reweighed_ok(m: Maze, rows: nat, cols: nat, cell: Node, weight: usize)
    requires
        m.wf(),
        m.has_cell(cell),
        !m.linked(cell, cell),
        one_per_place(m.cells, rows, cols),
        reweighed(m, cell, weight).edges.finite(),
    ensures
        reweighed(m, cell, weight).wf(),
        one_per_place(reweighed(m, cell, weight).cells, rows, cols),
{
    let post = reweighed(m, cell, weight);
    let fresh = (cell.0, cell.1, weight);
    let at = m.cells.index_of(cell);
    let rest = swap_removed(m.cells, at);
    assert(0 <= at < m.cells.len() && m.cells[at] == cell);
    lemma_swap_removed(m.cells, at);
    assert(post.cells =~= rest.push(fresh));
    assert(post.cells[rest.len() as int] == fresh);
    assert forall|n: Node| post.cells.contains(n) <==> rest.contains(n) || n == fresh by {
        if rest.contains(n) {
            let k = choose|k: int| 0 <= k < rest.len() && rest[k] == n;
            assert(post.cells[k] == n);
        }
        if post.cells.contains(n) {
            let k = choose|k: int| 0 <= k < post.cells.len() && post.cells[k] == n;
            if k < rest.len() {
                assert(rest[k] == n);
            }
        }
    }
    assert forall|n: Node| rest.contains(n) implies spot(n) != spot(cell) by {
        let a = choose|a: int| 0 <= a < m.cells.len() && m.cells[a] == n;
        assert(spots(m.cells)[a] == spot(n));
        assert(spots(m.cells)[at] == spot(cell));
    }
    if rest.contains(fresh) {
        assert(spot(fresh) != spot(cell));
    }
    assert forall|e: (Node, Node)| #[trigger] post.edges.contains(e) implies crate::graph::node_le(
        e.0,
        e.1,
    ) && post.has_cell(e.0) && post.has_cell(e.1) by {
        if m.edges.contains(e) && e.0 != cell && e.1 != cell {
            assert(m.has_cell(e.0) && m.has_cell(e.1));
            assert(rest.contains(e.0) && rest.contains(e.1));
            assert(post.cells.contains(e.0) && post.cells.contains(e.1));
        } else {
            let other = choose|other: Node| #[trigger] relinked(m, cell, fresh, other, e);
            lemma_edge_key(fresh, other);
            m.lemma_linked_cells(cell, other);
            assert(rest.contains(other));
            assert(post.cells.contains(other) && post.cells.contains(fresh));
        }
    }
    assert forall|a: int, b: int| 0 <= a < b < post.cells.len() implies spots(post.cells)[a]
        != spots(post.cells)[b] by {
        assert(post.cells.contains(post.cells[a]));
        if b < rest.len() {
            assert(rest[a] != rest[b]);
            let x = choose|x: int| 0 <= x < m.cells.len() && m.cells[x] == rest[a];
            let y = choose|y: int| 0 <= y < m.cells.len() && m.cells[y] == rest[b];
            assert(rest.contains(rest[a]) && rest.contains(rest[b]));
            assert(spots(m.cells)[x] != spots(m.cells)[y]);
        } else {
            assert(rest.contains(rest[a]));
        }
    }
    assert forall|n: Node| spots(post.cells).contains(n) <==> grid_cells(rows, cols).contains(n) by {
        if spots(post.cells).contains(n) {
            let k = choose|k: int| 0 <= k < post.cells.len() && spots(post.cells)[k] == n;
            if k < rest.len() {
                assert(rest.contains(rest[k]));
                let x = choose|x: int| 0 <= x < m.cells.len() && m.cells[x] == rest[k];
                assert(spots(m.cells)[x] == n);
            } else {
                assert(spots(m.cells)[at] == n);
            }
            assert(spots(m.cells).contains(n));
        }
        if grid_cells(rows, cols).contains(n) {
            assert(spots(m.cells).contains(n));
            let x = choose|x: int| 0 <= x < m.cells.len() && spots(m.cells)[x] == n;
            if m.cells[x] == cell {
                assert(spots(post.cells)[rest.len() as int] == n);
            } else {
                assert(m.cells.contains(m.cells[x]));
                assert(rest.contains(m.cells[x]));
                let k = choose|k: int| 0 <= k < rest.len() && rest[k] == m.cells[x];
                assert(spots(post.cells)[k] == n);
            }
        }
    }
}

} // verus!
