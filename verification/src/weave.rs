//! The weave topology: square cells in rows and columns, where a passage
//! may run in a tunnel beneath another.

use crate::cell::CellKind;
use crate::cell::OverCell;
use crate::cell::UnderCell;
use crate::cell::WeaveCell;
use crate::cell::cell_opt;
use crate::cell::node_opt;
use crate::cell::nodes_of;
use crate::graph::LinkGraph;
use crate::graph::Node;
use crate::graph::graph_add_edge;
use crate::graph::graph_add_node;
use crate::graph::graph_contains_edge;
use crate::graph::graph_contains_node;
use crate::graph::graph_nodes;
use crate::grid::Grid;
use crate::kind::Kind;
use crate::model::Maze;
use crate::model::lemma_edge_key;
use crate::model::maze_of;
use crate::model::tunnelled;
use crate::rect::compass;
use crate::rect::fill_rect;
use crate::rect::grid_cells;
use crate::rect::in_rect;
use crate::rect::lemma_grid_cells_contains;
use crate::rect::lemma_present_contains;
use crate::rect::present;
use crate::rect::present_cells;
use crate::rect::surface;
use crate::rect::surface_near;
use vstd::prelude::*;

verus! {

/// A rectangle of square cells with tunnels. A preconfigured grid offers no
/// cell beyond a passage as a neighbour: its tunnels are those that the
/// generator digs itself.
pub struct Weave {
    pub rows: usize,
    pub cols: usize,
    pub is_preconfigured: bool,
}

impl Weave {
    /// The topology of a grid of so many rows and columns.
    pub fn new(rows: usize, cols: usize) -> (k: Self)
        ensures
            k.rows == rows,
            k.cols == cols,
            !k.is_preconfigured,
    {
        Self { rows, cols, is_preconfigured: false }
    }
}

/// Whether two cells lie in one row or in one column, one step apart or,
/// with a passage or a tunnel between them, two.
pub open spec fn in_line(a: Node, b: Node) -> bool {
    ||| a.0 == b.0 && (a.1 - b.1 == 1 || b.1 - a.1 == 1 || a.1 - b.1 == 2 || b.1 - a.1 == 2)
    ||| a.1 == b.1 && (a.0 - b.0 == 1 || b.0 - a.0 == 1 || a.0 - b.0 == 2 || b.0 - a.0 == 2)
}

/// A cell that is listed around a place lies in line with it.
pub proof fn lemma_around_in_line(m: Maze, a: Node, b: Node, plain: bool)
    requires
        (if plain {
            compass(m, a.0 as int, a.1 as int)
        } else {
            weave_around(m, a.0 as int, a.1 as int)
        }).contains(b),
    ensures
        in_line(a, b),
{
    let row = a.0 as int;
    let col = a.1 as int;
    if plain {
        let found = seq![
            surface(m, row - 1, col),
            surface(m, row + 1, col),
            surface(m, row, col - 1),
            surface(m, row, col + 1),
        ];
        lemma_present_contains(found, b);
        let j = choose|j: int| 0 <= j < found.len() && found[j] == Some(b);
    } else {
        let found = seq![
            surface(m, row - 1, col),
            surface(m, row + 1, col),
            surface(m, row, col - 1),
            surface(m, row, col + 1),
            beyond(m, row, col, -1, 0),
            beyond(m, row, col, 1, 0),
            beyond(m, row, col, 0, -1),
            beyond(m, row, col, 0, 1),
        ];
        lemma_present_contains(found, b);
        let j = choose|j: int| 0 <= j < found.len() && found[j] == Some(b);
    }
}

/// The tunnel cell beneath the surface cell between two cells lies in line
/// with both.
pub proof fn lemma_between_in_line(m: Maze, a: Node, b: Node)
    ensures
        between(m, a, b) is Some ==> in_line(a, under(between(m, a, b)->Some_0)) && in_line(
            under(between(m, a, b)->Some_0),
            b,
        ),
{
}

/// A link that linking two cells in line adds joins two cells in line.
pub proof fn lemma_linked_in_line(m: Maze, a: Node, b: Node, x: Node, y: Node)
    requires
        in_line(a, b),
        between(m, a, b) is Some ==> in_line(a, under(between(m, a, b)->Some_0)) && in_line(
            under(between(m, a, b)->Some_0),
            b,
        ),
        weave_linked(m, a, b).linked(x, y),
        !m.linked(x, y),
    ensures
        in_line(x, y),
{
    if weave_linked(m, a, b) == m.connect(a, b) {
        crate::model::lemma_edge_key_eq(x, y, a, b);
    } else {
        let u = under(between(m, a, b)->Some_0);
        if crate::graph::edge_key(x, y) == crate::graph::edge_key(a, u) {
            crate::model::lemma_edge_key_eq(x, y, a, u);
        } else {
            crate::model::lemma_edge_key_eq(x, y, u, b);
        }
    }
}

/// The tunnel cell beneath a place.
pub open spec fn under(x: Node) -> Node {
    (x.0, x.1, 1usize)
}

/// Whether a cell is linked to the surface cell a few rows and columns away.
pub open spec fn linked_towards(m: Maze, x: Node, dr: int, dc: int) -> bool {
    match surface(m, x.0 + dr, x.1 + dc) {
        Some(y) => m.linked(x, y),
        None => false,
    }
}

/// Whether a cell is a passage from west to east: linked to the cells west
/// and east of it, and not to those north and south of it.
pub open spec fn horizontal_passage(m: Maze, x: Node) -> bool {
    linked_towards(m, x, 0, 1) && linked_towards(m, x, 0, -1) && !linked_towards(m, x, -1, 0)
        && !linked_towards(m, x, 1, 0)
}

/// Whether a cell is a passage from north to south.
pub open spec fn vertical_passage(m: Maze, x: Node) -> bool {
    linked_towards(m, x, -1, 0) && linked_towards(m, x, 1, 0) && !linked_towards(m, x, 0, 1)
        && !linked_towards(m, x, 0, -1)
}

/// The cell two steps away in a direction, if the cell between is a passage
/// across that direction.
pub open spec fn beyond(m: Maze, row: int, col: int, dr: int, dc: int) -> Option<Node> {
    match surface(m, row + dr, col + dc) {
        Some(x) => if (if dr == 0 {
            vertical_passage(m, x)
        } else {
            horizontal_passage(m, x)
        }) {
            surface(m, row + 2 * dr, col + 2 * dc)
        } else {
            None
        },
        None => None,
    }
}

/// The cells around a place of a weave grid: north, south, west and east,
/// and the cells beyond those of them that are passages across.
pub open spec fn weave_around(m: Maze, row: int, col: int) -> Seq<Node> {
    present(
        seq![
            surface(m, row - 1, col),
            surface(m, row + 1, col),
            surface(m, row, col - 1),
            surface(m, row, col + 1),
            beyond(m, row, col, -1, 0),
            beyond(m, row, col, 1, 0),
            beyond(m, row, col, 0, -1),
            beyond(m, row, col, 0, 1),
        ],
    )
}

/// The surface cell that lies between two cells in a straight line, two
/// steps apart.
pub open spec fn between(m: Maze, a: Node, b: Node) -> Option<Node> {
    if surface(m, a.0 - 1, a.1 as int) is Some && surface(m, a.0 - 1, a.1 as int) == surface(
        m,
        b.0 + 1,
        b.1 as int,
    ) {
        surface(m, a.0 - 1, a.1 as int)
    } else if surface(m, a.0 + 1, a.1 as int) is Some && surface(m, a.0 + 1, a.1 as int) == surface(
        m,
        b.0 - 1,
        b.1 as int,
    ) {
        surface(m, a.0 + 1, a.1 as int)
    } else if surface(m, a.0 as int, a.1 + 1) is Some && surface(m, a.0 as int, a.1 + 1) == surface(
        m,
        b.0 as int,
        b.1 - 1,
    ) {
        surface(m, a.0 as int, a.1 + 1)
    } else if surface(m, a.0 as int, a.1 - 1) is Some && surface(m, a.0 as int, a.1 - 1) == surface(
        m,
        b.0 as int,
        b.1 + 1,
    ) {
        surface(m, a.0 as int, a.1 - 1)
    } else {
        None
    }
}

/// The maze with a tunnel cell `u` linked to `a` and to `b`.
pub open spec fn dug(m: Maze, a: Node, u: Node, b: Node) -> Maze {
    m.with_cell(u).connect(a, u).connect(u, b)
}

/// What linking two cells of a weave grid does: where a surface cell lies
/// between them that has no tunnel yet, a tunnel is dug beneath it; else the
/// two cells are linked.
pub open spec fn weave_linked(m: Maze, a: Node, b: Node) -> Maze {
    match between(m, a, b) {
        Some(x) => if m.has_cell(under(x)) {
            m.connect(a, b)
        } else {
            dug(m, a, under(x), b)
        },
        None => m.connect(a, b),
    }
}

/// Whether a cell list begins with the surface cells of a rectangle and goes
/// on with tunnel cells beneath some of them.
pub open spec fn woven(cells: Seq<Node>, rows: nat, cols: nat) -> bool {
    &&& grid_cells(rows, cols).is_prefix_of(cells)
    &&& forall|i: int|
        grid_cells(rows, cols).len() <= i < cells.len() ==> (#[trigger] cells[i]).2 == 1
            && grid_cells(rows, cols).contains((cells[i].0, cells[i].1, 0usize))
}

/// Looks up whether a cell is linked to the surface cell a few rows and
/// columns away.
fn is_linked_towards(links: &LinkGraph, x: Node, dr: i8, dc: i8) -> (linked: bool)
    ensures
        linked == linked_towards(maze_of(*links), x, dr as int, dc as int),
{
    match surface_near(links, x.0, x.1, dr, dc) {
        Some(y) => graph_contains_edge(links, x, y),
        None => false,
    }
}

/// Looks up whether a cell is a passage from west to east.
pub(crate) fn passage_across(links: &LinkGraph, x: Node, horizontal: bool) -> (across: bool)
    ensures
        across == if horizontal {
            horizontal_passage(maze_of(*links), x)
        } else {
            vertical_passage(maze_of(*links), x)
        },
{
    if horizontal {
        is_linked_towards(links, x, 0, 1) && is_linked_towards(links, x, 0, -1)
            && !is_linked_towards(links, x, -1, 0) && !is_linked_towards(links, x, 1, 0)
    } else {
        is_linked_towards(links, x, -1, 0) && is_linked_towards(links, x, 1, 0)
            && !is_linked_towards(links, x, 0, 1) && !is_linked_towards(links, x, 0, -1)
    }
}

/// Looks up the cell two steps away, beyond a passage across.
fn beyond_at(links: &LinkGraph, row: isize, col: isize, dr: i8, dc: i8) -> (found: Option<Node>)
    requires
        -1 <= dr <= 1,
        -1 <= dc <= 1,
    ensures
        found == beyond(maze_of(*links), row as int, col as int, dr as int, dc as int),
{
    match surface_near(links, row, col, dr, dc) {
        Some(x) => if passage_across(links, x, dr != 0) {
            surface_near(links, row, col, 2 * dr, 2 * dc)
        } else {
            None
        },
        None => None,
    }
}

/// Looks up the surface cell between two cells.
fn between_at(links: &LinkGraph, a: Node, b: Node) -> (found: Option<Node>)
    ensures
        found == between(maze_of(*links), a, b),
{
    let north = surface_near(links, a.0, a.1, -1, 0);
    let south = surface_near(links, a.0, a.1, 1, 0);
    let east = surface_near(links, a.0, a.1, 0, 1);
    let west = surface_near(links, a.0, a.1, 0, -1);
    if north.is_some() && same(north, surface_near(links, b.0, b.1, 1, 0)) {
        north
    } else if south.is_some() && same(south, surface_near(links, b.0, b.1, -1, 0)) {
        south
    } else if east.is_some() && same(east, surface_near(links, b.0, b.1, 0, -1)) {
        east
    } else if west.is_some() && same(west, surface_near(links, b.0, b.1, 0, 1)) {
        west
    } else {
        None
    }
}

/// Whether two optional nodes are the same.
fn same(a: Option<Node>, b: Option<Node>) -> (eq: bool)
    ensures
        eq == (a == b),
{
    match (a, b) {
        (Some(x), Some(y)) => x.0 == y.0 && x.1 == y.1 && x.2 == y.2,
        (None, None) => true,
        _ => false,
    }
}

/// Digging a tunnel, or linking, keeps a woven maze woven and wellformed.
pub proof fn lemma_woven_linked(m: Maze, rows: nat, cols: nat, a: Node, b: Node)
    requires
        rows <= isize::MAX,
        cols <= isize::MAX,
        m.wf(),
        woven(m.cells, rows, cols),
        m.has_cell(a),
        m.has_cell(b),
    ensures
        weave_linked(m, a, b).wf(),
        woven(weave_linked(m, a, b).cells, rows, cols),
        crate::model::joined(m, a, b, weave_linked(m, a, b)),
{
    let post = weave_linked(m, a, b);
    lemma_edge_key(a, b);
    match between(m, a, b) {
        Some(x) => {
            if !m.has_cell(under(x)) {
                let u = under(x);
                lemma_dug(m, rows, cols, a, x, b);
                assert(tunnelled(m, a, u, b, post));
            }
        },
        None => {},
    }
}

/// A tunnel beneath a surface cell keeps a woven maze woven and wellformed.
pub proof fn lemma_dug(m: Maze, rows: nat, cols: nat, a: Node, x: Node, b: Node)
    requires
        rows <= isize::MAX,
        cols <= isize::MAX,
        m.wf(),
        woven(m.cells, rows, cols),
        m.has_cell(a),
        m.has_cell(b),
        m.has_cell(x),
        x.2 == 0,
    ensures
        dug(m, a, under(x), b).wf(),
        woven(dug(m, a, under(x), b).cells, rows, cols),
        m.has_cell(under(x)) ==> dug(m, a, under(x), b).cells == m.cells,
        !m.has_cell(under(x)) ==> dug(m, a, under(x), b).cells == m.cells.push(under(x)),
{
    let u = under(x);
    let post = dug(m, a, u, b);
    let base = grid_cells(rows, cols);
    lemma_edge_key(a, u);
    lemma_edge_key(u, b);
    assert(base.contains(x)) by {
        let i = choose|i: int| 0 <= i < m.cells.len() && m.cells[i] == x;
        if i >= base.len() {
            assert(m.cells[i].2 == 1);
        } else {
            assert(base[i] == m.cells[i]);
        }
    }
    if !m.has_cell(u) {
        assert(post.cells == m.cells.push(u));
        assert(post.cells[m.cells.len() as int] == u);
        assert forall|n: Node| m.has_cell(n) implies post.has_cell(n) by {
            let i = choose|i: int| 0 <= i < m.cells.len() && m.cells[i] == n;
            assert(post.cells[i] == n);
        }
        assert forall|i: int| base.len() <= i < post.cells.len() implies (#[trigger] post.cells[i]).2
            == 1 && base.contains((post.cells[i].0, post.cells[i].1, 0usize)) by {
            if i < m.cells.len() {
                assert(post.cells[i] == m.cells[i]);
            }
        }
    }
    assert forall|e: (Node, Node)| #[trigger] post.edges.contains(e) implies crate::graph::node_le(
        e.0,
        e.1,
    ) && post.has_cell(e.0) && post.has_cell(e.1) by {
        if m.edges.contains(e) {
            assert(m.has_cell(e.0) && m.has_cell(e.1));
        }
    }
}

/// A woven maze has a surface cell exactly at the places of its rectangle.
pub proof fn lemma_woven_surface(m: Maze, rows: nat, cols: nat, row: int, col: int)
    requires
        rows <= isize::MAX,
        cols <= isize::MAX,
        woven(m.cells, rows, cols),
    ensures
        surface(m, row, col) is Some <==> in_rect(rows, cols, row, col),
{
    let base = grid_cells(rows, cols);
    if isize::MIN <= row <= isize::MAX && isize::MIN <= col <= isize::MAX {
        let x = (row as isize, col as isize, 0usize);
        lemma_grid_cells_contains(rows, cols, x);
        if m.has_cell(x) {
            let i = choose|i: int| 0 <= i < m.cells.len() && m.cells[i] == x;
            if i < base.len() {
                assert(base[i] == m.cells[i]);
                assert(base.contains(x));
            } else {
                assert(m.cells[i].2 == 1);
            }
        }
        if base.contains(x) {
            let i = choose|i: int| 0 <= i < base.len() && base[i] == x;
            assert(m.cells[i] == x);
        }
    }
}

impl Kind for Weave {
    type Cell = WeaveCell;

    open spec fn valid(&self) -> bool {
        self.rows <= isize::MAX && self.cols <= isize::MAX
    }

    open spec fn first_cells(&self) -> Seq<Node> {
        grid_cells(self.rows as nat, self.cols as nat)
    }

    open spec fn cells_ok(&self, cells: Seq<Node>) -> bool {
        woven(cells, self.rows as nat, self.cols as nat)
    }

    open spec fn adjacent(&self, m: Maze, n: Node) -> Seq<Node> {
        if self.is_preconfigured {
            compass(m, n.0 as int, n.1 as int)
        } else {
            weave_around(m, n.0 as int, n.1 as int)
        }
    }

    open spec fn steady(&self, cells: Seq<Node>, n: Node) -> Seq<Node> {
        if n.2 == 0 {
            compass(Maze { cells, edges: Set::empty() }, n.0 as int, n.1 as int)
        } else {
            Seq::empty()
        }
    }

    proof fn lemma_steady(&self, m: Maze, n: Node) {
        let bare = Maze { cells: m.cells, edges: Set::empty() };
        let row = n.0 as int;
        let col = n.1 as int;
        let near = seq![
            surface(m, row - 1, col),
            surface(m, row + 1, col),
            surface(m, row, col - 1),
            surface(m, row, col + 1),
        ];
        let all = seq![
            surface(m, row - 1, col),
            surface(m, row + 1, col),
            surface(m, row, col - 1),
            surface(m, row, col + 1),
            beyond(m, row, col, -1, 0),
            beyond(m, row, col, 1, 0),
            beyond(m, row, col, 0, -1),
            beyond(m, row, col, 0, 1),
        ];
        assert(compass(bare, row, col) == present(near));
        assert(!self.flat());
        assert forall|i: int| 0 <= i < self.steady(m.cells, n).len() implies self.adjacent(
            m,
            n,
        ).contains(#[trigger] self.steady(m.cells, n)[i]) by {
            let x = self.steady(m.cells, n)[i];
            assert(present(near).contains(x));
            lemma_present_contains(near, x);
            let j = choose|j: int| 0 <= j < near.len() && near[j] == Some(x);
            if !self.is_preconfigured {
                assert(all[j] == Some(x));
                lemma_present_contains(all, x);
            }
        }
    }

    proof fn lemma_steady_linked(&self, m: Maze, a: Node, b: Node, n: Node) {
        let post = weave_linked(m, a, b);
        let bare = Maze { cells: m.cells, edges: Set::empty() };
        let after = Maze { cells: post.cells, edges: Set::empty() };
        assert forall|row: int, col: int| surface(after, row, col) == surface(bare, row, col) by {
            if isize::MIN <= row <= isize::MAX && isize::MIN <= col <= isize::MAX {
                let x = (row as isize, col as isize, 0usize);
                if post.cells != m.cells {
                    let x0 = between(m, a, b)->Some_0;
                    let u = under(x0);
                    assert(post.cells == m.cells.push(u));
                    if m.cells.contains(x) {
                        let i = choose|i: int| 0 <= i < m.cells.len() && m.cells[i] == x;
                        assert(post.cells[i] == x);
                    }
                    if post.cells.contains(x) {
                        let i = choose|i: int| 0 <= i < post.cells.len() && post.cells[i] == x;
                        if i < m.cells.len() {
                            assert(m.cells[i] == x);
                        }
                    }
                }
            }
        }
        let row = n.0 as int;
        let col = n.1 as int;
        assert(surface(after, row - 1, col) == surface(bare, row - 1, col));
        assert(surface(after, row + 1, col) == surface(bare, row + 1, col));
        assert(surface(after, row, col - 1) == surface(bare, row, col - 1));
        assert(surface(after, row, col + 1) == surface(bare, row, col + 1));
        assert(self.linking(m, a, b) == post);
        if !m.has_cell(n) && post.has_cell(n) {
            let i = choose|i: int| 0 <= i < post.cells.len() && post.cells[i] == n;
            if i < m.cells.len() {
                assert(m.cells[i] == n);
            }
            assert(n.2 == 1);
        }
    }

    open spec fn flat(&self) -> bool {
        false
    }

    open spec fn linking(&self, m: Maze, a: Node, b: Node) -> Maze {
        weave_linked(m, a, b)
    }

    open spec fn near(&self, cells: Seq<Node>, a: Node, b: Node) -> bool {
        in_line(a, b)
    }

    proof fn lemma_near(&self, m: Maze, a: Node, b: Node) {
        if self.adjacent(m, a).contains(b) {
            lemma_around_in_line(m, a, b, self.is_preconfigured);
        }
        lemma_between_in_line(m, a, b);
        let post = weave_linked(m, a, b);
        assert forall|x: Node, y: Node| #[trigger] post.linked(x, y) implies m.linked(x, y) || in_line(
            x,
            y,
        ) by {
            if !m.linked(x, y) {
                lemma_linked_in_line(m, a, b, x, y);
            }
        }
    }

    proof fn lemma_flat(&self, a: Maze, b: Maze, n: Node) {
    }

    open spec fn row_count(&self) -> usize {
        self.rows
    }

    fn num_rows(&self) -> (n: usize) {
        self.rows
    }

    fn prepare_grid(&self) -> (g: LinkGraph) {
        let g = fill_rect(self.rows, self.cols);
        proof {
            assert forall|n: Node| #[trigger] graph_nodes(g).contains(n) implies WeaveCell::is_node(
                n,
            ) by {
                lemma_grid_cells_contains(self.rows as nat, self.cols as nat, n);
            }
        }
        g
    }

    fn link(&self, links: &mut LinkGraph, cell: WeaveCell, other: WeaveCell) {
        let a = cell.to_node();
        let b = other.to_node();
        let ghost pre = maze_of(*links);
        proof {
            lemma_woven_linked(pre, self.rows as nat, self.cols as nat, a, b);
            lemma_edge_key(a, b);
        }
        let tunnel = match between_at(links, a, b) {
            Some(x) => if graph_contains_node(links, (x.0, x.1, 1)) {
                None
            } else {
                Some(x)
            },
            None => None,
        };
        match tunnel {
            Some(x) => {
                let u: Node = (x.0, x.1, 1);
                proof {
                    lemma_dug(pre, self.rows as nat, self.cols as nat, a, x, b);
                    lemma_edge_key(a, u);
                    lemma_edge_key(u, b);
                    assert(pre.cells.push(u)[pre.cells.len() as int] == u);
                    assert forall|n: Node| pre.has_cell(n) implies pre.cells.push(u).contains(n) by {
                        let i = choose|i: int| 0 <= i < pre.cells.len() && pre.cells[i] == n;
                        assert(pre.cells.push(u)[i] == n);
                    }
                }
                graph_add_node(links, u);
                graph_add_edge(links, a, u);
                graph_add_edge(links, u, b);
                assert(maze_of(*links).cells =~= pre.cells.push(u));
                assert(maze_of(*links) == dug(pre, a, u, b));
            },
            None => {
                graph_add_edge(links, a, b);
                assert(maze_of(*links).cells =~= pre.cells);
            },
        }
        proof {
            assert forall|n: Node| #[trigger] maze_of(*links).cells.contains(n) implies WeaveCell::is_node(
                n,
            ) by {
                if !pre.has_cell(n) {
                    let i = choose|i: int|
                        0 <= i < maze_of(*links).cells.len() && maze_of(*links).cells[i] == n;
                    if i < pre.cells.len() {
                        assert(pre.cells[i] == n);
                    }
                }
            }
        }
    }

    #[verifier::rlimit(30)]
    fn neighbours(&self, links: &LinkGraph, cell: WeaveCell) -> (list: Vec<WeaveCell>) {
        let n = cell.to_node();
        let ghost m = maze_of(*links);
        let ghost row = n.0 as int;
        let ghost col = n.1 as int;
        let north = surface_near(links, n.0, n.1, -1, 0);
        let south = surface_near(links, n.0, n.1, 1, 0);
        let west = surface_near(links, n.0, n.1, 0, -1);
        let east = surface_near(links, n.0, n.1, 0, 1);
        let mut found: Vec<Option<Node>> = Vec::new();
        found.push(north);
        found.push(south);
        found.push(west);
        found.push(east);
        proof {
            assert(found@ =~= seq![north, south, west, east]);
        }
        if !self.is_preconfigured {
            let north_north = beyond_at(links, n.0, n.1, -1, 0);
            let south_south = beyond_at(links, n.0, n.1, 1, 0);
            let west_west = beyond_at(links, n.0, n.1, 0, -1);
            let east_east = beyond_at(links, n.0, n.1, 0, 1);
            found.push(north_north);
            found.push(south_south);
            found.push(west_west);
            found.push(east_east);
            proof {
                lemma_beyond(m, row, col, -1, 0);
                lemma_beyond(m, row, col, 1, 0);
                lemma_beyond(m, row, col, 0, -1);
                lemma_beyond(m, row, col, 0, 1);
                assert(found@ =~= seq![
                    north,
                    south,
                    west,
                    east,
                    north_north,
                    south_south,
                    west_west,
                    east_east,
                ]);
            }
        }
        proof {
            assert forall|j: int| 0 <= j < found@.len() implies away(m, n, #[trigger] found@[j]) by {}
            assert forall|x: Node| #[trigger] found@.contains(Some(x)) implies WeaveCell::is_node(
                x,
            ) by {
                let j = choose|j: int| 0 <= j < found@.len() && found@[j] == Some(x);
                assert(away(m, n, found@[j]));
            }
        }
        let list: Vec<WeaveCell> = present_cells(&found);
        proof {
            assert forall|i: int| 0 <= i < list.len() implies m.has_cell(#[trigger] list[i].node())
                && list[i].node() != cell.node() by {
                let x = list[i].node();
                assert(nodes_of(list@)[i] == x);
                lemma_present_contains(found@, x);
                let j = choose|j: int| 0 <= j < found@.len() && found@[j] == Some(x);
                assert(away(m, n, found@[j]));
            }
        }
        list
    }
}

/// Whether a place that was looked up holds nothing, or a surface cell of the
/// maze in another row or column than `n`.
pub open spec fn away(m: Maze, n: Node, found: Option<Node>) -> bool {
    match found {
        Some(x) => m.has_cell(x) && x.2 == 0 && (x.0 != n.0 || x.1 != n.1),
        None => true,
    }
}

/// The cell beyond a passage is a surface cell of the maze, two steps away.
pub proof fn lemma_beyond(m: Maze, row: int, col: int, dr: int, dc: int)
    requires
        (dr == 0 && (dc == 1 || dc == -1)) || (dc == 0 && (dr == 1 || dr == -1)),
        isize::MIN <= row <= isize::MAX,
        isize::MIN <= col <= isize::MAX,
    ensures
        away(m, (row as isize, col as isize, 0usize), beyond(m, row, col, dr, dc)),
{
}

impl Grid<Weave> {
    /// The number of columns.
    pub fn num_cols(&self) -> (n: usize)
        ensures
            n == self.kind().cols,
    {
        self.topology().cols
    }

    /// The surface cell at a row and column, if the grid has one there.
    pub fn get(&self, row: isize, col: isize) -> (cell: Option<WeaveCell>)
        requires
            self.wf(),
        ensures
            node_opt(cell) == surface(self@, row as int, col as int),
    {
        cell_opt(crate::rect::surface_at(self.graph(), row, col))
    }

    /// The surface cell north of a cell, or of the cell above a tunnel cell.
    pub fn north(&self, cell: WeaveCell) -> (found: Option<WeaveCell>)
        requires
            self.wf(),
        ensures
            node_opt(found) == surface(self@, cell.node().0 - 1, cell.node().1 as int),
    {
        let n = cell.to_node();
        cell_opt(surface_near(self.graph(), n.0, n.1, -1, 0))
    }

    /// The cell to the south, if there is one.
    pub fn south(&self, cell: WeaveCell) -> (found: Option<WeaveCell>)
        requires
            self.wf(),
        ensures
            node_opt(found) == surface(self@, cell.node().0 + 1, cell.node().1 as int),
    {
        let n = cell.to_node();
        cell_opt(surface_near(self.graph(), n.0, n.1, 1, 0))
    }

    /// The cell to the west, if there is one.
    pub fn west(&self, cell: WeaveCell) -> (found: Option<WeaveCell>)
        requires
            self.wf(),
        ensures
            node_opt(found) == surface(self@, cell.node().0 as int, cell.node().1 - 1),
    {
        let n = cell.to_node();
        cell_opt(surface_near(self.graph(), n.0, n.1, 0, -1))
    }

    /// The cell to the east, if there is one.
    pub fn east(&self, cell: WeaveCell) -> (found: Option<WeaveCell>)
        requires
            self.wf(),
        ensures
            node_opt(found) == surface(self@, cell.node().0 as int, cell.node().1 + 1),
    {
        let n = cell.to_node();
        cell_opt(surface_near(self.graph(), n.0, n.1, 0, 1))
    }

    /// Whether a cell is a passage from west to east and nothing else.
    pub fn is_horizontal_passage(&self, cell: WeaveCell) -> (across: bool)
        requires
            self.wf(),
        ensures
            across == horizontal_passage(self@, cell.node()),
    {
        passage_across(self.graph(), cell.to_node(), true)
    }

    /// Whether a cell is a passage from north to south and nothing else.
    pub fn is_vertical_passage(&self, cell: WeaveCell) -> (across: bool)
        requires
            self.wf(),
        ensures
            across == vertical_passage(self@, cell.node()),
    {
        passage_across(self.graph(), cell.to_node(), false)
    }

    /// Digs a tunnel beneath a surface cell: the tunnel cell beneath `over`
    /// joins the grid, if it is not there yet, and is linked to `cell` and
    /// to `other`. Returns the tunnel cell.
    pub fn tunnel_under(&mut self, cell: WeaveCell, over: OverCell, other: WeaveCell) -> (tunnel:
        WeaveCell)
        requires
            old(self).wf(),
            old(self)@.has_cell(cell.node()),
            old(self)@.has_cell(other.node()),
            old(self)@.has_cell(WeaveCell::Over(over).node()),
        ensures
            final(self).wf(),
            final(self).kind() == old(self).kind(),
            final(self).marks() == old(self).marks(),
            tunnel == WeaveCell::Under(UnderCell { over }),
            final(self)@ == dug(old(self)@, cell.node(), tunnel.node(), other.node()),
    {
        let a = cell.to_node();
        let b = other.to_node();
        let u: Node = (over.row, over.col, 1);
        let ghost pre = self@;
        let ghost x = WeaveCell::Over(over).node();
        proof {
            lemma_dug(pre, self.kind().rows as nat, self.kind().cols as nat, a, x, b);
            lemma_edge_key(a, u);
            lemma_edge_key(u, b);
            if !pre.has_cell(u) {
                assert(pre.cells.push(u)[pre.cells.len() as int] == u);
                assert forall|n: Node| pre.has_cell(n) implies pre.cells.push(u).contains(n) by {
                    let i = choose|i: int| 0 <= i < pre.cells.len() && pre.cells[i] == n;
                    assert(pre.cells.push(u)[i] == n);
                }
            }
        }
        graph_add_node(&mut self.links, u);
        graph_add_edge(&mut self.links, a, u);
        graph_add_edge(&mut self.links, u, b);
        proof {
            assert(self@.cells =~= pre.with_cell(u).cells);
            assert(self@ == dug(pre, a, u, b));
            assert forall|n: Node| #[trigger] self@.cells.contains(n) implies WeaveCell::is_node(n) by {
                if !pre.has_cell(n) {
                    let i = choose|i: int| 0 <= i < self@.cells.len() && self@.cells[i] == n;
                    if i < pre.cells.len() {
                        assert(pre.cells[i] == n);
                    }
                }
            }
        }
        WeaveCell::Under(UnderCell { over })
    }

    /// In a weave grid a walk from surface cell to adjacent surface cell
    /// leads from every surface cell to every other.
    pub proof fn lemma_reaches(&self, a: Node, b: Node)
        requires
            self.wf(),
            self@.has_cell(a),
            self@.has_cell(b),
            a.2 == 0,
            b.2 == 0,
        ensures
            self.reaches(a, b),
        decreases vstd::math::abs(b.0 - a.0) + vstd::math::abs(b.1 - a.1),
    {
        let rows = self.kind().rows as nat;
        let cols = self.kind().cols as nat;
        lemma_woven_surface(self@, rows, cols, a.0 as int, a.1 as int);
        lemma_woven_surface(self@, rows, cols, b.0 as int, b.1 as int);
        if a == b {
            self.lemma_reaches_self(a);
        } else {
            let s = crate::rect::step_towards(a, b);
            lemma_woven_surface(self@, rows, cols, s.0 as int, s.1 as int);
            let bare = Maze { cells: self@.cells, edges: Set::empty() };
            crate::rect::lemma_beside(bare, s, b);
            self.lemma_reaches(a, s);
            self.lemma_reaches_step(a, s, b);
        }
    }

    /// In a weave grid every cell that is adjacent to a cell, whatever the
    /// links are, is a cell of the grid, and such cells are adjacent to each
    /// other.
    pub proof fn lemma_evenly_woven(&self)
        requires
            self.wf(),
        ensures
            self.evenly_steady(),
    {
        let bare = Maze { cells: self@.cells, edges: Set::empty() };
        assert forall|a: Node, i: int|
            self@.has_cell(a) && 0 <= i < self.steady(a).len() implies {
            let b = #[trigger] self.steady(a)[i];
            self@.has_cell(b) && self.steady(b).contains(a)
        } by {
            let near = self.steady(a);
            let b = near[i];
            assert(near.contains(b));
            crate::rect::lemma_compass(bare, a, b);
            let found = seq![
                surface(bare, a.0 - 1, a.1 as int),
                surface(bare, a.0 + 1, a.1 as int),
                surface(bare, a.0 as int, a.1 - 1),
                surface(bare, a.0 as int, a.1 + 1),
            ];
            lemma_present_contains(found, b);
        }
    }

    /// In a weave grid without tunnels cells that are adjacent whatever the
    /// links are are cells of the grid, adjacent to each other, and a walk
    /// from cell to adjacent cell leads from every cell to every other.
    pub proof fn lemma_topology(&self)
        requires
            self.wf(),
            self@.cells == self.kind().first_cells(),
        ensures
            self.evenly_steady(),
            self.all_reachable(),
    {
        self.lemma_evenly_woven();
        assert forall|a: Node, b: Node| self@.has_cell(a) && self@.has_cell(b) implies #[trigger] self.reaches(
            a,
            b,
        ) by {
            lemma_grid_cells_contains(self.kind().rows as nat, self.kind().cols as nat, a);
            lemma_grid_cells_contains(self.kind().rows as nat, self.kind().cols as nat, b);
            self.lemma_reaches(a, b);
        }
    }

    /// A tree in a weave grid that is closed under adjacency, and holds
    /// every tunnel cell, is a perfect maze. This is what the generators
    /// that grow a tree leave of a weave grid without links.
    pub proof fn lemma_woven_perfect(&self, root: Node)
        requires
            self.wf(),
            root.2 == 0,
            self@.grown_from(root),
            self.closed_from(root),
            forall|n: Node| #[trigger] self@.has_cell(n) && n.2 != 0 ==> self@.touched(root).contains(n),
        ensures
            self@.is_perfect(),
    {
        assert forall|n: Node| self@.has_cell(n) implies #[trigger] self.reaches(root, n)
            || self@.touched(root).contains(n) by {
            if n.2 == 0 {
                self.lemma_reaches(root, n);
            }
        }
        self.lemma_closed_perfect(root);
    }
}

} // verus!
