//! Rectangular cell sets and the four compass directions on them, shared by
//! the topologies whose cells lie in rows and columns.

use crate::cell::nodes_of;
use crate::cell::CellKind;
use crate::graph::graph_add_node;
use crate::graph::graph_contains_node;
use crate::graph::graph_new;
use crate::graph::graph_nodes;
use crate::graph::LinkGraph;
use crate::graph::Node;
use crate::model::maze_of;
use crate::model::Maze;
use vstd::prelude::*;
use vstd::seq_lib::lemma_no_dup_in_concat;

verus! {

/// The surface cells of one row, west to east.
pub open spec fn row_cells(row: int, cols: nat) -> Seq<Node> {
    Seq::new(cols, |col: int| (row as isize, col as isize, 0usize))
}

/// The surface cells of a rectangle, row by row from the north, each row west
/// to east.
pub open spec fn grid_cells(rows: nat, cols: nat) -> Seq<Node>
    decreases rows,
{
    if rows == 0 {
        Seq::empty()
    } else {
        grid_cells((rows - 1) as nat, cols) + row_cells(rows - 1, cols)
    }
}

/// Whether a row and a column lie in a rectangle.
pub open spec fn in_rect(rows: nat, cols: nat, row: int, col: int) -> bool {
    0 <= row < rows && 0 <= col < cols
}

/// A rectangle holds exactly the surface cells whose row and column lie in it.
pub proof fn lemma_grid_cells_contains(rows: nat, cols: nat, n: Node)
    requires
        rows <= isize::MAX,
        cols <= isize::MAX,
    ensures
        grid_cells(rows, cols).contains(n) <==> n.2 == 0 && in_rect(rows, cols, n.0 as int, n.1 as int),
    decreases rows,
{
    if rows > 0 {
        lemma_grid_cells_contains((rows - 1) as nat, cols, n);
        let a = grid_cells((rows - 1) as nat, cols);
        let b = row_cells(rows - 1, cols);
        if n.2 == 0 && n.0 == rows - 1 && 0 <= n.1 < cols {
            assert(b[n.1 as int] == n);
            assert((a + b)[a.len() + n.1] == n);
        }
        if a.contains(n) {
            let i = choose|i: int| 0 <= i < a.len() && a[i] == n;
            assert((a + b)[i] == n);
        }
        if (a + b).contains(n) {
            let i = choose|i: int| 0 <= i < (a + b).len() && (a + b)[i] == n;
            if i < a.len() {
                assert(a[i] == n);
            } else {
                assert(b[i - a.len()] == n);
            }
        }
    }
}

/// A rectangle lists no cell twice, and has as many cells as rows times
/// columns.
pub proof fn lemma_grid_cells_distinct(rows: nat, cols: nat)
    requires
        rows <= isize::MAX,
        cols <= isize::MAX,
    ensures
        grid_cells(rows, cols).no_duplicates(),
        grid_cells(rows, cols).len() == rows * cols,
    decreases rows,
{
    if rows > 0 {
        lemma_grid_cells_distinct((rows - 1) as nat, cols);
        let a = grid_cells((rows - 1) as nat, cols);
        let b = row_cells(rows - 1, cols);
        assert forall|i: int, j: int| 0 <= i < a.len() && 0 <= j < b.len() implies a[i] != b[j] by {
            lemma_grid_cells_contains((rows - 1) as nat, cols, a[i]);
            assert(a.contains(a[i]));
        }
        lemma_no_dup_in_concat(a, b);
        assert(rows * cols == (rows - 1) * cols + cols) by (nonlinear_arith);
    } else {
        assert(rows * cols == 0) by (nonlinear_arith)
            requires
                rows == 0,
        ;
    }
}

/// A graph whose nodes are the surface cells of a rectangle, without edges.
pub(crate) fn fill_rect(rows: usize, cols: usize) -> (g: LinkGraph)
    requires
        rows <= isize::MAX,
        cols <= isize::MAX,
    ensures
        graph_nodes(g) == grid_cells(rows as nat, cols as nat),
        maze_of(g).edges == Set::<(Node, Node)>::empty(),
        maze_of(g).wf(),
{
    let mut g = graph_new();
    let mut row: usize = 0;
    while row < rows
        invariant
            row <= rows,
            rows <= isize::MAX,
            cols <= isize::MAX,
            graph_nodes(g) == grid_cells(row as nat, cols as nat),
            maze_of(g).edges == Set::<(Node, Node)>::empty(),
        decreases rows - row,
    {
        let mut col: usize = 0;
        while col < cols
            invariant
                row < rows,
                col <= cols,
                rows <= isize::MAX,
                cols <= isize::MAX,
                graph_nodes(g) == grid_cells(row as nat, cols as nat) + row_cells(
                    row as int,
                    col as nat,
                ),
                maze_of(g).edges == Set::<(Node, Node)>::empty(),
            decreases cols - col,
        {
            let n: Node = (row as isize, col as isize, 0);
            proof {
                let a = grid_cells(row as nat, cols as nat);
                let b = row_cells(row as int, col as nat);
                if (a + b).contains(n) {
                    let i = choose|i: int| 0 <= i < (a + b).len() && (a + b)[i] == n;
                    if i < a.len() {
                        assert(a.contains(a[i]));
                        lemma_grid_cells_contains(row as nat, cols as nat, n);
                    } else {
                        assert(b[i - a.len()] == n);
                    }
                }
                assert((a + b).push(n) =~= a + row_cells(row as int, (col + 1) as nat));
            }
            graph_add_node(&mut g, n);
            col += 1;
        }
        assert(grid_cells((row + 1) as nat, cols as nat) == grid_cells(row as nat, cols as nat)
            + row_cells(row as int, cols as nat));
        row += 1;
    }
    proof {
        lemma_grid_cells_distinct(rows as nat, cols as nat);
    }
    g
}

/// The surface cell at a row and column, if the maze has it.
pub open spec fn surface(m: Maze, row: int, col: int) -> Option<Node> {
    if isize::MIN <= row <= isize::MAX && isize::MIN <= col <= isize::MAX && m.has_cell(
        (row as isize, col as isize, 0usize),
    ) {
        Some((row as isize, col as isize, 0usize))
    } else {
        None
    }
}

/// A list of the nodes that are there among a few optional ones, in order.
pub open spec fn present(found: Seq<Option<Node>>) -> Seq<Node>
    decreases found.len(),
{
    if found.len() == 0 {
        Seq::empty()
    } else {
        let rest = present(found.drop_last());
        match found.last() {
            Some(n) => rest.push(n),
            None => rest,
        }
    }
}

/// The surface cells to the north, south, west and east of a place, those
/// that the maze has.
pub open spec fn compass(m: Maze, row: int, col: int) -> Seq<Node> {
    present(
        seq![
            surface(m, row - 1, col),
            surface(m, row + 1, col),
            surface(m, row, col - 1),
            surface(m, row, col + 1),
        ],
    )
}

/// The surface cell at a row and column that may lie outside the machine's
/// integers, if the graph has it.
pub(crate) fn surface_at(links: &LinkGraph, row: isize, col: isize) -> (found: Option<Node>)
    ensures
        found == surface(maze_of(*links), row as int, col as int),
{
    if graph_contains_node(links, (row, col, 0)) {
        Some((row, col, 0))
    } else {
        None
    }
}

/// The surface cell a few rows and columns away from a place, if the graph
/// has it.
pub(crate) fn surface_near(links: &LinkGraph, row: isize, col: isize, dr: i8, dc: i8) -> (found:
    Option<Node>)
    ensures
        found == surface(maze_of(*links), row + dr, col + dc),
{
    let r: i128 = row as i128 + dr as i128;
    let c: i128 = col as i128 + dc as i128;
    if r < isize::MIN as i128 || r > isize::MAX as i128 || c < isize::MIN as i128 || c
        > isize::MAX as i128 {
        None
    } else {
        surface_at(links, r as isize, c as isize)
    }
}

/// A node is among the present ones exactly when it was found.
pub proof fn lemma_present_contains(found: Seq<Option<Node>>, n: Node)
    ensures
        present(found).contains(n) <==> found.contains(Some(n)),
    decreases found.len(),
{
    if found.len() > 0 {
        let front = found.drop_last();
        lemma_present_contains(front, n);
        if front.contains(Some(n)) {
            let i = choose|i: int| 0 <= i < front.len() && front[i] == Some(n);
            assert(found[i] == Some(n));
        }
        if found.contains(Some(n)) {
            let i = choose|i: int| 0 <= i < found.len() && found[i] == Some(n);
            if i < found.len() - 1 {
                assert(front[i] == Some(n));
            }
        }
        match found.last() {
            Some(x) => {
                let rest = present(front);
                assert(rest.push(x)[rest.len() as int] == x);
                if rest.contains(n) {
                    let i = choose|i: int| 0 <= i < rest.len() && rest[i] == n;
                    assert(rest.push(x)[i] == n);
                }
                if x == n {
                    assert(found[found.len() - 1] == Some(n));
                }
            },
            None => {},
        }
    }
}

/// The cells that are there among a few optional nodes, in order.
pub(crate) fn present_cells<C: CellKind>(found: &Vec<Option<Node>>) -> (list: Vec<C>)
    requires
        forall|n: Node| #[trigger] found@.contains(Some(n)) ==> C::is_node(n),
    ensures
        nodes_of(list@) == present(found@),
{
    let mut list: Vec<C> = Vec::new();
    let mut i: usize = 0;
    assert(nodes_of(list@) =~= present(found@.take(0)));
    while i < found.len()
        invariant
            i <= found.len(),
            forall|n: Node| #[trigger] found@.contains(Some(n)) ==> C::is_node(n),
            nodes_of(list@) == present(found@.take(i as int)),
        decreases found.len() - i,
    {
        proof {
            assert(found@.take(i + 1).drop_last() =~= found@.take(i as int));
            assert(found@.take(i + 1).last() == found@[i as int]);
        }
        let ghost before = list@;
        match found[i] {
            Some(n) => {
                assert(found@.contains(Some(n)));
                list.push(C::from_node(n));
                assert(nodes_of(list@) =~= nodes_of(before).push(n));
            },
            None => {},
        }
        i += 1;
    }
    assert(found@.take(found.len() as int) =~= found@);
    list
}

/// The cells among a few optional nodes that were looked up on the surface
/// of a graph, in order: each is a cell of the graph.
pub(crate) fn found_cells<C: CellKind>(
    links: &LinkGraph,
    found: &Vec<Option<Node>>,
    Ghost(places): Ghost<Seq<(int, int)>>,
) -> (list: Vec<C>)
    requires
        forall|n: Node| n.2 == 0 ==> C::is_node(n),
        places.len() == found.len(),
        forall|i: int|
            0 <= i < found.len() ==> #[trigger] found[i] == surface(
                maze_of(*links),
                places[i].0,
                places[i].1,
            ),
    ensures
        nodes_of(list@) == present(found@),
        forall|i: int|
            0 <= i < list.len() ==> maze_of(*links).has_cell(#[trigger] list[i].node())
                && list[i].node().2 == 0 && exists|j: int|
                0 <= j < places.len() && #[trigger] places[j] == (
                    list[i].node().0 as int,
                    list[i].node().1 as int,
                ),
{
    proof {
        assert forall|n: Node| #[trigger] found@.contains(Some(n)) implies C::is_node(n) by {
            let j = choose|j: int| 0 <= j < found@.len() && found@[j] == Some(n);
            assert(found[j] == surface(maze_of(*links), places[j].0, places[j].1));
        }
    }
    let list: Vec<C> = present_cells(found);
    proof {
        assert forall|i: int| 0 <= i < list.len() implies maze_of(*links).has_cell(
            #[trigger] list[i].node(),
        ) && list[i].node().2 == 0 && exists|j: int|
            0 <= j < places.len() && #[trigger] places[j] == (
                list[i].node().0 as int,
                list[i].node().1 as int,
            ) by {
            let n = list[i].node();
            assert(nodes_of(list@)[i] == n);
            lemma_present_contains(found@, n);
            let j = choose|j: int| 0 <= j < found@.len() && found@[j] == Some(n);
            assert(found[j] == surface(maze_of(*links), places[j].0, places[j].1));
            assert(places[j] == (n.0 as int, n.1 as int));
        }
    }
    list
}

/// The cells to the north, south, west and east of a place, those that the
/// graph has on its surface.
pub(crate) fn compass_cells<C: CellKind>(links: &LinkGraph, row: isize, col: isize) -> (list: Vec<C>)
    requires
        forall|n: Node| n.2 == 0 ==> C::is_node(n),
    ensures
        nodes_of(list@) == compass(maze_of(*links), row as int, col as int),
        forall|i: int|
            0 <= i < list.len() ==> maze_of(*links).has_cell(#[trigger] list[i].node()) && (
            list[i].node().0 != row || list[i].node().1 != col),
{
    let north = surface_near(links, row, col, -1, 0);
    let south = surface_near(links, row, col, 1, 0);
    let west = surface_near(links, row, col, 0, -1);
    let east = surface_near(links, row, col, 0, 1);
    let mut found: Vec<Option<Node>> = Vec::new();
    found.push(north);
    found.push(south);
    found.push(west);
    found.push(east);
    assert(found@ =~= seq![north, south, west, east]);
    let list: Vec<C> = present_cells(&found);
    proof {
        assert forall|i: int| 0 <= i < list.len() implies maze_of(*links).has_cell(
            #[trigger] list[i].node(),
        ) && (list[i].node().0 != row || list[i].node().1 != col) by {
            let n = list[i].node();
            assert(nodes_of(list@)[i] == n);
            lemma_present_contains(found@, n);
            let j = choose|j: int| 0 <= j < found@.len() && found@[j] == Some(n);
        }
    }
    list
}

/// The surface place next to `b` on the way to `a`: one row closer where the
/// rows differ, else one column closer.
pub open spec fn step_towards(a: Node, b: Node) -> Node {
    if b.0 > a.0 {
        ((b.0 - 1) as isize, b.1, 0usize)
    } else if b.0 < a.0 {
        ((b.0 + 1) as isize, b.1, 0usize)
    } else if b.1 > a.1 {
        (b.0, (b.1 - 1) as isize, 0usize)
    } else {
        (b.0, (b.1 + 1) as isize, 0usize)
    }
}

/// In a maze whose cells are those of a rectangle, the step from a cell
/// towards another cell leads to a cell of the maze that is closer to the
/// other and has the first among its compass neighbours.
pub proof fn lemma_rect_step(m: Maze, rows: nat, cols: nat, a: Node, b: Node)
    requires
        rows <= isize::MAX,
        cols <= isize::MAX,
        m.cells == grid_cells(rows, cols),
        m.has_cell(a),
        m.has_cell(b),
    ensures
        a.2 == 0 && b.2 == 0,
        a != b ==> {
            let s = step_towards(a, b);
            &&& m.has_cell(s)
            &&& vstd::math::abs(s.0 - a.0) + vstd::math::abs(s.1 - a.1) < vstd::math::abs(
                b.0 - a.0,
            ) + vstd::math::abs(b.1 - a.1)
            &&& compass(m, s.0 as int, s.1 as int).contains(b)
        },
{
    lemma_grid_cells_contains(rows, cols, a);
    lemma_grid_cells_contains(rows, cols, b);
    if a != b {
        let s = step_towards(a, b);
        lemma_grid_cells_contains(rows, cols, s);
        let found = seq![
            surface(m, s.0 - 1, s.1 as int),
            surface(m, s.0 + 1, s.1 as int),
            surface(m, s.0 as int, s.1 - 1),
            surface(m, s.0 as int, s.1 + 1),
        ];
        lemma_present_contains(found, b);
        if b.0 > a.0 {
            assert(found[1] == Some(b));
        } else if b.0 < a.0 {
            assert(found[0] == Some(b));
        } else if b.1 > a.1 {
            assert(found[3] == Some(b));
        } else {
            assert(found[2] == Some(b));
        }
    }
}

/// The cells of a rectangle as rows: the cell in row `r`, column `c` stands
/// at place `c` of row `r`.
pub(crate) fn rect_rows<C: CellKind>(rows: usize, cols: usize) -> (list: Vec<Vec<C>>)
    requires
        rows <= isize::MAX,
        cols <= isize::MAX,
        forall|n: Node| n.2 == 0 ==> C::is_node(n),
    ensures
        list.len() == rows,
        forall|r: int| 0 <= r < rows ==> (#[trigger] list[r]).len() == cols,
        forall|r: int, c: int|
            0 <= r < rows && 0 <= c < cols ==> (#[trigger] list[r][c]).node() == (
                r as isize,
                c as isize,
                0usize,
            ),
{
    let mut list: Vec<Vec<C>> = Vec::new();
    let mut r: usize = 0;
    while r < rows
        invariant
            r <= rows,
            rows <= isize::MAX,
            cols <= isize::MAX,
            forall|n: Node| n.2 == 0 ==> C::is_node(n),
            list.len() == r,
            forall|i: int| 0 <= i < r ==> (#[trigger] list[i]).len() == cols,
            forall|i: int, c: int|
                0 <= i < r && 0 <= c < cols ==> (#[trigger] list[i][c]).node() == (
                    i as isize,
                    c as isize,
                    0usize,
                ),
        decreases rows - r,
    {
        let mut row: Vec<C> = Vec::new();
        let mut c: usize = 0;
        while c < cols
            invariant
                c <= cols,
                r < rows,
                rows <= isize::MAX,
                cols <= isize::MAX,
                forall|n: Node| n.2 == 0 ==> C::is_node(n),
                row.len() == c,
                forall|j: int|
                    0 <= j < c ==> (#[trigger] row[j]).node() == (r as isize, j as isize, 0usize),
            decreases cols - c,
        {
            row.push(C::from_node((r as isize, c as isize, 0)));
            c += 1;
        }
        list.push(row);
        r += 1;
    }
    list
}

/// A compass neighbour of a cell is a cell, and has the cell among its
/// compass neighbours.
pub proof fn lemma_compass(m: Maze, a: Node, b: Node)
    requires
        m.has_cell(a),
        a.2 == 0,
        compass(m, a.0 as int, a.1 as int).contains(b),
    ensures
        m.has_cell(b),
        compass(m, b.0 as int, b.1 as int).contains(a),
{
    let found = seq![
        surface(m, a.0 - 1, a.1 as int),
        surface(m, a.0 + 1, a.1 as int),
        surface(m, a.0 as int, a.1 - 1),
        surface(m, a.0 as int, a.1 + 1),
    ];
    lemma_present_contains(found, b);
    let j = choose|j: int| 0 <= j < found.len() && found[j] == Some(b);
    let back = seq![
        surface(m, b.0 - 1, b.1 as int),
        surface(m, b.0 + 1, b.1 as int),
        surface(m, b.0 as int, b.1 - 1),
        surface(m, b.0 as int, b.1 + 1),
    ];
    lemma_present_contains(back, a);
    if j == 0 {
        assert(back[1] == Some(a));
    } else if j == 1 {
        assert(back[0] == Some(a));
    } else if j == 2 {
        assert(back[3] == Some(a));
    } else {
        assert(back[2] == Some(a));
    }
}

/// Of two surface cells side by side each is a compass neighbour of the
/// other.
pub proof fn lemma_beside(m: Maze, a: Node, b: Node)
    requires
        m.has_cell(a),
        m.has_cell(b),
        a.2 == 0 && b.2 == 0,
        (a.0 == b.0 && (a.1 - b.1 == 1 || b.1 - a.1 == 1)) || (a.1 == b.1 && (a.0 - b.0 == 1 || b.0
            - a.0 == 1)),
    ensures
        compass(m, a.0 as int, a.1 as int).contains(b),
{
    let found = seq![
        surface(m, a.0 - 1, a.1 as int),
        surface(m, a.0 + 1, a.1 as int),
        surface(m, a.0 as int, a.1 - 1),
        surface(m, a.0 as int, a.1 + 1),
    ];
    lemma_present_contains(found, b);
    if a.1 == b.1 {
        if b.0 < a.0 {
            assert(found[0] == Some(b));
        } else {
            assert(found[1] == Some(b));
        }
    } else if b.1 < a.1 {
        assert(found[2] == Some(b));
    } else {
        assert(found[3] == Some(b));
    }
}

} // verus!
