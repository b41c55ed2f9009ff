//! The polar topology: cells in rings around a central cell, the rings
//! splitting into more cells as they grow.

use crate::cell::CellKind;
use crate::cell::PolarCell;
use crate::cell::cell_opt;
use crate::cell::node_opt;
use crate::cell::nodes_of;
use crate::graph::LinkGraph;
use crate::graph::Node;
use crate::graph::graph_add_edge;
use crate::graph::graph_add_node;
use crate::graph::graph_new;
use crate::graph::graph_node_list;
use crate::graph::graph_nodes;
use crate::grid::Grid;
use crate::kind::Kind;
use crate::model::Maze;
use crate::model::lemma_edge_key;
use crate::model::maze_of;
use crate::rect::lemma_present_contains;
use crate::rect::present;
use crate::rect::present_cells;
use crate::rect::row_cells;
use crate::rect::surface;
use crate::rect::surface_at;
use vstd::prelude::*;

verus! {

/// Rings of cells around a central cell. Row 0 is the central cell.
pub struct Polar {
    pub rows: usize,
}

impl Polar {
    /// The topology of a grid of so many rings, the centre counted.
    pub fn new(rows: usize) -> (k: Self)
        ensures
            k.rows == rows,
    {
        Self { rows }
    }
}

/// The circle constant as a fraction: this over [`PI_WHOLE`].
pub const PI_PARTS: u128 = 3141592653589793;

/// The denominator of the circle constant.
pub const PI_WHOLE: u128 = 1000000000000000;

/// By how much a ring multiplies the cells of the ring inside it: the
/// length of ring `row` of rings of width 1, over the number `prev` of cells
/// of the ring inside, rounded to the nearest whole number.
pub open spec fn polar_ratio(row: nat, prev: nat) -> nat {
    ((4 * PI_PARTS * row + PI_WHOLE * prev) / (2 * PI_WHOLE * prev)) as nat
}

/// The number of cells in a ring, no more than the machine can count.
pub open spec fn polar_count(row: nat) -> nat
    decreases row,
{
    if row == 0 {
        1
    } else {
        let prev = polar_count((row - 1) as nat);
        if prev == 0 {
            0
        } else if polar_ratio(row, prev) > isize::MAX as nat / prev {
            isize::MAX as nat
        } else {
            prev * polar_ratio(row, prev)
        }
    }
}

/// The cells of the first rings, ring by ring from the centre, each ring
/// clockwise. There is a central cell even where there are no rings.
pub open spec fn polar_cells(rows: nat) -> Seq<Node>
    decreases rows,
{
    if rows <= 1 {
        row_cells(0, 1)
    } else {
        polar_cells((rows - 1) as nat) + row_cells(rows - 1, polar_count((rows - 1) as nat))
    }
}

/// A ring has no more cells than the machine can count.
pub proof fn lemma_polar_count_fits(row: nat)
    ensures
        polar_count(row) <= isize::MAX,
    decreases row,
{
    if row > 0 {
        let prev = polar_count((row - 1) as nat);
        lemma_polar_count_fits((row - 1) as nat);
        if prev > 0 && polar_ratio(row, prev) <= isize::MAX as nat / prev {
            let ratio = polar_ratio(row, prev);
            let most = isize::MAX as nat / prev;
            assert(prev * ratio <= isize::MAX) by (nonlinear_arith)
                requires
                    ratio <= most,
                    most == isize::MAX as nat / prev,
                    prev > 0,
            ;
        }
    }
}

/// The rings hold exactly the surface cells whose ring is one of them and
/// whose column is one of that ring.
pub proof fn lemma_polar_cells_contains(rows: nat, n: Node)
    requires
        rows <= isize::MAX,
    ensures
        polar_cells(rows).contains(n) <==> n.2 == 0 && 0 <= n.0 && (n.0 < rows || n.0 == 0) && 0
            <= n.1 < polar_count(n.0 as nat),
        polar_cells(rows).no_duplicates(),
    decreases rows,
{
    if rows <= 1 {
        let b = row_cells(0, 1);
        if n.2 == 0 && n.0 == 0 && n.1 == 0 {
            assert(b[0] == n);
        }
    } else {
        lemma_polar_cells_contains((rows - 1) as nat, n);
        lemma_polar_count_fits((rows - 1) as nat);
        let a = polar_cells((rows - 1) as nat);
        let b = row_cells(rows - 1, polar_count((rows - 1) as nat));
        if n.2 == 0 && n.0 == rows - 1 && 0 <= n.1 < polar_count((rows - 1) as nat) {
            assert(b[n.1 as int] == n);
            assert((a + b)[a.len() + n.1] == n);
        }
        if a.contains(n) {
            let i = choose|i: int| 0 <= i < a.len() && a[i] == n;
            assert((a + b)[i] == n);
        }
        if (a + b).contains(n) {
            let i = choose|i: int| 0 <= i < (a + b).len() && (a + b)[i] == n;
            if i < a.len() {
                assert(a[i] == n);
            } else {
                assert(b[i - a.len()] == n);
            }
        }
        assert forall|i: int, j: int| 0 <= i < a.len() && 0 <= j < b.len() implies a[i] != b[j] by {
            lemma_polar_cells_contains((rows - 1) as nat, a[i]);
            assert(a.contains(a[i]));
        }
        vstd::seq_lib::lemma_no_dup_in_concat(a, b);
    }
}

/// Where there are so few rings that thirteen times their number can be
/// counted, every ring but the centre has a cell, multiplies the cells of
/// the ring inside it by a whole number, and has no more cells than its
/// length of rings of width 1 admits.
pub proof fn lemma_polar_count(row: nat)
    requires
        1 <= row,
        13 * row <= isize::MAX,
    ensures
        1 <= polar_count((row - 1) as nat),
        1 <= polar_ratio(row, polar_count((row - 1) as nat)),
        polar_count(row) == polar_count((row - 1) as nat) * polar_ratio(
            row,
            polar_count((row - 1) as nat),
        ),
        1 <= polar_count(row),
        1000000000000000 * polar_count(row) <= 12566370614359172 * row,
    decreases row,
{
    let prev = polar_count((row - 1) as nat) as int;
    assert(PI_PARTS == 3141592653589793 && PI_WHOLE == 1000000000000000);
    let x = 12566370614359172 * row + 1000000000000000 * prev;
    let by = 2000000000000000 * prev;
    assert(polar_ratio(row, prev as nat) == (x / by) as nat);
    if row == 1 {
        assert(polar_count(0) == 1);
        vstd::arithmetic::div_mod::lemma_fundamental_div_mod_converse(
            13566370614359172,
            2000000000000000,
            6,
            1566370614359172,
        );
        assert(x / by == 6);
        assert(isize::MAX as nat / 1 == isize::MAX as nat);
    } else {
        lemma_polar_count((row - 1) as nat);
        let ratio = x / by;
        assert(1000000000000000 * prev <= 12566370614359172 * (row - 1));
        assert(0 < by <= x);
        vstd::arithmetic::div_mod::lemma_fundamental_div_mod(x, by);
        vstd::arithmetic::div_mod::lemma_mod_bound(x, by);
        vstd::arithmetic::div_mod::lemma_div_is_ordered(by, x, by);
        vstd::arithmetic::div_mod::lemma_div_basics(by);
        assert(ratio >= 1);
        let t = prev * ratio;
        assert(by * ratio == 2000000000000000 * t) by (nonlinear_arith)
            requires
                by == 2000000000000000 * prev,
                t == prev * ratio,
        ;
        assert(2000000000000000 * t <= x);
        assert(1000000000000000 * t <= 12566370614359172 * row);
        assert(t <= 13 * row);
        assert(t >= 1) by (nonlinear_arith)
            requires
                t == prev * ratio,
                prev >= 1,
                ratio >= 1,
        ;
        assert(t == ratio * prev) by (nonlinear_arith)
            requires
                t == prev * ratio,
        ;
        vstd::arithmetic::div_mod::lemma_div_multiples_vanish(ratio, prev);
        vstd::arithmetic::div_mod::lemma_div_is_ordered(t, isize::MAX as int, prev);
        assert(prev * ratio == t);
        assert((prev * ratio) / prev == ratio);
        assert(ratio <= isize::MAX as int / prev);
    }
}

/// The number of cells in a ring of a polar grid.
pub proof fn lemma_ring_len(rows: nat, r: int)
    requires
        rows <= isize::MAX,
    ensures
        ring_len(polar_cells(rows), r) == if 0 <= r && (r < rows || r == 0) {
            polar_count(r as nat)
        } else {
            0
        },
    decreases rows,
{
    let keep = in_ring(r);
    if rows <= 1 {
        let b = row_cells(0, 1);
        if r == 0 {
            crate::model::lemma_filter_all(b, keep);
        } else {
            crate::model::lemma_filter_none(b, keep);
        }
    } else {
        lemma_ring_len((rows - 1) as nat, r);
        lemma_polar_count_fits((rows - 1) as nat);
        let a = polar_cells((rows - 1) as nat);
        let b = row_cells(rows - 1, polar_count((rows - 1) as nat));
        Seq::filter_distributes_over_add(a, b, keep);
        if r == rows - 1 {
            crate::model::lemma_filter_all(b, keep);
        } else {
            crate::model::lemma_filter_none(b, keep);
        }
    }
}

/// The number of cells of the ring outside a ring of `prev` cells.
fn next_count(row: usize, prev: usize) -> (count: usize)
    requires
        0 < row <= isize::MAX,
        prev == polar_count((row - 1) as nat),
    ensures
        count == polar_count(row as nat),
        count <= isize::MAX,
{
    proof {
        lemma_polar_count_fits((row - 1) as nat);
        lemma_polar_count_fits(row as nat);
    }
    if prev == 0 {
        return 0;
    }
    let ratio: u128 = (4 * PI_PARTS * (row as u128) + PI_WHOLE * (prev as u128)) / (2 * PI_WHOLE * (
    prev as u128));
    let most: u128 = (isize::MAX as u128) / (prev as u128);
    if ratio > most {
        isize::MAX as usize
    } else {
        assert((prev as u128) * ratio <= isize::MAX) by (nonlinear_arith)
            requires
                ratio <= most,
                most == (isize::MAX as u128) / (prev as u128),
                prev > 0,
        ;
        ((prev as u128) * ratio) as usize
    }
}

/// The test for the cells of a ring.
pub open spec fn in_ring(row: int) -> spec_fn(Node) -> bool {
    |n: Node| n.0 == row
}

/// The number of cells in a ring of a cell list.
pub open spec fn ring_len(cells: Seq<Node>, row: int) -> nat {
    cells.filter(in_ring(row)).len()
}

/// Counts the nodes of a graph that lie in a ring.
pub(crate) fn row_len(links: &LinkGraph, row: i128) -> (len: usize)
    ensures
        len == ring_len(graph_nodes(*links), row as int),
{
    let nodes = graph_node_list(links);
    let mut len: usize = 0;
    let mut i: usize = 0;
    let ghost keep = in_ring(row as int);
    assert(nodes@.take(0).filter(keep) =~= Seq::<Node>::empty()) by {
        reveal(Seq::filter);
    }
    while i < nodes.len()
        invariant
            i <= nodes.len(),
            len <= i,
            keep == in_ring(row as int),
            len == nodes@.take(i as int).filter(keep).len(),
        decreases nodes.len() - i,
    {
        proof {
            assert(nodes@.take(i + 1) =~= nodes@.take(i as int).push(nodes[i as int]));
            nodes@.take(i as int).lemma_filter_push(nodes[i as int], keep);
        }
        if nodes[i].0 as i128 == row {
            len += 1;
        }
        i += 1;
    }
    assert(nodes@.take(nodes.len() as int) =~= nodes@);
    len
}

/// The cell of a ring in a column, counted round the ring in either
/// direction: the column before column 0 is the last. There is none in a
/// ring without cells.
pub open spec fn polar_at(m: Maze, row: int, col: int) -> Option<Node> {
    let len = ring_len(m.cells, row);
    if len == 0 {
        None
    } else {
        surface(m, row, col % (len as int))
    }
}

/// The cell towards the centre: the cell of the ring inside whose span
/// holds the column. The central cell has none.
pub open spec fn polar_inward(m: Maze, row: int, col: int) -> Option<Node> {
    let inner = ring_len(m.cells, row - 1);
    let len = ring_len(m.cells, row);
    if row == 0 || col < 0 || inner == 0 || len / inner == 0 {
        None
    } else {
        polar_at(m, row - 1, col / ((len / inner) as int))
    }
}

/// By how much the ring outside a ring multiplies its cells.
pub open spec fn polar_spread(m: Maze, row: int) -> nat {
    let len = ring_len(m.cells, row);
    if len == 0 {
        0
    } else {
        ring_len(m.cells, row + 1) / len
    }
}

/// The places away from the centre: the columns of the ring outside that
/// the column spans, those that hold a cell.
pub open spec fn polar_outward(m: Maze, row: int, col: int) -> Seq<Option<Node>> {
    Seq::new(
        polar_spread(m, row),
        |k: int| surface(m, row + 1, col * polar_spread(m, row) + k),
    )
}

/// An optional node, unless it is `n`.
pub open spec fn unless(found: Option<Node>, n: Node) -> Option<Node> {
    if found == Some(n) {
        None
    } else {
        found
    }
}

/// The places around a cell: clockwise, counter-clockwise, inward, and
/// outward, the cell itself left out.
pub open spec fn polar_places(m: Maze, n: Node) -> Seq<Option<Node>> {
    let row = n.0 as int;
    let col = n.1 as int;
    (seq![polar_at(m, row, col + 1), polar_at(m, row, col - 1), polar_inward(m, row, col)]
        + polar_outward(m, row, col)).map_values(|found: Option<Node>| unless(found, n))
}

/// Looks up the cell of a ring in a column.
pub(crate) fn ring_at(links: &LinkGraph, row: i128, col: i128) -> (found: Option<Node>)
    requires
        isize::MIN <= row <= isize::MAX,
        isize::MIN - 1 <= col <= isize::MAX + 1,
    ensures
        found == polar_at(maze_of(*links), row as int, col as int),
{
    let len = row_len(links, row);
    if len == 0 {
        None
    } else {
        let l = len as i128;
        let c = if col >= 0 {
            col % l
        } else {
            let back = (-(col + 1)) % l;
            proof {
                let x: int = -(col + 1);
                let d: int = l as int;
                let q: int = x / d;
                let r: int = x % d;
                vstd::arithmetic::div_mod::lemma_fundamental_div_mod(x, d);
                assert(col == (-q - 1) * d + (d - 1 - r)) by (nonlinear_arith)
                    requires
                        x == d * q + r,
                        x == -(col + 1),
                ;
                vstd::arithmetic::div_mod::lemma_fundamental_div_mod_converse(
                    col as int,
                    d,
                    -q - 1,
                    d - 1 - r,
                );
            }
            l - 1 - back
        };
        if c > isize::MAX as i128 {
            None
        } else {
            surface_at(links, row as isize, c as isize)
        }
    }
}

/// Looks up the cell towards the centre.
pub(crate) fn ring_inward(links: &LinkGraph, row: isize, col: isize) -> (found: Option<Node>)
    ensures
        found == polar_inward(maze_of(*links), row as int, col as int),
{
    if row == 0 || col < 0 {
        return None;
    }
    let inner = row_len(links, row as i128 - 1);
    let len = row_len(links, row as i128);
    if inner == 0 || len / inner == 0 {
        return None;
    }
    let ratio = len / inner;
    if row == isize::MIN {
        return None;
    }
    ring_at(links, row as i128 - 1, (col as i128) / (ratio as i128))
}

impl Kind for Polar {
    type Cell = PolarCell;

    open spec fn valid(&self) -> bool {
        self.rows <= isize::MAX
    }

    open spec fn first_cells(&self) -> Seq<Node> {
        polar_cells(self.rows as nat)
    }

    open spec fn cells_ok(&self, cells: Seq<Node>) -> bool {
        cells == polar_cells(self.rows as nat)
    }

    open spec fn adjacent(&self, m: Maze, n: Node) -> Seq<Node> {
        present(polar_places(m, n))
    }

    open spec fn steady(&self, cells: Seq<Node>, n: Node) -> Seq<Node> {
        self.adjacent(Maze { cells, edges: Set::empty() }, n)
    }

    proof fn lemma_steady(&self, m: Maze, n: Node) {
        let bare = Maze { cells: m.cells, edges: Set::empty() };
        self.lemma_flat(bare, m, n);
        let adj = self.adjacent(m, n);
        assert forall|i: int| 0 <= i < adj.len() implies adj.contains(#[trigger] adj[i]) by {}
    }

    proof fn lemma_steady_linked(&self, m: Maze, a: Node, b: Node, n: Node) {
        assert(self.linking(m, a, b).cells == m.cells);
    }

    open spec fn flat(&self) -> bool {
        true
    }

    open spec fn linking(&self, m: Maze, a: Node, b: Node) -> Maze {
        m.connect(a, b)
    }

    open spec fn near(&self, cells: Seq<Node>, a: Node, b: Node) -> bool {
        self.steady(cells, a).contains(b) || self.steady(cells, b).contains(a)
    }

    proof fn lemma_near(&self, m: Maze, a: Node, b: Node) {
        crate::model::lemma_connect_links(m, a, b);
        self.lemma_steady(m, a);
    }

    proof fn lemma_flat(&self, a: Maze, b: Maze, n: Node) {
        assert(polar_outward(a, n.0 as int, n.1 as int) =~= polar_outward(b, n.0 as int, n.1 as int));
    }

    open spec fn row_count(&self) -> usize {
        self.rows
    }

    fn num_rows(&self) -> (n: usize) {
        self.rows
    }

    fn prepare_grid(&self) -> (g: LinkGraph) {
        let rows = self.rows;
        let mut g = graph_new();
        graph_add_node(&mut g, (0, 0, 0));
        let mut prev: usize = 1;
        let mut row: usize = 1;
        assert(graph_nodes(g) =~= polar_cells(1));
        while row < rows
            invariant
                1 <= row,
                row <= rows || (rows == 0 && row == 1),
                rows <= isize::MAX,
                prev == polar_count((row - 1) as nat),
                graph_nodes(g) == polar_cells(row as nat),
                maze_of(g).edges == Set::<(Node, Node)>::empty(),
            decreases rows - row,
        {
            let count = next_count(row, prev);
            let mut col: usize = 0;
            assert(polar_cells(row as nat) + row_cells(row as int, 0) =~= polar_cells(row as nat));
            while col < count
                invariant
                    1 <= row < rows,
                    rows <= isize::MAX,
                    col <= count,
                    count == polar_count(row as nat),
                    count <= isize::MAX,
                    graph_nodes(g) == polar_cells(row as nat) + row_cells(row as int, col as nat),
                    maze_of(g).edges == Set::<(Node, Node)>::empty(),
                decreases count - col,
            {
                let n: Node = (row as isize, col as isize, 0);
                proof {
                    let a = polar_cells(row as nat);
                    let b = row_cells(row as int, col as nat);
                    if (a + b).contains(n) {
                        let i = choose|i: int| 0 <= i < (a + b).len() && (a + b)[i] == n;
                        if i < a.len() {
                            assert(a.contains(a[i]));
                            lemma_polar_cells_contains(row as nat, n);
                        } else {
                            assert(b[i - a.len()] == n);
                        }
                    }
                    assert((a + b).push(n) =~= a + row_cells(row as int, (col + 1) as nat));
                }
                graph_add_node(&mut g, n);
                col += 1;
            }
            prev = count;
            row += 1;
        }
        proof {
            assert(row == rows || (rows == 0 && row == 1));
            assert(graph_nodes(g) == polar_cells(row as nat));
            if rows == 0 {
                assert(polar_cells(0) == row_cells(0, 1));
                assert(polar_cells(1) == row_cells(0, 1));
            }
            assert(graph_nodes(g) == polar_cells(rows as nat));
            assert forall|n: Node| #[trigger] graph_nodes(g).contains(n) implies PolarCell::is_node(
                n,
            ) by {
                lemma_polar_cells_contains(rows as nat, n);
            }
            lemma_polar_cells_contains(rows as nat, (0, 0, 0));
        }
        g
    }

    fn link(&self, links: &mut LinkGraph, cell: PolarCell, other: PolarCell) {
        proof {
            lemma_edge_key(cell.node(), other.node());
        }
        graph_add_edge(links, cell.to_node(), other.to_node());
        assert(maze_of(*links).cells =~= maze_of(*old(links)).cells);
    }

    fn neighbours(&self, links: &LinkGraph, cell: PolarCell) -> (list: Vec<PolarCell>) {
        let n = cell.to_node();
        let ghost m = maze_of(*links);
        let row = cell.row as i128;
        let col = cell.col as i128;
        let mut found: Vec<Option<Node>> = Vec::new();
        found.push(skip(ring_at(links, row, col + 1), n));
        found.push(skip(ring_at(links, row, col - 1), n));
        found.push(skip(ring_inward(links, cell.row, cell.col), n));
        let len = row_len(links, row);
        let spread: usize = if len == 0 {
            0
        } else {
            row_len(links, row + 1) / len
        };
        let mut k: usize = 0;
        let ghost head = seq![
            polar_at(m, row as int, col + 1),
            polar_at(m, row as int, col - 1),
            polar_inward(m, row as int, col as int),
        ];
        let ghost tail = polar_outward(m, row as int, col as int);
        while k < spread
            invariant
                k <= spread,
                spread == polar_spread(m, row as int),
                row == cell.row,
                col == cell.col,
                n == cell.node(),
                m == maze_of(*links),
                tail == polar_outward(m, row as int, col as int),
                found.len() == 3 + k,
                forall|i: int| 0 <= i < 3 ==> #[trigger] found[i] == unless(head[i], n),
                forall|i: int| 0 <= i < k ==> #[trigger] found[3 + i] == unless(tail[i], n),
            decreases spread - k,
        {
            proof {
                lemma_span_fits(col as int, spread as int);
            }
            let c: i128 = col * (spread as i128) + (k as i128);
            let out = if row + 1 > isize::MAX as i128 || c < isize::MIN as i128 || c
                > isize::MAX as i128 {
                None
            } else {
                surface_at(links, (row + 1) as isize, c as isize)
            };
            found.push(skip(out, n));
            k += 1;
        }
        proof {
            let places = polar_places(m, n);
            assert(places.len() == found@.len());
            assert forall|i: int| 0 <= i < found@.len() implies found@[i] == places[i] by {
                if i < 3 {
                    assert(found[i] == unless(head[i], n));
                    assert((head + tail)[i] == head[i]);
                } else {
                    assert(found[3 + (i - 3)] == unless(tail[i - 3], n));
                    assert((head + tail)[i] == tail[i - 3]);
                }
            }
            assert(found@ =~= places);
            assert forall|x: Node| #[trigger] found@.contains(Some(x)) implies PolarCell::is_node(
                x,
            ) && m.has_cell(x) && x != n by {
                let j = choose|j: int| 0 <= j < found@.len() && found@[j] == Some(x);
                if j < 3 {
                    assert(found[j] == unless(head[j], n));
                } else {
                    assert(found[3 + (j - 3)] == unless(tail[j - 3], n));
                }
            }
        }
        let list: Vec<PolarCell> = present_cells(&found);
        proof {
            assert forall|i: int| 0 <= i < list.len() implies m.has_cell(#[trigger] list[i].node())
                && list[i].node() != cell.node() by {
                let x = list[i].node();
                assert(nodes_of(list@)[i] == x);
                lemma_present_contains(found@, x);
            }
        }
        list
    }
}

/// A column times a spread, and a place within the spread added, is a
/// number that the widest integers hold.
proof fn lemma_span_fits(col: int, spread: int)
    requires
        isize::MIN <= col <= isize::MAX,
        0 <= spread <= usize::MAX,
    ensures
        -0x7fff_ffff_ffff_ffff_ffff_ffff_ffff_ffff <= col * spread,
        col * spread + spread <= 0x7fff_ffff_ffff_ffff_ffff_ffff_ffff_ffff,
{
    assert(-0x8000_0000_0000_0000 * 0xffff_ffff_ffff_ffff <= col * spread) by (nonlinear_arith)
        requires
            -0x8000_0000_0000_0000 <= col,
            0 <= spread <= 0xffff_ffff_ffff_ffff,
    ;
    assert(col * spread <= 0x7fff_ffff_ffff_ffff * 0xffff_ffff_ffff_ffff) by (nonlinear_arith)
        requires
            col <= 0x7fff_ffff_ffff_ffff,
            0 <= spread <= 0xffff_ffff_ffff_ffff,
    ;
}

/// An optional node, unless it is `n`.
fn skip(found: Option<Node>, n: Node) -> (kept: Option<Node>)
    ensures
        kept == unless(found, n),
{
    match found {
        Some(x) => if x.0 == n.0 && x.1 == n.1 && x.2 == n.2 {
            None
        } else {
            Some(x)
        },
        None => None,
    }
}

impl Grid<Polar> {
    /// The cell of a ring in a column, counted round the ring.
    pub fn get(&self, row: isize, col: isize) -> (cell: Option<PolarCell>)
        requires
            self.wf(),
        ensures
            node_opt(cell) == polar_at(self@, row as int, col as int),
    {
        cell_opt(ring_at(self.graph(), row as i128, col as i128))
    }

    /// The next cell of the ring.
    pub fn clockwise(&self, cell: PolarCell) -> (found: Option<PolarCell>)
        requires
            self.wf(),
        ensures
            node_opt(found) == polar_at(self@, cell.row as int, cell.col + 1),
    {
        cell_opt(ring_at(self.graph(), cell.row as i128, cell.col as i128 + 1))
    }

    /// The cell of the ring in the column before; for the cell in column 0,
    /// the last cell of the ring.
    pub fn counter_clockwise(&self, cell: PolarCell) -> (found: Option<PolarCell>)
        requires
            self.wf(),
        ensures
            node_opt(found) == polar_at(self@, cell.row as int, cell.col - 1),
    {
        cell_opt(ring_at(self.graph(), cell.row as i128, cell.col as i128 - 1))
    }

    /// The cell towards the centre.
    pub fn inward(&self, cell: PolarCell) -> (found: Option<PolarCell>)
        requires
            self.wf(),
        ensures
            node_opt(found) == polar_inward(self@, cell.row as int, cell.col as int),
    {
        cell_opt(ring_inward(self.graph(), cell.row, cell.col))
    }

    /// The cells away from the centre, in clockwise order.
    pub fn outward(&self, cell: PolarCell) -> (list: Vec<PolarCell>)
        requires
            self.wf(),
        ensures
            nodes_of(list@) == present(polar_outward(self@, cell.row as int, cell.col as int)),
    {
        let links = self.graph();
        let row = cell.row as i128;
        let col = cell.col as i128;
        let len = row_len(links, row);
        let spread: usize = if len == 0 {
            0
        } else {
            row_len(links, row + 1) / len
        };
        let mut found: Vec<Option<Node>> = Vec::new();
        let mut k: usize = 0;
        let ghost tail = polar_outward(self@, row as int, col as int);
        while k < spread
            invariant
                k <= spread,
                spread == polar_spread(self@, row as int),
                row == cell.row,
                col == cell.col,
                self@ == maze_of(*links),
                self.wf(),
                tail == polar_outward(self@, row as int, col as int),
                found.len() == k,
                forall|i: int| 0 <= i < k ==> #[trigger] found[i] == tail[i],
            decreases spread - k,
        {
            proof {
                lemma_span_fits(col as int, spread as int);
            }
            let c: i128 = col * (spread as i128) + (k as i128);
            let out = if row + 1 > isize::MAX as i128 || c < isize::MIN as i128 || c
                > isize::MAX as i128 {
                None
            } else {
                surface_at(links, (row + 1) as isize, c as isize)
            };
            found.push(out);
            k += 1;
        }
        proof {
            assert(found@ =~= tail);
            assert forall|x: Node| #[trigger] found@.contains(Some(x)) implies PolarCell::is_node(
                x,
            ) by {
                let j = choose|j: int| 0 <= j < found@.len() && found@[j] == Some(x);
                assert(found[j] == tail[j]);
            }
        }
        present_cells(&found)
    }

    /// The cell towards the centre is adjacent to a cell of a ring, and the
    /// cell is adjacent to it, where the rings are so few that thirteen
    /// times their number can be counted.
    pub proof fn lemma_parent(&self, x: Node)
        requires
            self.wf(),
            13 * self.kind().rows <= isize::MAX,
            self@.has_cell(x),
            x.0 >= 1,
        ensures
            ({
                let k = polar_ratio(x.0 as nat, polar_count((x.0 - 1) as nat)) as int;
                let parent = ((x.0 - 1) as isize, (x.1 as int / k) as isize, 0usize);
                &&& k >= 1
                &&& self@.has_cell(parent)
                &&& self.steady(x).contains(parent)
                &&& self.steady(parent).contains(x)
            }),
    {
        let m = self@;
        let rows = self.kind().rows as nat;
        let r = x.0 as int;
        let c = x.1 as int;
        lemma_polar_cells_contains(rows, x);
        lemma_polar_count(r as nat);
        let prev = polar_count((r - 1) as nat) as int;
        let k = polar_ratio(r as nat, prev as nat) as int;
        let len = polar_count(r as nat) as int;
        let pc = c / k;
        let parent = ((r - 1) as isize, pc as isize, 0usize);
        lemma_ring_len(rows, r);
        lemma_ring_len(rows, r - 1);
        assert(len == k * prev) by (nonlinear_arith)
            requires
                len == prev * k,
        ;
        vstd::arithmetic::div_mod::lemma_div_multiples_vanish(k, prev);
        vstd::arithmetic::div_mod::lemma_div_multiples_vanish(prev, k);
        assert(len / prev == k);
        vstd::arithmetic::div_mod::lemma_multiply_divide_lt(c, k, prev);
        vstd::arithmetic::div_mod::lemma_div_pos_is_pos(c, k);
        vstd::arithmetic::div_mod::lemma_small_mod(pc as nat, prev as nat);
        vstd::arithmetic::div_mod::lemma_fundamental_div_mod(c, k);
        vstd::arithmetic::div_mod::lemma_mod_bound(c, k);
        lemma_polar_count_fits((r - 1) as nat);
        lemma_polar_cells_contains(rows, parent);
        assert(polar_inward(m, r, c) == Some(parent));
        // the cell among the places around it
        let places = polar_places(m, x);
        assert(places[2] == unless(polar_inward(m, r, c), x));
        lemma_present_contains(places, parent);
        self.kind().lemma_steady(m, x);
        // and the other way round
        let spread = polar_spread(m, r - 1) as int;
        assert(spread == k);
        let j = c % k;
        assert(pc * k + j == c) by (nonlinear_arith)
            requires
                c == k * pc + j,
        ;
        let out = polar_outward(m, r - 1, pc);
        assert(out[j] == surface(m, r, c));
        let back = polar_places(m, parent);
        assert(back[3 + j] == unless(out[j], parent));
        lemma_present_contains(back, x);
        self.kind().lemma_steady(m, parent);
    }

    /// In a polar grid a cell that is adjacent to a cell is a cell to which
    /// that cell is adjacent, where the rings are so few that thirteen
    /// times their number can be counted: round the ring in either
    /// direction, and between a cell and the cells outside that it spans.
    pub proof fn lemma_around(&self, a: Node, b: Node)
        requires
            self.wf(),
            13 * self.kind().rows <= isize::MAX,
            self@.has_cell(a),
            self.kind().adjacent(self@, a).contains(b),
        ensures
            self@.has_cell(b),
            self.kind().adjacent(self@, b).contains(a),
    {
        let m = self@;
        let rows = self.kind().rows as nat;
        let r = a.0 as int;
        let c = a.1 as int;
        lemma_polar_cells_contains(rows, a);
        let places = polar_places(m, a);
        lemma_present_contains(places, b);
        let j = choose|j: int| 0 <= j < places.len() && places[j] == Some(b);
        lemma_ring_len(rows, r);
        let len = polar_count(r as nat) as int;
        assert(surface(m, r, c) == Some(a));
        if j == 0 {
            assert(places[0] == unless(polar_at(m, r, c + 1), a));
            assert(polar_at(m, r, c + 1) == Some(b));
            let back = polar_places(m, b);
            if c + 1 < len {
                vstd::arithmetic::div_mod::lemma_small_mod((c + 1) as nat, len as nat);
                vstd::arithmetic::div_mod::lemma_small_mod(c as nat, len as nat);
            } else {
                vstd::arithmetic::div_mod::lemma_mod_self_0(len);
                vstd::arithmetic::div_mod::lemma_fundamental_div_mod_converse(-1, len, -1, len - 1);
            }
            assert(polar_at(m, r, b.1 - 1) == Some(a));
            assert(back[1] == unless(polar_at(m, r, b.1 - 1), b));
            lemma_present_contains(back, a);
        } else if j == 1 {
            assert(places[1] == unless(polar_at(m, r, c - 1), a));
            assert(polar_at(m, r, c - 1) == Some(b));
            let back = polar_places(m, b);
            if c >= 1 {
                vstd::arithmetic::div_mod::lemma_small_mod((c - 1) as nat, len as nat);
                vstd::arithmetic::div_mod::lemma_small_mod(c as nat, len as nat);
            } else {
                vstd::arithmetic::div_mod::lemma_fundamental_div_mod_converse(-1, len, -1, len - 1);
                vstd::arithmetic::div_mod::lemma_mod_self_0(len);
            }
            assert(polar_at(m, r, b.1 + 1) == Some(a));
            assert(back[0] == unless(polar_at(m, r, b.1 + 1), b));
            lemma_present_contains(back, a);
        } else if j == 2 {
            assert(places[2] == unless(polar_inward(m, r, c), a));
            assert(polar_inward(m, r, c) == Some(b));
            assert(r >= 1);
            self.lemma_parent(a);
            lemma_polar_count(r as nat);
            lemma_ring_len(rows, r - 1);
            let prev = polar_count((r - 1) as nat) as int;
            let k = polar_ratio(r as nat, prev as nat) as int;
            assert(len == k * prev) by (nonlinear_arith)
                requires
                    len == prev * k,
            ;
            vstd::arithmetic::div_mod::lemma_div_multiples_vanish(k, prev);
            vstd::arithmetic::div_mod::lemma_multiply_divide_lt(c, k, prev);
            vstd::arithmetic::div_mod::lemma_div_pos_is_pos(c, k);
            vstd::arithmetic::div_mod::lemma_small_mod((c / k) as nat, prev as nat);
            let parent = ((r - 1) as isize, (c / k) as isize, 0usize);
            assert(b == parent);
            self.kind().lemma_steady(m, b);
        } else {
            let spread = polar_spread(m, r) as int;
            let out = polar_outward(m, r, c);
            let at = j - 3;
            assert(places[j] == unless(out[at], a));
            assert(out[at] == surface(m, r + 1, c * spread + at));
            assert(surface(m, r + 1, c * spread + at) == Some(b));
            lemma_polar_cells_contains(rows, b);
            lemma_ring_len(rows, r + 1);
            lemma_polar_count((r + 1) as nat);
            let kb = polar_ratio((r + 1) as nat, len as nat) as int;
            let next = polar_count((r + 1) as nat) as int;
            assert(next == kb * len) by (nonlinear_arith)
                requires
                    next == len * kb,
            ;
            vstd::arithmetic::div_mod::lemma_div_multiples_vanish(kb, len);
            assert(spread == kb);
            vstd::arithmetic::div_mod::lemma_fundamental_div_mod_converse(
                c * kb + at,
                kb,
                c,
                at,
            );
            self.lemma_parent(b);
            let parent = ((b.0 - 1) as isize, (b.1 as int / kb) as isize, 0usize);
            assert(parent == a);
            self.kind().lemma_steady(m, b);
        }
    }

    /// A walk from cell to adjacent cell leads from every cell of a polar
    /// grid to the centre, and from the centre to every cell, where the
    /// rings are so few that thirteen times their number can be counted.
    pub proof fn lemma_centre(&self, x: Node)
        requires
            self.wf(),
            13 * self.kind().rows <= isize::MAX,
            self@.has_cell(x),
        ensures
            self.reaches(x, (0isize, 0isize, 0usize)),
            self.reaches((0isize, 0isize, 0usize), x),
        decreases x.0,
    {
        let centre = (0isize, 0isize, 0usize);
        let rows = self.kind().rows as nat;
        lemma_polar_cells_contains(rows, x);
        if x.0 == 0 {
            assert(polar_count(0) == 1);
            assert(x == centre);
            self.lemma_reaches_self(x);
        } else {
            self.lemma_parent(x);
            let k = polar_ratio(x.0 as nat, polar_count((x.0 - 1) as nat)) as int;
            let parent = ((x.0 - 1) as isize, (x.1 as int / k) as isize, 0usize);
            self.lemma_centre(parent);
            self.lemma_reaches_self(x);
            self.lemma_reaches_step(x, x, parent);
            self.lemma_reaches_transitive(x, parent, centre);
            self.lemma_reaches_step(centre, parent, x);
        }
    }

    /// In a polar grid adjacent cells are cells of the grid, adjacent to
    /// each other, and a walk from cell to adjacent cell leads from every
    /// cell to every other, where the rings are so few that thirteen times
    /// their number can be counted.
    pub proof fn lemma_topology(&self)
        requires
            self.wf(),
            13 * self.kind().rows <= isize::MAX,
        ensures
            self.evenly_adjacent(),
            self.all_reachable(),
    {
        assert forall|a: Node, i: int|
            self@.has_cell(a) && 0 <= i < self.kind().adjacent(self@, a).len() implies {
            let b = #[trigger] self.kind().adjacent(self@, a)[i];
            self@.has_cell(b) && self.kind().adjacent(self@, b).contains(a)
        } by {
            let adj = self.kind().adjacent(self@, a);
            assert(adj.contains(adj[i]));
            self.lemma_around(a, adj[i]);
        }
        let centre = (0isize, 0isize, 0usize);
        assert forall|a: Node, b: Node| self@.has_cell(a) && self@.has_cell(b) implies #[trigger] self.reaches(
            a,
            b,
        ) by {
            self.lemma_centre(a);
            self.lemma_centre(b);
            self.lemma_reaches_transitive(a, centre, b);
        }
    }
}

} // verus!
