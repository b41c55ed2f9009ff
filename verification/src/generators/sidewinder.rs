//! The sidewinder: runs of cells linked eastwards, each run with one link to
//! the north.

use crate::cell::CellKind;
use crate::graph::Node;
use crate::graph::edge_key;
use crate::grid::Grid;
use crate::hex::Hex;
use crate::kind::Kind;
use crate::model::Maze;
use crate::model::lemma_edge_key;
use crate::model::lemma_edge_key_eq;
use crate::random::choose_index;
use crate::random::random_bool;
use crate::rect::grid_cells;
use crate::rect::in_rect;
use crate::rect::lemma_grid_cells_contains;
use crate::rect::lemma_grid_cells_distinct;
use crate::regular::Regular;
use vstd::prelude::*;

verus! {

/// The surface place north of a node.
pub open spec fn north_of(n: Node) -> Node {
    ((n.0 - 1) as isize, n.1, 0usize)
}

/// The surface place east of a node.
pub open spec fn east_of(n: Node) -> Node {
    (n.0, (n.1 + 1) as isize, 0usize)
}

/// The surface place in a row and column.
pub open spec fn place(row: int, col: int) -> Node {
    (row as isize, col as isize, 0usize)
}

/// Whether a surface cell of a rectangle comes before row `r`, column `c`
/// in enumeration order.
pub open spec fn before(y: Node, rows: nat, cols: nat, r: int, c: int) -> bool {
    y.2 == 0 && in_rect(rows, cols, y.0 as int, y.1 as int) && (y.0 < r || (y.0 == r && y.1 < c))
}

/// Whether `e` is a link that the sidewinder made at `y` before it came to
/// row `r`, column `c`, with the open run beginning in column `s`: the
/// eastward link of a cell that was passed, or the northward link of a cell
/// in a closed run.
pub open spec fn made_at(y: Node, e: (Node, Node), rows: nat, cols: nat, r: int, c: int, s: int) -> bool {
    ||| before(y, rows, cols, r, c) && y.1 + 1 < cols && edge_key(y, east_of(y)) == e
    ||| before(y, rows, cols, r, s) && y.0 >= 1 && edge_key(y, north_of(y)) == e
}

/// What the sidewinder does at a cell in row `r`, column `c`, whose run began
/// in column `s`: it closes the run with a link from the run's cell in
/// column `member` to the north, if there is a north, or it links the cell
/// to the east.
pub open spec fn wind(m: Maze, r: int, c: int, close: bool, member: int) -> Maze {
    if close {
        if r >= 1 {
            m.connect(place(r, member), place(r - 1, member))
        } else {
            m
        }
    } else {
        m.connect(place(r, c), place(r, c + 1))
    }
}

/// The state of the sidewinder before the cell in row `r`, column `c`, with
/// the open run beginning in column `s`:
/// every link is the eastward link of a cell that was passed or the northward
/// link of a cell in a closed run; the cells of the open run are linked in
/// a chain; every cell of a closed run but the north-eastern corner has a link
/// to a cell of a closed run that ranks lower; and there are as many links
/// as cells passed, the corner not counted.
pub open spec fn wound(
    m: Maze,
    rows: nat,
    cols: nat,
    r: int,
    c: int,
    s: int,
    rank: spec_fn(Node) -> nat,
    done: int,
) -> bool {
    let corner = place(0, cols - 1);
    &&& m.wf()
    &&& m.cells == grid_cells(rows, cols)
    &&& 0 <= r <= rows
    &&& 0 <= s <= c <= cols
    &&& forall|e: (Node, Node)| #[trigger]
        m.edges.contains(e) ==> exists|y: Node| #[trigger] made_at(y, e, rows, cols, r, c, s)
    &&& forall|col: int| s <= col < c ==> m.linked(#[trigger] place(r, col), place(r, col + 1))
    &&& forall|x: Node|
        before(x, rows, cols, r, s) && x != corner ==> #[trigger] lower_link(
            m,
            rows,
            cols,
            r,
            s,
            rank,
            x,
        )
    &&& m.edges.len() + (if before(corner, rows, cols, r, c) {
        1int
    } else {
        0int
    }) == done
}

/// Whether `x` has a link to a cell of a closed run that ranks lower.
pub open spec fn lower_link(
    m: Maze,
    rows: nat,
    cols: nat,
    r: int,
    s: int,
    rank: spec_fn(Node) -> nat,
    x: Node,
) -> bool {
    exists|n: Node| before(n, rows, cols, r, s) && #[trigger] m.linked(x, n) && rank(n) < rank(x)
}

/// The ranks after the run from column `s` to column `c` of row `r` was
/// closed at column `member`: a cell of the run ranks above the cell north of
/// the member by one and its distance from the member.
pub open spec fn ranked(
    rank: spec_fn(Node) -> nat,
    cols: nat,
    r: int,
    s: int,
    c: int,
    member: int,
) -> spec_fn(Node) -> nat {
    |y: Node|
        if y.2 == 0 && y.0 == r && s <= y.1 <= c {
            if r == 0 {
                (cols - 1 - y.1) as nat
            } else {
                rank(place(r - 1, member)) + 1 + vstd::math::abs(y.1 - member) as nat
            }
        } else {
            rank(y)
        }
}

/// Linking a cell to the east keeps the state of the sidewinder.
pub proof fn lemma_wind_east(
    m: Maze,
    rows: nat,
    cols: nat,
    r: int,
    c: int,
    s: int,
    rank: spec_fn(Node) -> nat,
    done: int,
)
    requires
        0 < rows <= isize::MAX,
        0 < cols <= isize::MAX,
        wound(m, rows, cols, r, c, s, rank, done),
        r < rows,
        c + 1 < cols,
    ensures
        wound(wind(m, r, c, false, 0), rows, cols, r, c + 1, s, rank, done + 1),
{
    let post = wind(m, r, c, false, 0);
    let x = place(r, c);
    let east = place(r, c + 1);
    let corner = place(0, cols - 1);
    lemma_edge_key(x, east);
    lemma_grid_cells_contains(rows, cols, x);
    lemma_grid_cells_contains(rows, cols, east);
    assert(!m.edges.contains(edge_key(x, east))) by {
        if m.edges.contains(edge_key(x, east)) {
            let y = choose|y: Node| #[trigger] made_at(y, edge_key(x, east), rows, cols, r, c, s);
            if edge_key(y, east_of(y)) == edge_key(x, east) {
                lemma_edge_key_eq(y, east_of(y), x, east);
            } else {
                lemma_edge_key_eq(y, north_of(y), x, east);
            }
        }
    }
    assert forall|e: (Node, Node)| #[trigger] post.edges.contains(e) implies exists|y: Node| #[trigger]
        made_at(y, e, rows, cols, r, c + 1, s) by {
        if m.edges.contains(e) {
            let y = choose|y: Node| #[trigger] made_at(y, e, rows, cols, r, c, s);
            assert(made_at(y, e, rows, cols, r, c + 1, s));
        } else {
            assert(made_at(x, e, rows, cols, r, c + 1, s));
        }
    }
    assert forall|col: int| s <= col < c + 1 implies post.linked(
        #[trigger] place(r, col),
        place(r, col + 1),
    ) by {
        if col < c {
            assert(m.linked(place(r, col), place(r, col + 1)));
        }
    }
    assert forall|y: Node| before(y, rows, cols, r, s) && y != corner implies #[trigger] lower_link(
        post,
        rows,
        cols,
        r,
        s,
        rank,
        y,
    ) by {
        assert(lower_link(m, rows, cols, r, s, rank, y));
        let n = choose|n: Node|
            before(n, rows, cols, r, s) && #[trigger] m.linked(y, n) && rank(n) < rank(y);
        assert(post.linked(y, n));
    }
}

/// Closing a run keeps the state of the sidewinder, with the ranks of the
/// run's cells set.
pub proof fn lemma_wind_close(
    m: Maze,
    rows: nat,
    cols: nat,
    r: int,
    c: int,
    s: int,
    member: int,
    rank: spec_fn(Node) -> nat,
    done: int,
)
    requires
        0 < rows <= isize::MAX,
        0 < cols <= isize::MAX,
        wound(m, rows, cols, r, c, s, rank, done),
        r < rows,
        c < cols,
        s <= member <= c,
        r == 0 ==> c == cols - 1 && s == 0,
    ensures
        wound(
            wind(m, r, c, true, member),
            rows,
            cols,
            r,
            c + 1,
            c + 1,
            ranked(rank, cols, r, s, c, member),
            done + 1,
        ),
{
    let post = wind(m, r, c, true, member);
    let after = ranked(rank, cols, r, s, c, member);
    let x = place(r, member);
    let north = place(r - 1, member);
    let corner = place(0, cols - 1);
    lemma_edge_key(x, north);
    lemma_grid_cells_contains(rows, cols, x);
    lemma_grid_cells_contains(rows, cols, north);
    if r >= 1 {
        assert(!m.edges.contains(edge_key(x, north))) by {
            if m.edges.contains(edge_key(x, north)) {
                let y = choose|y: Node| #[trigger]
                    made_at(y, edge_key(x, north), rows, cols, r, c, s);
                if edge_key(y, east_of(y)) == edge_key(x, north) {
                    lemma_edge_key_eq(y, east_of(y), x, north);
                } else {
                    lemma_edge_key_eq(y, north_of(y), x, north);
                }
            }
        }
    }
    assert forall|e: (Node, Node)| #[trigger] post.edges.contains(e) implies exists|y: Node| #[trigger]
        made_at(y, e, rows, cols, r, c + 1, c + 1) by {
        if m.edges.contains(e) {
            let y = choose|y: Node| #[trigger] made_at(y, e, rows, cols, r, c, s);
            assert(made_at(y, e, rows, cols, r, c + 1, c + 1));
        } else {
            assert(made_at(x, e, rows, cols, r, c + 1, c + 1));
        }
    }
    assert forall|y: Node|
        before(y, rows, cols, r, c + 1) && y != corner implies #[trigger] lower_link(
        post,
        rows,
        cols,
        r,
        c + 1,
        after,
        y,
    ) by {
        if before(y, rows, cols, r, s) {
            assert(lower_link(m, rows, cols, r, s, rank, y));
            let n = choose|n: Node|
                before(n, rows, cols, r, s) && #[trigger] m.linked(y, n) && rank(n) < rank(y);
            assert(before(n, rows, cols, r, c + 1) && post.linked(y, n) && after(n) < after(y));
        } else {
            assert(y == place(r, y.1 as int));
            if r == 0 {
                let n = place(r, y.1 + 1);
                assert(m.linked(place(r, y.1 as int), place(r, y.1 + 1)));
                assert(before(n, rows, cols, r, c + 1) && post.linked(y, n) && after(n) < after(y));
            } else if y.1 == member {
                assert(before(north, rows, cols, r, c + 1) && post.linked(y, north) && after(north)
                    < after(y));
            } else if y.1 < member {
                let n = place(r, y.1 + 1);
                assert(m.linked(place(r, y.1 as int), place(r, y.1 + 1)));
                assert(before(n, rows, cols, r, c + 1) && post.linked(y, n) && after(n) < after(y));
            } else {
                let n = place(r, y.1 - 1);
                assert(m.linked(place(r, y.1 - 1), place(r, y.1 - 1 + 1)));
                m.lemma_linked_symmetric(n, y);
                assert(before(n, rows, cols, r, c + 1) && post.linked(y, n) && after(n) < after(y));
            }
        }
    }
}

/// A rectangle that the sidewinder has passed through is a perfect maze.
pub proof fn lemma_wound_perfect(m: Maze, rows: nat, cols: nat, rank: spec_fn(Node) -> nat, done: int)
    requires
        0 < rows <= isize::MAX,
        0 < cols <= isize::MAX,
        wound(m, rows, cols, rows as int, 0, 0, rank, done),
        done == rows * cols,
    ensures
        m.is_perfect(),
{
    let corner = place(0, cols - 1);
    lemma_grid_cells_contains(rows, cols, corner);
    lemma_grid_cells_distinct(rows, cols);
    assert forall|x: Node| m.has_cell(x) && x != corner implies #[trigger] m.descends(rank, x) by {
        lemma_grid_cells_contains(rows, cols, x);
        assert(lower_link(m, rows, cols, rows as int, 0, rank, x));
        let n = choose|n: Node|
            before(n, rows, cols, rows as int, 0) && #[trigger] m.linked(x, n) && rank(n) < rank(x);
        lemma_grid_cells_contains(rows, cols, n);
        assert(m.has_cell(n) && m.linked(x, n) && rank(n) < rank(x));
    }
    assert forall|c: Node| m.has_cell(c) implies #[trigger] m.joins(c, corner) by {
        m.lemma_descent(corner, rank, c);
    }
    m.lemma_perfect_by_root(corner);
}

/// One step of the sidewinder on a flat grid, at the cell in row `r`, column
/// `c`: closes the run with a link from the run's cell in column `member` to
/// the north, or links the cell to the east (see [`wind`]).
pub(crate) fn wind_cell<K: Kind>(grid: &mut Grid<K>, r: isize, c: isize, close: bool, member: isize)
    requires
        old(grid).wf(),
        old(grid).kind().flat(),
        forall|n: Node| n.2 == 0 ==> K::Cell::is_node(n),
        close && r >= 1 ==> old(grid)@.has_cell(place(r as int, member as int)) && old(
            grid,
        )@.has_cell(place(r - 1, member as int)),
        !close ==> c < isize::MAX && old(grid)@.has_cell(place(r as int, c as int)) && old(
            grid,
        )@.has_cell(place(r as int, c + 1)),
    ensures
        final(grid).wf(),
        final(grid).kind() == old(grid).kind(),
        final(grid).marks() == old(grid).marks(),
        final(grid)@ == wind(old(grid)@, r as int, c as int, close, member as int),
{
    if close {
        if r >= 1 {
            grid.link(K::Cell::from_node((r, member, 0)), K::Cell::from_node((r - 1, member, 0)));
        }
    } else {
        grid.link(K::Cell::from_node((r, c, 0)), K::Cell::from_node((r, c + 1, 0)));
    }
}

/// At the end of a row the state of the sidewinder is that at the beginning
/// of the next row.
pub proof fn lemma_wind_row_end(
    m: Maze,
    rows: nat,
    cols: nat,
    r: int,
    rank: spec_fn(Node) -> nat,
    done: int,
)
    requires
        0 < rows <= isize::MAX,
        0 < cols <= isize::MAX,
        r < rows,
        wound(m, rows, cols, r, cols as int, cols as int, rank, done),
    ensures
        wound(m, rows, cols, r + 1, 0, 0, rank, done),
{
    let corner = place(0, cols - 1);
    assert forall|e: (Node, Node)| #[trigger] m.edges.contains(e) implies exists|y: Node| #[trigger]
        made_at(y, e, rows, cols, r + 1, 0, 0) by {
        let y = choose|y: Node| #[trigger] made_at(y, e, rows, cols, r, cols as int, cols as int);
        assert(made_at(y, e, rows, cols, r + 1, 0, 0));
    }
    assert forall|x: Node|
        before(x, rows, cols, r + 1, 0) && x != corner implies #[trigger] lower_link(
        m,
        rows,
        cols,
        r + 1,
        0,
        rank,
        x,
    ) by {
        assert(before(x, rows, cols, r, cols as int));
        assert(lower_link(m, rows, cols, r, cols as int, rank, x));
        let n = choose|n: Node|
            before(n, rows, cols, r, cols as int) && #[trigger] m.linked(x, n) && rank(n) < rank(x);
        assert(before(n, rows, cols, r + 1, 0) && m.linked(x, n) && rank(n) < rank(x));
    }
}

/// Whether the cells of row `row` from column `lo` to column `hi` are a run
/// that was closed at `member`: they are linked from west to east in a
/// chain, the run is not linked to the cells west and east of it, and, in a
/// row that has a row to its north, it is linked to the north at `member`
/// and nowhere else. The northernmost row is one run.
pub open spec fn run_at(m: Maze, cols: nat, row: int, lo: int, hi: int, member: int) -> bool {
    &&& 0 <= lo <= member <= hi < cols
    &&& forall|col: int| lo <= col < hi ==> m.linked(#[trigger] place(row, col), place(row, col + 1))
    &&& lo > 0 ==> !m.linked(place(row, lo - 1), place(row, lo))
    &&& hi + 1 < cols ==> !m.linked(place(row, hi), place(row, hi + 1))
    &&& row >= 1 ==> forall|col: int|
        lo <= col <= hi ==> (m.linked(#[trigger] place(row, col), place(row - 1, col)) <==> col
            == member)
    &&& row == 0 ==> lo == 0 && hi == cols - 1
}

/// Whether a cell lies in a closed run (see [`run_at`]) that ends before
/// column `s` if the cell is in row `r`.
pub open spec fn in_run(m: Maze, cols: nat, r: int, s: int, y: Node, lo: int, hi: int, member: int) -> bool {
    lo <= y.1 <= hi && (y.0 == r ==> hi < s) && run_at(m, cols, y.0 as int, lo, hi, member)
}

/// Whether every cell before row `r`, column `s` lies in a closed run.
pub open spec fn runs(m: Maze, rows: nat, cols: nat, r: int, s: int) -> bool {
    forall|y: Node| #[trigger]
        before(y, rows, cols, r, s) ==> exists|lo: int, hi: int, member: int| #[trigger]
            in_run(m, cols, r, s, y, lo, hi, member)
}

/// The sidewinder has made no link yet to the east of the cell it stands
/// at, nor to the north of a cell of the open run.
pub proof fn lemma_not_yet_linked(
    m: Maze,
    rows: nat,
    cols: nat,
    r: int,
    c: int,
    s: int,
    rank: spec_fn(Node) -> nat,
    done: int,
    col: int,
)
    requires
        0 < rows <= isize::MAX,
        0 < cols <= isize::MAX,
        wound(m, rows, cols, r, c, s, rank, done),
        r < rows,
        c < cols,
        s <= col <= c,
    ensures
        c + 1 < cols ==> !m.linked(place(r, c), place(r, c + 1)),
        r >= 1 ==> !m.linked(place(r, col), place(r - 1, col)),
{
    if c + 1 < cols && m.linked(place(r, c), place(r, c + 1)) {
        let e = edge_key(place(r, c), place(r, c + 1));
        let y = choose|y: Node| #[trigger] made_at(y, e, rows, cols, r, c, s);
        if before(y, rows, cols, r, c) && y.1 + 1 < cols && edge_key(y, east_of(y)) == e {
            lemma_edge_key_eq(y, east_of(y), place(r, c), place(r, c + 1));
        } else {
            lemma_edge_key_eq(y, north_of(y), place(r, c), place(r, c + 1));
        }
    }
    if r >= 1 && m.linked(place(r, col), place(r - 1, col)) {
        let e = edge_key(place(r, col), place(r - 1, col));
        let y = choose|y: Node| #[trigger] made_at(y, e, rows, cols, r, c, s);
        if before(y, rows, cols, r, c) && y.1 + 1 < cols && edge_key(y, east_of(y)) == e {
            lemma_edge_key_eq(y, east_of(y), place(r, col), place(r - 1, col));
        } else {
            lemma_edge_key_eq(y, north_of(y), place(r, col), place(r - 1, col));
        }
    }
}

/// A closed run stays one when a cell farther on is linked to the east, or
/// another cell to the north.
pub proof fn lemma_run_kept(
    m: Maze,
    rows: nat,
    cols: nat,
    row: int,
    lo: int,
    hi: int,
    member: int,
    r: int,
    c: int,
    north: bool,
)
    requires
        0 < rows <= isize::MAX,
        0 < cols <= isize::MAX,
        0 <= row <= r < rows,
        0 <= c < cols,
        run_at(m, cols, row, lo, hi, member),
        row == r ==> hi < c,
        north ==> r >= 1,
        !north ==> c + 1 < cols,
    ensures
        run_at(
            if north {
                m.connect(place(r, c), place(r - 1, c))
            } else {
                m.connect(place(r, c), place(r, c + 1))
            },
            cols,
            row,
            lo,
            hi,
            member,
        ),
{
    let a = place(r, c);
    let b = if north {
        place(r - 1, c)
    } else {
        place(r, c + 1)
    };
    let post = m.connect(a, b);
    crate::model::lemma_connect_links(m, a, b);
    lemma_edge_key(a, b);
    assert forall|col: int| lo <= col < hi implies post.linked(
        #[trigger] place(row, col),
        place(row, col + 1),
    ) by {
        assert(m.linked(place(row, col), place(row, col + 1)));
    }
    if row >= 1 {
        assert forall|col: int| lo <= col <= hi implies (post.linked(
            #[trigger] place(row, col),
            place(row - 1, col),
        ) <==> col == member) by {
            assert(m.linked(place(row, col), place(row - 1, col)) <==> col == member);
        }
    }
}

/// Linking the cell at which the sidewinder stands to the east keeps every
/// closed run.
pub proof fn lemma_runs_east(
    m: Maze,
    rows: nat,
    cols: nat,
    r: int,
    c: int,
    s: int,
)
    requires
        0 < rows <= isize::MAX,
        0 < cols <= isize::MAX,
        0 <= r < rows,
        0 <= s <= c,
        c + 1 < cols,
        runs(m, rows, cols, r, s),
    ensures
        runs(wind(m, r, c, false, 0), rows, cols, r, s),
{
    let post = wind(m, r, c, false, 0);
    assert forall|y: Node| #[trigger] before(y, rows, cols, r, s) implies exists|
        lo: int,
        hi: int,
        member: int,
    | #[trigger] in_run(post, cols, r, s, y, lo, hi, member) by {
        let (lo, hi, member) = choose|lo: int, hi: int, member: int| #[trigger]
            in_run(m, cols, r, s, y, lo, hi, member);
        lemma_run_kept(m, rows, cols, y.0 as int, lo, hi, member, r, c, false);
        assert(in_run(post, cols, r, s, y, lo, hi, member));
    }
}

/// Closing the open run makes a closed run of it, and keeps every other.
pub proof fn lemma_runs_close(
    m: Maze,
    rows: nat,
    cols: nat,
    r: int,
    c: int,
    s: int,
    member: int,
    rank: spec_fn(Node) -> nat,
    done: int,
)
    requires
        0 < rows <= isize::MAX,
        0 < cols <= isize::MAX,
        wound(m, rows, cols, r, c, s, rank, done),
        runs(m, rows, cols, r, s),
        0 <= r < rows,
        c < cols,
        s <= member <= c,
        r == 0 ==> c == cols - 1 && s == 0,
    ensures
        runs(wind(m, r, c, true, member), rows, cols, r, c + 1),
{
    let post = wind(m, r, c, true, member);
    let a = place(r, member);
    let b = place(r - 1, member);
    if r >= 1 {
        crate::model::lemma_connect_links(m, a, b);
        lemma_edge_key(a, b);
    }
    assert(run_at(post, cols, r, s, c, member)) by {
        assert forall|col: int| s <= col < c implies post.linked(
            #[trigger] place(r, col),
            place(r, col + 1),
        ) by {
            assert(m.linked(place(r, col), place(r, col + 1)));
        }
        if s > 0 {
            let y = place(r, s - 1);
            assert(before(y, rows, cols, r, s));
            let (lo, hi, at) = choose|lo: int, hi: int, at: int| #[trigger]
                in_run(m, cols, r, s, y, lo, hi, at);
            assert(hi == s - 1);
            assert(!m.linked(place(r, s - 1), place(r, s)));
        }
        lemma_not_yet_linked(m, rows, cols, r, c, s, rank, done, s);
        if r >= 1 {
            assert forall|col: int| s <= col <= c implies (post.linked(
                #[trigger] place(r, col),
                place(r - 1, col),
            ) <==> col == member) by {
                lemma_not_yet_linked(m, rows, cols, r, c, s, rank, done, col);
            }
        }
    }
    assert forall|y: Node| #[trigger] before(y, rows, cols, r, c + 1) implies exists|
        lo: int,
        hi: int,
        at: int,
    | #[trigger] in_run(post, cols, r, c + 1, y, lo, hi, at) by {
        if before(y, rows, cols, r, s) {
            let (lo, hi, at) = choose|lo: int, hi: int, at: int| #[trigger]
                in_run(m, cols, r, s, y, lo, hi, at);
            if r >= 1 {
                lemma_run_kept(m, rows, cols, y.0 as int, lo, hi, at, r, member, true);
            }
            assert(in_run(post, cols, r, c + 1, y, lo, hi, at));
        } else {
            assert(in_run(post, cols, r, c + 1, y, s, c, member));
        }
    }
}

/// At the end of a row every cell up to it lies in a closed run.
pub proof fn lemma_runs_row_end(m: Maze, rows: nat, cols: nat, r: int)
    requires
        0 <= r < rows,
        runs(m, rows, cols, r, cols as int),
    ensures
        runs(m, rows, cols, r + 1, 0),
{
    assert forall|y: Node| #[trigger] before(y, rows, cols, r + 1, 0) implies exists|
        lo: int,
        hi: int,
        at: int,
    | #[trigger] in_run(m, cols, r + 1, 0, y, lo, hi, at) by {
        assert(before(y, rows, cols, r, cols as int));
        let (lo, hi, at) = choose|lo: int, hi: int, at: int| #[trigger]
            in_run(m, cols, r, cols as int, y, lo, hi, at);
        assert(in_run(m, cols, r + 1, 0, y, lo, hi, at));
    }
}

/// The sidewinder on a flat grid whose cells are those of a rectangle.
pub(crate) fn wind_all<K: Kind>(grid: Grid<K>, rows: usize, cols: usize) -> (maze: Grid<K>)
    requires
        grid.wf(),
        grid.kind().flat(),
        forall|n: Node| n.2 == 0 ==> K::Cell::is_node(n),
        0 < rows <= isize::MAX,
        0 < cols <= isize::MAX,
        grid@.cells == grid_cells(rows as nat, cols as nat),
        grid@.edges =~= Set::<(Node, Node)>::empty(),
    ensures
        maze.wf(),
        maze.kind() == grid.kind(),
        maze.marks() == grid.marks(),
        maze@.cells == grid@.cells,
        exists|rank: spec_fn(Node) -> nat| #[trigger]
            wound(maze@, rows as nat, cols as nat, rows as int, 0, 0, rank, rows * cols),
        runs(maze@, rows as nat, cols as nat, rows as int, 0),
        maze@.is_perfect(),
{
    let mut maze = grid;
    let ghost mut rank = |y: Node| 0nat;
    let ghost mut done: int = 0;
    let mut r: usize = 0;
    proof {
        assert(0 * cols == 0) by (nonlinear_arith);
    }
    while r < rows
        invariant
            r <= rows,
            maze.wf(),
            maze.kind() == grid.kind(),
            maze.marks() == grid.marks(),
            maze.kind().flat(),
            forall|n: Node| n.2 == 0 ==> K::Cell::is_node(n),
            0 < rows <= isize::MAX,
            0 < cols <= isize::MAX,
            maze@.cells == grid@.cells,
            wound(maze@, rows as nat, cols as nat, r as int, 0, 0, rank, done),
            runs(maze@, rows as nat, cols as nat, r as int, 0),
            done == r * cols,
        decreases rows - r,
    {
        let mut start: usize = 0;
        let mut c: usize = 0;
        while c < cols
            invariant
                r < rows,
                c <= cols,
                start <= c,
                r == 0 && c < cols ==> start == 0,
                c == cols ==> start == cols,
                maze.wf(),
                maze.kind() == grid.kind(),
                maze.marks() == grid.marks(),
                maze.kind().flat(),
                forall|n: Node| n.2 == 0 ==> K::Cell::is_node(n),
                0 < rows <= isize::MAX,
                0 < cols <= isize::MAX,
                maze@.cells == grid@.cells,
                wound(maze@, rows as nat, cols as nat, r as int, c as int, start as int, rank, done),
                runs(maze@, rows as nat, cols as nat, r as int, start as int),
                done == r * cols + c,
            decreases cols - c,
        {
            let at_east = c + 1 == cols;
            let at_north = r == 0;
            let close = at_east || (!at_north && random_bool());
            if close {
                let picked = choose_index(c - start + 1).unwrap();
                let member = start + picked;
                proof {
                    lemma_runs_close(
                        maze@,
                        rows as nat,
                        cols as nat,
                        r as int,
                        c as int,
                        start as int,
                        member as int,
                        rank,
                        done,
                    );
                    lemma_wind_close(
                        maze@,
                        rows as nat,
                        cols as nat,
                        r as int,
                        c as int,
                        start as int,
                        member as int,
                        rank,
                        done,
                    );
                    rank = ranked(rank, cols as nat, r as int, start as int, c as int, member as int);
                    lemma_grid_cells_contains(rows as nat, cols as nat, place(r as int, member as int));
                    lemma_grid_cells_contains(rows as nat, cols as nat, place(r - 1, member as int));
                }
                wind_cell(&mut maze, r as isize, c as isize, true, member as isize);
                start = c + 1;
            } else {
                proof {
                    lemma_runs_east(maze@, rows as nat, cols as nat, r as int, c as int, start as int);
                    lemma_wind_east(
                        maze@,
                        rows as nat,
                        cols as nat,
                        r as int,
                        c as int,
                        start as int,
                        rank,
                        done,
                    );
                    lemma_grid_cells_contains(rows as nat, cols as nat, place(r as int, c as int));
                    lemma_grid_cells_contains(rows as nat, cols as nat, place(r as int, c + 1));
                }
                wind_cell(&mut maze, r as isize, c as isize, false, 0);
            }
            c += 1;
            proof {
                done = done + 1;
            }
        }
        proof {
            lemma_runs_row_end(maze@, rows as nat, cols as nat, r as int);
            lemma_wind_row_end(maze@, rows as nat, cols as nat, r as int, rank, done);
            assert(r * cols + cols == (r + 1) * cols) by (nonlinear_arith);
        }
        r += 1;
    }
    proof {
        lemma_wound_perfect(maze@, rows as nat, cols as nat, rank, done);
    }
    maze
}

impl Grid<Regular> {
    /// One step of the sidewinder at the cell in row `row`, column `col`.
    /// To close the run is to link the run's cell in column `member` to its
    /// northern neighbour, if the row has a row to its north; not to close
    /// it is to link the cell to its eastern neighbour.
    pub fn sidewinder_at(&mut self, row: usize, col: usize, close: bool, member: usize)
        requires
            old(self).wf(),
            row < old(self).kind().rows,
            col < old(self).kind().cols,
            close ==> member < old(self).kind().cols,
            !close ==> col + 1 < old(self).kind().cols,
        ensures
            final(self).wf(),
            final(self).kind() == old(self).kind(),
            final(self).marks() == old(self).marks(),
            final(self)@ == wind(old(self)@, row as int, col as int, close, member as int),
    {
        proof {
            let rows = self.kind().rows as nat;
            let cols = self.kind().cols as nat;
            lemma_grid_cells_contains(rows, cols, place(row as int, member as int));
            lemma_grid_cells_contains(rows, cols, place(row - 1, member as int));
            lemma_grid_cells_contains(rows, cols, place(row as int, col as int));
            lemma_grid_cells_contains(rows, cols, place(row as int, col + 1));
        }
        wind_cell(self, row as isize, col as isize, close, member as isize);
    }

    /// Passes through the cells row by row. Each cell joins the run of its
    /// row; at the eastern boundary, and on heads anywhere but in the
    /// northernmost row, the run is closed: a random cell of the run is linked
    /// to its northern neighbour, if it has one, and a new run begins.
    /// Otherwise the cell is linked to its eastern neighbour. The result is
    /// a perfect maze in which every link is the eastward or the northward
    /// link of a cell (see [`wound`]), the northernmost row is one corridor,
    /// and every other row is made of runs of cells, linked from west to
    /// east, each with one link to the north (see [`runs`]). A grid without
    /// cells is left as it is.
    pub fn sidewinder(self) -> (maze: Self)
        requires
            self.wf(),
            self@.edges =~= Set::<(Node, Node)>::empty(),
        ensures
            maze.wf(),
            maze.kind() == self.kind(),
            maze.marks() == self.marks(),
            maze@.cells == self@.cells,
            self.kind().rows == 0 || self.kind().cols == 0 ==> maze@ == self@,
            self.kind().rows >= 1 && self.kind().cols >= 1 ==> maze@.is_perfect(),
            self.kind().rows >= 1 && self.kind().cols >= 1 ==> exists|rank: spec_fn(Node) -> nat| #[trigger]
                wound(
                    maze@,
                    self.kind().rows as nat,
                    self.kind().cols as nat,
                    self.kind().rows as int,
                    0,
                    0,
                    rank,
                    self.kind().rows * self.kind().cols,
                ),
            self.kind().rows >= 1 && self.kind().cols >= 1 ==> runs(
                maze@,
                self.kind().rows as nat,
                self.kind().cols as nat,
                self.kind().rows as int,
                0,
            ),
    {
        let rows = self.topology().rows;
        let cols = self.topology().cols;
        if rows == 0 || cols == 0 {
            return self;
        }
        wind_all(self, rows, cols)
    }
}

impl Grid<Hex> {
    /// One step of the sidewinder at the hex in row `row`, column `col` (see
    /// [`wind`]).
    pub fn sidewinder_at(&mut self, row: usize, col: usize, close: bool, member: usize)
        requires
            old(self).wf(),
            row < old(self).kind().rows,
            col < old(self).kind().cols,
            close ==> member < old(self).kind().cols,
            !close ==> col + 1 < old(self).kind().cols,
        ensures
            final(self).wf(),
            final(self).kind() == old(self).kind(),
            final(self).marks() == old(self).marks(),
            final(self)@ == wind(old(self)@, row as int, col as int, close, member as int),
    {
        proof {
            let rows = self.kind().rows as nat;
            let cols = self.kind().cols as nat;
            lemma_grid_cells_contains(rows, cols, place(row as int, member as int));
            lemma_grid_cells_contains(rows, cols, place(row - 1, member as int));
            lemma_grid_cells_contains(rows, cols, place(row as int, col as int));
            lemma_grid_cells_contains(rows, cols, place(row as int, col + 1));
        }
        wind_cell(self, row as isize, col as isize, close, member as isize);
    }

    /// The sidewinder on hexes, the next hex in the row standing for the
    /// eastern neighbour. The result is a perfect maze in which every link
    /// is the eastward or the northward link of a cell (see [`wound`]), the
    /// northernmost row is one corridor, and every other row is made of
    /// runs, each with one link to the north (see [`runs`]). A grid without
    /// cells is left as it is.
    pub fn sidewinder(self) -> (maze: Self)
        requires
            self.wf(),
            self@.edges =~= Set::<(Node, Node)>::empty(),
        ensures
            maze.wf(),
            maze.kind() == self.kind(),
            maze.marks() == self.marks(),
            maze@.cells == self@.cells,
            self.kind().rows == 0 || self.kind().cols == 0 ==> maze@ == self@,
            self.kind().rows >= 1 && self.kind().cols >= 1 ==> maze@.is_perfect(),
            self.kind().rows >= 1 && self.kind().cols >= 1 ==> exists|rank: spec_fn(Node) -> nat| #[trigger]
                wound(
                    maze@,
                    self.kind().rows as nat,
                    self.kind().cols as nat,
                    self.kind().rows as int,
                    0,
                    0,
                    rank,
                    self.kind().rows * self.kind().cols,
                ),
            self.kind().rows >= 1 && self.kind().cols >= 1 ==> runs(
                maze@,
                self.kind().rows as nat,
                self.kind().cols as nat,
                self.kind().rows as int,
                0,
            ),
    {
        let rows = self.topology().rows;
        let cols = self.topology().cols;
        if rows == 0 || cols == 0 {
            return self;
        }
        wind_all(self, rows, cols)
    }
}

} // verus!
