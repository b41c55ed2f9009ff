//! Recursive division: a grid with every link, divided again and again by
//! walls with one passage each.

use crate::cell::CellKind;
use crate::cell::RegularCell;
use crate::cell::nodes_of;
use crate::generators::sidewinder::place;
use crate::graph::Node;
use crate::graph::edge_key;
use crate::grid::Grid;
use crate::kind::Kind;
use crate::model::lemma_edge_key_eq;
use crate::model::Maze;
use crate::rect::lemma_grid_cells_contains;
use crate::random::random_range;
use crate::regular::Regular;
use vstd::prelude::*;

verus! {

/// Whether two surface places lie side by side, in one row or one column.
pub open spec fn beside(a: Node, b: Node) -> bool {
    a.2 == 0 && b.2 == 0 && ((a.0 == b.0 && (a.1 - b.1 == 1 || b.1 - a.1 == 1)) || (a.1 == b.1 && (
    a.0 - b.0 == 1 || b.0 - a.0 == 1)))
}

/// A rectangle of places.
pub struct Region {
    pub row: int,
    pub col: int,
    pub height: int,
    pub width: int,
}

impl Region {
    /// Whether a surface place lies in the region.
    pub open spec fn holds(self, x: Node) -> bool {
        x.2 == 0 && self.row <= x.0 < self.row + self.height && self.col <= x.1 < self.col
            + self.width
    }

    /// Whether every two places of the region that lie side by side are
    /// linked.
    pub open spec fn open_in(self, m: Maze) -> bool {
        forall|a: Node, b: Node|
            self.holds(a) && self.holds(b) && beside(a, b) ==> #[trigger] m.linked(a, b)
    }

    /// Whether `p` is a walk along links that stays in the region.
    pub open spec fn walk_in(self, m: Maze, p: Seq<Node>) -> bool {
        m.is_walk(p) && forall|i: int| 0 <= i < p.len() ==> self.holds(#[trigger] p[i])
    }

    /// Whether a walk that stays in the region leads from `a` to `b`.
    pub open spec fn joins_in(self, m: Maze, a: Node, b: Node) -> bool {
        exists|p: Seq<Node>| #[trigger] self.walk_in(m, p) && p.first() == a && p.last() == b
    }

    /// Whether a walk that stays in the region leads from every place of
    /// the region to every other.
    pub open spec fn connected_in(self, m: Maze) -> bool {
        forall|a: Node, b: Node| self.holds(a) && self.holds(b) ==> #[trigger] self.joins_in(m, a, b)
    }

    /// Whether two mazes have the same links but between places of the
    /// region.
    pub open spec fn same_outside(self, pre: Maze, post: Maze) -> bool {
        forall|a: Node, b: Node|
            !(self.holds(a) && self.holds(b)) ==> #[trigger] post.linked(a, b) == pre.linked(a, b)
    }

    /// Whether the region lies in another.
    pub open spec fn within(self, outer: Region) -> bool {
        forall|x: Node| #[trigger] self.holds(x) ==> outer.holds(x)
    }

    /// A walk in the region goes on along a link to a place of the region.
    pub proof fn lemma_joins_in_step(self, m: Maze, a: Node, b: Node, c: Node)
        requires
            self.joins_in(m, a, b),
            m.linked(b, c),
            self.holds(c),
        ensures
            self.joins_in(m, a, c),
    {
        let p = choose|p: Seq<Node>| #[trigger] self.walk_in(m, p) && p.first() == a && p.last() == b;
        let q = p.push(c);
        assert forall|i: int| 0 <= i < q.len() - 1 implies m.linked(#[trigger] q[i], q[i + 1]) by {
            if i < p.len() - 1 {
                assert(m.linked(p[i], p[i + 1]));
            }
        }
        assert forall|i: int| 0 <= i < q.len() implies self.holds(#[trigger] q[i]) by {
            if i < p.len() {
                assert(self.holds(p[i]));
            }
        }
        assert(self.walk_in(m, q));
        assert(q.first() == a && q.last() == c);
    }

    /// Walks in the region can be put end to end.
    pub proof fn lemma_joins_in_transitive(self, m: Maze, a: Node, b: Node, c: Node)
        requires
            self.joins_in(m, a, b),
            self.joins_in(m, b, c),
        ensures
            self.joins_in(m, a, c),
    {
        let p = choose|p: Seq<Node>| #[trigger] self.walk_in(m, p) && p.first() == a && p.last() == b;
        let q = choose|q: Seq<Node>| #[trigger] self.walk_in(m, q) && q.first() == b && q.last() == c;
        let r = p + q.subrange(1, q.len() as int);
        assert forall|i: int| 0 <= i < r.len() - 1 implies m.linked(#[trigger] r[i], r[i + 1]) by {
            if i < p.len() - 1 {
                assert(m.linked(p[i], p[i + 1]));
            } else {
                let j = i - p.len() + 1;
                assert(m.linked(q[j], q[j + 1]));
            }
        }
        assert forall|i: int| 0 <= i < r.len() implies self.holds(#[trigger] r[i]) by {
            if i < p.len() {
                assert(self.holds(p[i]));
            } else {
                assert(self.holds(q[i - p.len() + 1]));
            }
        }
        assert(self.walk_in(m, r));
        assert(r.first() == a && r.last() == c);
    }

    /// A walk in a region is a walk in every region that the region lies in,
    /// and in every maze that has the links between places of the region.
    pub proof fn lemma_joins_in_kept(self, m: Maze, post: Maze, outer: Region, a: Node, b: Node)
        requires
            self.joins_in(m, a, b),
            self.within(outer),
            forall|x: Node, y: Node|
                self.holds(x) && self.holds(y) && #[trigger] m.linked(x, y) ==> post.linked(x, y),
        ensures
            outer.joins_in(post, a, b),
    {
        let p = choose|p: Seq<Node>| #[trigger] self.walk_in(m, p) && p.first() == a && p.last() == b;
        assert forall|i: int| 0 <= i < p.len() - 1 implies post.linked(#[trigger] p[i], p[i + 1]) by {
            assert(m.linked(p[i], p[i + 1]));
            assert(self.holds(p[i]) && self.holds(p[i + 1]));
        }
        assert forall|i: int| 0 <= i < p.len() implies outer.holds(#[trigger] p[i]) by {
            assert(self.holds(p[i]));
        }
        assert(outer.walk_in(post, p));
    }

    /// In a region in which every two places side by side are linked, a walk
    /// that stays in the region leads from every place to every other.
    pub proof fn lemma_open_joins(self, m: Maze, a: Node, b: Node)
        requires
            self.open_in(m),
            self.holds(a),
            self.holds(b),
        ensures
            self.joins_in(m, a, b),
        decreases vstd::math::abs(b.0 - a.0) + vstd::math::abs(b.1 - a.1),
    {
        if a == b {
            let p = seq![a];
            assert(self.walk_in(m, p));
            assert(p.first() == a && p.last() == b);
        } else {
            let s = crate::rect::step_towards(a, b);
            assert(self.holds(s));
            self.lemma_open_joins(m, a, s);
            assert(beside(s, b));
            assert(m.linked(s, b));
            self.lemma_joins_in_step(m, a, s, b);
        }
    }

    /// The same for all places at once.
    pub proof fn lemma_open_connected(self, m: Maze)
        requires
            self.open_in(m),
        ensures
            self.connected_in(m),
    {
        assert forall|a: Node, b: Node| self.holds(a) && self.holds(b) implies #[trigger] self.joins_in(
            m,
            a,
            b,
        ) by {
            self.lemma_open_joins(m, a, b);
        }
    }

    /// Two regions side by side, each connected in itself, with a link
    /// from a place of the one to a place of the other, make a connected
    /// region, if every place of that region lies in one of the two.
    pub proof fn lemma_halves_connected(self, m: Maze, one: Region, two: Region, x: Node, y: Node)
        requires
            one.connected_in(m),
            two.connected_in(m),
            one.within(self),
            two.within(self),
            forall|n: Node| #[trigger] self.holds(n) ==> one.holds(n) || two.holds(n),
            one.holds(x),
            two.holds(y),
            m.linked(x, y),
        ensures
            self.connected_in(m),
    {
        assert forall|a: Node, b: Node| self.holds(a) && self.holds(b) implies #[trigger] self.joins_in(
            m,
            a,
            b,
        ) by {
            m.lemma_linked_symmetric(x, y);
            if one.holds(a) && one.holds(b) {
                assert(one.joins_in(m, a, b));
                one.lemma_joins_in_kept(m, m, self, a, b);
            } else if two.holds(a) && two.holds(b) {
                assert(two.joins_in(m, a, b));
                two.lemma_joins_in_kept(m, m, self, a, b);
            } else if one.holds(a) {
                assert(one.joins_in(m, a, x));
                assert(two.joins_in(m, y, b));
                one.lemma_joins_in_kept(m, m, self, a, x);
                two.lemma_joins_in_kept(m, m, self, y, b);
                self.lemma_joins_in_step(m, a, x, y);
                self.lemma_joins_in_transitive(m, a, y, b);
            } else {
                assert(two.joins_in(m, a, y));
                assert(one.joins_in(m, x, b));
                two.lemma_joins_in_kept(m, m, self, a, y);
                one.lemma_joins_in_kept(m, m, self, x, b);
                self.lemma_joins_in_step(m, a, y, x);
                self.lemma_joins_in_transitive(m, a, x, b);
            }
        }
    }
}

/// The maze without the links that cross a wall: the wall runs south of row
/// `row`, from column `col` on for `width` columns, or, if not `south`,
/// east of column `col`, from row `row` on for `width` rows, and has a
/// passage at its place `passage`.
pub open spec fn walled(
    m: Maze,
    south: bool,
    row: int,
    col: int,
    width: int,
    passage: int,
) -> Maze {
    Maze {
        cells: m.cells,
        edges: Set::new(
            |e: (Node, Node)|
                m.edges.contains(e) && !exists|x: int|
                    0 <= x < width && x != passage && #[trigger] wall_link(south, row, col, x) == e,
        ),
    }
}

/// The link that the wall of [`walled`] severs at its place `x`.
pub open spec fn wall_link(south: bool, row: int, col: int, x: int) -> (Node, Node) {
    if south {
        edge_key(place(row, col + x), place(row + 1, col + x))
    } else {
        edge_key(place(row + x, col), place(row + x, col + 1))
    }
}

/// Whether a wall stands in a maze where [`walled`] builds one: no link
/// crosses it but, at most, the one at its place `passage`.
pub open spec fn wall_stands(
    m: Maze,
    south: bool,
    row: int,
    col: int,
    width: int,
    passage: int,
) -> bool {
    forall|x: int|
        0 <= x < width && x != passage ==> !m.edges.contains(#[trigger] wall_link(south, row, col, x))
}

/// Whether a wall stands across a region, from west to east behind the
/// first `near` rows of it if `south`, else from north to south behind
/// the first `near` columns, with its passage at place `passage`.
pub open spec fn wall_across(m: Maze, r: Region, south: bool, near: int, passage: int) -> bool {
    if south {
        0 < near < r.height && 0 <= passage < r.width && wall_stands(
            m,
            true,
            r.row + near - 1,
            r.col,
            r.width,
            passage,
        )
    } else {
        0 < near < r.width && 0 <= passage < r.height && wall_stands(
            m,
            false,
            r.row,
            r.col + near - 1,
            r.height,
            passage,
        )
    }
}

/// Whether a wall with one passage at most divides a region, from west to
/// east if `south`, else from north to south.
pub open spec fn divided_by(m: Maze, r: Region, south: bool) -> bool {
    exists|near: int, passage: int| #[trigger] wall_across(m, r, south, near, passage)
}

/// A wall stands where it was built, and when links are taken away.
pub proof fn lemma_wall_stands(
    m: Maze,
    post: Maze,
    south: bool,
    row: int,
    col: int,
    width: int,
    passage: int,
)
    requires
        post.edges.subset_of(walled(m, south, row, col, width, passage).edges),
    ensures
        wall_stands(post, south, row, col, width, passage),
{
    assert forall|x: int| 0 <= x < width && x != passage implies !post.edges.contains(
        #[trigger] wall_link(south, row, col, x),
    ) by {
        let e = wall_link(south, row, col, x);
        if post.edges.contains(e) {
            assert(walled(m, south, row, col, width, passage).edges.contains(e));
        }
    }
}

/// The region of a rectangle of places.
pub open spec fn region(row: int, col: int, height: int, width: int) -> Region {
    Region { row, col, height, width }
}

/// The two parts into which a wall divides a region: north and south of
/// it, or, if not `south`, west and east of it. The wall runs behind the
/// first `near` rows, or columns, of the region.
pub open spec fn parts(r: Region, south: bool, near: int) -> (Region, Region) {
    if south {
        (
            region(r.row, r.col, near, r.width),
            region(r.row + near, r.col, r.height - near, r.width),
        )
    } else {
        (
            region(r.row, r.col, r.height, near),
            region(r.row, r.col + near, r.height, r.width - near),
        )
    }
}

/// A wall with a passage across a region in which every two places side by
/// side are linked leaves them linked in both parts, leaves the link of the
/// passage, and leaves every link that does not join two places of the
/// region.
pub proof fn lemma_wall(m: Maze, r: Region, south: bool, near: int, passage: int)
    requires
        0 < near,
        south ==> near < r.height && 0 <= passage < r.width,
        !south ==> near < r.width && 0 <= passage < r.height,
        isize::MIN <= r.row && r.row + r.height <= isize::MAX,
        isize::MIN <= r.col && r.col + r.width <= isize::MAX,
    ensures
        ({
            let post = if south {
                walled(m, true, r.row + near - 1, r.col, r.width, passage)
            } else {
                walled(m, false, r.row, r.col + near - 1, r.height, passage)
            };
            let (one, two) = parts(r, south, near);
            let x = if south {
                place(r.row + near - 1, r.col + passage)
            } else {
                place(r.row + passage, r.col + near - 1)
            };
            let y = if south {
                place(r.row + near, r.col + passage)
            } else {
                place(r.row + passage, r.col + near)
            };
            &&& r.same_outside(m, post)
            &&& one.within(r) && two.within(r)
            &&& forall|n: Node| #[trigger] r.holds(n) ==> one.holds(n) || two.holds(n)
            &&& one.holds(x) && two.holds(y)
            &&& forall|a: Node, b: Node| #[trigger] post.linked(a, b) ==> m.linked(a, b)
            &&& r.open_in(m) ==> one.open_in(post) && two.open_in(post) && post.linked(x, y)
        }),
{
    let (wrow, wcol, width) = if south {
        (r.row + near - 1, r.col, r.width)
    } else {
        (r.row, r.col + near - 1, r.height)
    };
    let post = walled(m, south, wrow, wcol, width, passage);
    let (one, two) = parts(r, south, near);
    assert forall|a: Node, b: Node|
        m.linked(a, b) && !post.linked(a, b) implies r.holds(a) && r.holds(b) && !(one.holds(a)
        && one.holds(b)) && !(two.holds(a) && two.holds(b)) && (edge_key(a, b) == wall_link(
        south,
        wrow,
        wcol,
        passage,
    ) ==> false) by {
        let e = edge_key(a, b);
        let k = choose|k: int| 0 <= k < width && k != passage && #[trigger] wall_link(south, wrow, wcol, k) == e;
        if south {
            lemma_edge_key_eq(a, b, place(wrow, wcol + k), place(wrow + 1, wcol + k));
        } else {
            lemma_edge_key_eq(a, b, place(wrow + k, wcol), place(wrow + k, wcol + 1));
        }
        if e == wall_link(south, wrow, wcol, passage) {
            if south {
                lemma_edge_key_eq(
                    place(wrow, wcol + k),
                    place(wrow + 1, wcol + k),
                    place(wrow, wcol + passage),
                    place(wrow + 1, wcol + passage),
                );
            } else {
                lemma_edge_key_eq(
                    place(wrow + k, wcol),
                    place(wrow + k, wcol + 1),
                    place(wrow + passage, wcol),
                    place(wrow + passage, wcol + 1),
                );
            }
        }
    }
    assert forall|a: Node, b: Node| !(r.holds(a) && r.holds(b)) implies #[trigger] post.linked(a, b)
        == m.linked(a, b) by {}
}

/// A region that was divided by a wall with a passage, and whose parts
/// were divided in turn, is connected, if every two places side by side in it
/// were linked; and no link but between places of the region has changed.
pub proof fn lemma_divided(
    m0: Maze,
    m1: Maze,
    m2: Maze,
    m3: Maze,
    r: Region,
    south: bool,
    near: int,
    passage: int,
)
    requires
        0 < near,
        south ==> near < r.height && 0 <= passage < r.width,
        !south ==> near < r.width && 0 <= passage < r.height,
        isize::MIN <= r.row && r.row + r.height <= isize::MAX,
        isize::MIN <= r.col && r.col + r.width <= isize::MAX,
        m1 == if south {
            walled(m0, true, r.row + near - 1, r.col, r.width, passage)
        } else {
            walled(m0, false, r.row, r.col + near - 1, r.height, passage)
        },
        parts(r, south, near).0.same_outside(m1, m2),
        parts(r, south, near).0.open_in(m1) ==> parts(r, south, near).0.connected_in(m2),
        parts(r, south, near).1.same_outside(m2, m3),
        parts(r, south, near).1.open_in(m2) ==> parts(r, south, near).1.connected_in(m3),
    ensures
        r.same_outside(m0, m3),
        r.open_in(m0) ==> r.connected_in(m3),
{
    let (one, two) = parts(r, south, near);
    lemma_wall(m0, r, south, near, passage);
    let x = if south {
        place(r.row + near - 1, r.col + passage)
    } else {
        place(r.row + passage, r.col + near - 1)
    };
    let y = if south {
        place(r.row + near, r.col + passage)
    } else {
        place(r.row + passage, r.col + near)
    };
    assert forall|a: Node, b: Node| !(r.holds(a) && r.holds(b)) implies #[trigger] m3.linked(a, b)
        == m0.linked(a, b) by {
        assert(m1.linked(a, b) == m0.linked(a, b));
        assert(m2.linked(a, b) == m1.linked(a, b));
        assert(m3.linked(a, b) == m2.linked(a, b));
    }
    if r.open_in(m0) {
        assert(one.connected_in(m2));
        assert forall|a: Node, b: Node|
            two.holds(a) && two.holds(b) && beside(a, b) implies #[trigger] m2.linked(a, b) by {
            assert(m1.linked(a, b));
            assert(m2.linked(a, b) == m1.linked(a, b));
        }
        assert(two.connected_in(m3));
        assert(m2.linked(x, y) == m1.linked(x, y));
        assert(m3.linked(x, y) == m2.linked(x, y));
        assert forall|a: Node, b: Node| one.holds(a) && one.holds(b) implies #[trigger] one.joins_in(
            m3,
            a,
            b,
        ) by {
            assert(one.joins_in(m2, a, b));
            assert forall|u: Node, v: Node|
                one.holds(u) && one.holds(v) && #[trigger] m2.linked(u, v) implies m3.linked(u, v) by {
                assert(m3.linked(u, v) == m2.linked(u, v));
            }
            one.lemma_joins_in_kept(m2, m3, one, a, b);
        }
        r.lemma_halves_connected(m3, one, two, x, y);
    }
}

impl Grid<Regular> {
    /// Whether every link is a link of `given` or joins a cell and a cell
    /// adjacent to it.
    pub open spec fn links_near(&self, given: Maze) -> bool {
        forall|a: Node, b: Node| #[trigger]
            self@.linked(a, b) ==> given.linked(a, b) || self.kind().adjacent(self@, a).contains(b)
                || self.kind().adjacent(self@, b).contains(a)
    }

    /// Whether a rectangle of places lies in the grid.
    pub open spec fn holds(&self, row: int, col: int, height: int, width: int) -> bool {
        0 <= row && 0 <= col && 0 <= height && 0 <= width && row + height <= self.kind().rows && col
            + width <= self.kind().cols
    }

    /// Links every cell to every cell adjacent to it.
    pub fn link_all(&mut self)
        requires
            old(self).wf(),
        ensures
            final(self).wf(),
            final(self).kind() == old(self).kind(),
            final(self).marks() == old(self).marks(),
            final(self)@.cells == old(self)@.cells,
            old(self)@.edges.subset_of(final(self)@.edges),
            final(self).links_near(old(self)@),
            forall|a: Node, i: int|
                final(self)@.has_cell(a) && 0 <= i < final(self).kind().adjacent(final(self)@, a).len()
                    ==> final(self)@.linked(
                    a,
                    #[trigger] final(self).kind().adjacent(final(self)@, a)[i],
                ),
    {
        let cells = self.cells();
        let mut c: usize = 0;
        while c < cells.len()
            invariant
                c <= cells.len(),
                self.wf(),
                self.kind() == old(self).kind(),
                self.marks() == old(self).marks(),
                self@.cells == old(self)@.cells,
                old(self)@.edges.subset_of(self@.edges),
                self.links_near(old(self)@),
                nodes_of(cells@) == self@.cells,
                forall|j: int, i: int|
                    0 <= j < c && 0 <= i < self.kind().adjacent(self@, self@.cells[j]).len()
                        ==> self@.linked(
                        self@.cells[j],
                        #[trigger] self.kind().adjacent(self@, self@.cells[j])[i],
                    ),
            decreases cells.len() - c,
        {
            let cell = cells[c];
            let around = self.neighbours(cell);
            let ghost adj = self.kind().adjacent(self@, cell.node());
            proof {
                assert(nodes_of(cells@)[c as int] == cell.node());
                assert(self@.cells.contains(cell.node()));
            }
            let mut i: usize = 0;
            while i < around.len()
                invariant
                    i <= around.len(),
                    c < cells.len(),
                    self.wf(),
                    self.kind() == old(self).kind(),
                    self.marks() == old(self).marks(),
                    self@.cells == old(self)@.cells,
                    old(self)@.edges.subset_of(self@.edges),
                    self.links_near(old(self)@),
                    nodes_of(cells@) == self@.cells,
                    cell.node() == self@.cells[c as int],
                    self@.has_cell(cell.node()),
                    nodes_of(around@) == adj,
                    adj == self.kind().adjacent(self@, cell.node()),
                    forall|k: int| 0 <= k < around.len() ==> self@.has_cell((#[trigger] around[k]).node()),
                    forall|j: int, x: int|
                        0 <= j < c && 0 <= x < self.kind().adjacent(self@, self@.cells[j]).len()
                            ==> self@.linked(
                            self@.cells[j],
                            #[trigger] self.kind().adjacent(self@, self@.cells[j])[x],
                        ),
                    forall|x: int| 0 <= x < i ==> self@.linked(cell.node(), #[trigger] adj[x]),
                decreases around.len() - i,
            {
                let ghost before = self@;
                proof {
                    assert(nodes_of(around@)[i as int] == around[i as int].node());
                    crate::model::lemma_edge_key(cell.node(), around[i as int].node());
                }
                self.link(cell, around[i]);
                proof {
                    assert forall|a: Node, b: Node| #[trigger] self@.linked(a, b) implies old(
                        self,
                    )@.linked(a, b) || self.kind().adjacent(self@, a).contains(b)
                        || self.kind().adjacent(self@, b).contains(a) by {
                        crate::model::lemma_edge_key(a, b);
                        if !before.linked(a, b) {
                            crate::model::lemma_edge_key_eq(a, b, cell.node(), around[i as int].node());
                            assert(adj.contains(adj[i as int]));
                        }
                    }
                    assert forall|j: int, x: int|
                        0 <= j < c && 0 <= x < self.kind().adjacent(
                            self@,
                            self@.cells[j],
                        ).len() implies self@.linked(
                        self@.cells[j],
                        #[trigger] self.kind().adjacent(self@, self@.cells[j])[x],
                    ) by {
                        assert(before.linked(
                            before.cells[j],
                            self.kind().adjacent(before, before.cells[j])[x],
                        ));
                    }
                    assert forall|x: int| 0 <= x < i + 1 implies self@.linked(
                        cell.node(),
                        #[trigger] adj[x],
                    ) by {
                        if x < i {
                            assert(before.linked(cell.node(), adj[x]));
                        }
                    }
                }
                i += 1;
            }
            c += 1;
        }
        proof {
            assert forall|a: Node, i: int|
                self@.has_cell(a) && 0 <= i < self.kind().adjacent(self@, a).len() implies self@.linked(
                a,
                #[trigger] self.kind().adjacent(self@, a)[i],
            ) by {
                let j = choose|j: int| 0 <= j < self@.cells.len() && self@.cells[j] == a;
            }
        }
    }

    /// Builds a wall south of a row, or east of a column, with one passage:
    /// severs the links that cross it but the one at the passage (see
    /// [`walled`]).
    pub fn build_wall(
        &mut self,
        south: bool,
        row: usize,
        col: usize,
        width: usize,
        passage: usize,
    )
        requires
            old(self).wf(),
            if south {
                old(self).holds(row as int, col as int, 2, width as int)
            } else {
                old(self).holds(row as int, col as int, width as int, 2)
            },
        ensures
            final(self).wf(),
            final(self).kind() == old(self).kind(),
            final(self).marks() == old(self).marks(),
            final(self)@ == walled(
                old(self)@,
                south,
                row as int,
                col as int,
                width as int,
                passage as int,
            ),
    {
        let mut x: usize = 0;
        assert(self@.edges =~= walled(old(self)@, south, row as int, col as int, 0, passage as int).edges);
        while x < width
            invariant
                x <= width,
                self.wf(),
                self.kind() == old(self).kind(),
                self.marks() == old(self).marks(),
                if south {
                    self.holds(row as int, col as int, 2, width as int)
                } else {
                    self.holds(row as int, col as int, width as int, 2)
                },
                self@ == walled(old(self)@, south, row as int, col as int, x as int, passage as int),
            decreases width - x,
        {
            let ghost before = self@;
            if passage != x {
                let (cell, other) = if south {
                    (
                        RegularCell::new((row) as isize, (col + x) as isize),
                        RegularCell::new((row + 1) as isize, (col + x) as isize),
                    )
                } else {
                    (
                        RegularCell::new((row + x) as isize, col as isize),
                        RegularCell::new((row + x) as isize, (col + 1) as isize),
                    )
                };
                self.unlink(cell, other);
                assert(edge_key(cell.node(), other.node()) == wall_link(
                    south,
                    row as int,
                    col as int,
                    x as int,
                ));
            }
            proof {
                let now = walled(old(self)@, south, row as int, col as int, x + 1, passage as int);
                assert forall|e: (Node, Node)| self@.edges.contains(e) <==> now.edges.contains(e) by {
                    if exists|y: int|
                        0 <= y < x + 1 && y != passage && #[trigger] wall_link(
                            south,
                            row as int,
                            col as int,
                            y,
                        ) == e {
                        let y = choose|y: int|
                            0 <= y < x + 1 && y != passage && #[trigger] wall_link(
                                south,
                                row as int,
                                col as int,
                                y,
                            ) == e;
                        if y < x {
                            assert(!before.edges.contains(e));
                        }
                    }
                    if before.edges.contains(e) && !self@.edges.contains(e) {
                        assert(wall_link(south, row as int, col as int, x as int) == e);
                    }
                }
                assert(self@.edges =~= now.edges);
            }
            x += 1;
        }
    }

    /// Divides a region of the grid: unless it is too narrow, or small and
    /// left as a room by chance, a wall with one passage is built across it,
    /// and both parts are divided in turn. The wall runs from west to east
    /// where the region is higher than wide, else from north to south. A
    /// region of at least two rows and two columns that has five rows or
    /// five columns is never left as a room.
    pub fn divide(&mut self, row: usize, col: usize, height: usize, width: usize)
        requires
            old(self).wf(),
            old(self).holds(row as int, col as int, height as int, width as int),
        ensures
            final(self).wf(),
            final(self).kind() == old(self).kind(),
            final(self).marks() == old(self).marks(),
            final(self)@.cells == old(self)@.cells,
            final(self)@.edges.subset_of(old(self)@.edges),
            region(row as int, col as int, height as int, width as int).same_outside(
                old(self)@,
                final(self)@,
            ),
            region(row as int, col as int, height as int, width as int).open_in(old(self)@)
                ==> region(row as int, col as int, height as int, width as int).connected_in(
                final(self)@,
            ),
            final(self)@ == old(self)@ || divided_by(
                final(self)@,
                region(row as int, col as int, height as int, width as int),
                height > width,
            ),
            height >= 2 && width >= 2 && (height >= 5 || width >= 5) ==> divided_by(
                final(self)@,
                region(row as int, col as int, height as int, width as int),
                height > width,
            ),
            height <= 1 || width <= 1 ==> final(self)@ == old(self)@,
        decreases height + width, 1int,
    {
        proof {
            let r = region(row as int, col as int, height as int, width as int);
            if r.open_in(self@) {
                r.lemma_open_connected(self@);
            }
        }
        if height <= 1 || width <= 1 || (height < 5 && width < 5 && random_range(0, 4) == 0) {
            return ;
        }
        assert(self@ == old(self)@);
        if height > width {
            self.divide_horizontally(row, col, height, width);
        } else {
            self.divide_vertically(row, col, height, width);
        }
    }

    /// Builds a wall with one passage from west to east across a region,
    /// south of a random row, and divides the parts north and south of it.
    pub fn divide_horizontally(&mut self, row: usize, col: usize, height: usize, width: usize)
        requires
            old(self).wf(),
            old(self).holds(row as int, col as int, height as int, width as int),
            height >= 2,
            width >= 1,
        ensures
            final(self).wf(),
            final(self).kind() == old(self).kind(),
            final(self).marks() == old(self).marks(),
            final(self)@.cells == old(self)@.cells,
            final(self)@.edges.subset_of(old(self)@.edges),
            region(row as int, col as int, height as int, width as int).same_outside(
                old(self)@,
                final(self)@,
            ),
            region(row as int, col as int, height as int, width as int).open_in(old(self)@)
                ==> region(row as int, col as int, height as int, width as int).connected_in(
                final(self)@,
            ),
            divided_by(
                final(self)@,
                region(row as int, col as int, height as int, width as int),
                true,
            ),
        decreases height + width, 0int,
    {
        let divide_south_of = random_range(0, height - 1);
        let passage_at = random_range(0, width);
        let ghost r = region(row as int, col as int, height as int, width as int);
        let ghost m0 = self@;
        proof {
            lemma_wall(m0, r, true, divide_south_of + 1, passage_at as int);
        }
        self.build_wall(true, row + divide_south_of, col, width, passage_at);
        let ghost m1 = self@;
        self.divide(row, col, divide_south_of + 1, width);
        let ghost m2 = self@;
        self.divide(row + divide_south_of + 1, col, height - divide_south_of - 1, width);
        proof {
            lemma_divided(m0, m1, m2, self@, r, true, divide_south_of + 1, passage_at as int);
            lemma_wall_stands(
                m0,
                self@,
                true,
                row + divide_south_of,
                col as int,
                width as int,
                passage_at as int,
            );
            assert(wall_across(self@, r, true, divide_south_of + 1, passage_at as int));
        }
    }

    /// Builds a wall with one passage from north to south across a region,
    /// east of a random column, and divides the parts west and east of it.
    pub fn divide_vertically(&mut self, row: usize, col: usize, height: usize, width: usize)
        requires
            old(self).wf(),
            old(self).holds(row as int, col as int, height as int, width as int),
            height >= 1,
            width >= 2,
        ensures
            final(self).wf(),
            final(self).kind() == old(self).kind(),
            final(self).marks() == old(self).marks(),
            final(self)@.cells == old(self)@.cells,
            final(self)@.edges.subset_of(old(self)@.edges),
            region(row as int, col as int, height as int, width as int).same_outside(
                old(self)@,
                final(self)@,
            ),
            region(row as int, col as int, height as int, width as int).open_in(old(self)@)
                ==> region(row as int, col as int, height as int, width as int).connected_in(
                final(self)@,
            ),
            divided_by(
                final(self)@,
                region(row as int, col as int, height as int, width as int),
                false,
            ),
        decreases height + width, 0int,
    {
        let divide_east_of = random_range(0, width - 1);
        let passage_at = random_range(0, height);
        let ghost r = region(row as int, col as int, height as int, width as int);
        let ghost m0 = self@;
        proof {
            lemma_wall(m0, r, false, divide_east_of + 1, passage_at as int);
        }
        self.build_wall(false, row, col + divide_east_of, height, passage_at);
        let ghost m1 = self@;
        self.divide(row, col, height, divide_east_of + 1);
        let ghost m2 = self@;
        self.divide(row, col + divide_east_of + 1, height, width - divide_east_of - 1);
        proof {
            lemma_divided(m0, m1, m2, self@, r, false, divide_east_of + 1, passage_at as int);
            lemma_wall_stands(
                m0,
                self@,
                false,
                row as int,
                col + divide_east_of,
                height as int,
                passage_at as int,
            );
            assert(wall_across(self@, r, false, divide_east_of + 1, passage_at as int));
        }
    }

    /// Links every cell to every cell adjacent to it, and divides the grid
    /// (see [`Grid::divide`]). The links that are left join adjacent cells,
    /// and a walk along them leads from every cell to every other. A grid of
    /// at least two rows and two columns that has five rows or five columns
    /// is divided by a wall with one passage.
    pub fn recursive_division(self) -> (maze: Self)
        requires
            self.wf(),
        ensures
            maze.wf(),
            maze.kind() == self.kind(),
            maze.marks() == self.marks(),
            maze@.cells == self@.cells,
            maze.links_near(self@),
            forall|a: Node, b: Node| maze@.has_cell(a) && maze@.has_cell(b) ==> #[trigger] maze@.joins(a, b),
            self.kind().rows >= 2 && self.kind().cols >= 2 && (self.kind().rows >= 5
                || self.kind().cols >= 5) ==> divided_by(
                maze@,
                region(0, 0, self.kind().rows as int, self.kind().cols as int),
                self.kind().rows > self.kind().cols,
            ),
    {
        let mut grid = self;
        let ghost given = grid@;
        grid.link_all();
        let rows = grid.topology().rows;
        let cols = grid.topology().cols;
        let ghost open = grid;
        proof {
            let whole = region(0, 0, rows as int, cols as int);
            assert forall|a: Node, b: Node|
                whole.holds(a) && whole.holds(b) && beside(a, b) implies #[trigger] open@.linked(
                a,
                b,
            ) by {
                lemma_grid_cells_contains(rows as nat, cols as nat, a);
                lemma_grid_cells_contains(rows as nat, cols as nat, b);
                crate::rect::lemma_beside(open@, a, b);
                let adj = open.kind().adjacent(open@, a);
                let i = choose|i: int| 0 <= i < adj.len() && adj[i] == b;
                assert(open@.linked(a, adj[i]));
            }
        }
        grid.divide(0, 0, rows, cols);
        proof {
            let whole = region(0, 0, rows as int, cols as int);
            assert forall|a: Node, b: Node| grid@.has_cell(a) && grid@.has_cell(b) implies #[trigger] grid@.joins(
                a,
                b,
            ) by {
                lemma_grid_cells_contains(rows as nat, cols as nat, a);
                lemma_grid_cells_contains(rows as nat, cols as nat, b);
                assert(whole.joins_in(grid@, a, b));
                let p = choose|p: Seq<Node>| #[trigger]
                    whole.walk_in(grid@, p) && p.first() == a && p.last() == b;
                assert(grid@.is_walk(p));
            }
        }
        proof {
            assert forall|a: Node, b: Node| #[trigger] grid@.linked(a, b) implies self@.linked(a, b)
                || grid.kind().adjacent(grid@, a).contains(b) || grid.kind().adjacent(
                grid@,
                b,
            ).contains(a) by {
                assert(open@.linked(a, b));
                assert(open.links_near(self@));
                self.kind().lemma_flat(open@, grid@, a);
                self.kind().lemma_flat(open@, grid@, b);
            }
        }
        grid
    }
}

} // verus!
