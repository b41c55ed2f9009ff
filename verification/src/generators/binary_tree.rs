//! The binary tree: every cell is linked to its northern or its eastern
//! neighbour.

use crate::cell::CellKind;
use crate::cell::HexCell;
use crate::cell::RegularCell;
use crate::cell::nodes_of;
use crate::graph::Node;
use crate::graph::edge_key;
use crate::grid::Grid;
use crate::hex::Hex;
use crate::kind::Kind;
use crate::model::Maze;
use crate::model::lemma_edge_key;
use crate::model::lemma_edge_key_eq;
use crate::random::random_bool;
use crate::rect::grid_cells;
use crate::rect::lemma_grid_cells_contains;
use crate::rect::lemma_grid_cells_distinct;
use crate::rect::surface;
use crate::rect::surface_near;
use crate::regular::Regular;
use vstd::prelude::*;

verus! {

/// The cell that the binary tree links a surface cell to: the northern
/// neighbour or the eastern one, whichever there is, and with both, the
/// northern one on heads and the eastern one on tails.
pub open spec fn carved_to(m: Maze, n: Node, heads: bool) -> Option<Node> {
    match (surface(m, n.0 - 1, n.1 as int), surface(m, n.0 as int, n.1 + 1)) {
        (None, None) => None,
        (Some(north), None) => Some(north),
        (None, Some(east)) => Some(east),
        (Some(north), Some(east)) => Some(
            if heads {
                north
            } else {
                east
            },
        ),
    }
}

/// The rank of a surface cell in a rectangle: its distance from the
/// north-eastern corner, along rows and columns.
pub open spec fn corner_rank(cols: nat) -> spec_fn(Node) -> nat {
    |n: Node|
        if 0 <= n.0 && 0 <= n.1 < cols {
            (n.0 + (cols - 1 - n.1)) as nat
        } else {
            0
        }
}

/// Whether `e` is what links `x` to the cell north or east of it.
pub open spec fn is_carving(x: Node, e: (Node, Node)) -> bool {
    ||| e == edge_key(x, ((x.0 - 1) as isize, x.1, 0usize))
    ||| e == edge_key(x, (x.0, (x.1 + 1) as isize, 0usize))
}

/// Whether `x` is linked to the cell north or east of it.
pub open spec fn is_carved(m: Maze, x: Node) -> bool {
    ||| x.0 >= 1 && m.linked(x, ((x.0 - 1) as isize, x.1, 0usize))
    ||| m.linked(x, (x.0, (x.1 + 1) as isize, 0usize)) && m.has_cell(
        (x.0, (x.1 + 1) as isize, 0usize),
    )
}

/// The state of the binary tree after the first `done` cells: every link was
/// made at one of them, each of them but the north-eastern corner is linked
/// north or east, and there are as many links as cells done, the corner not
/// counted.
pub open spec fn carved(m: Maze, rows: nat, cols: nat, done: int) -> bool {
    let corner = (0isize, (cols - 1) as isize, 0usize);
    &&& m.wf()
    &&& 0 <= done <= m.cells.len()
    &&& m.cells == grid_cells(rows, cols)
    &&& forall|e: (Node, Node)| #[trigger]
        m.edges.contains(e) ==> exists|j: int| 0 <= j < done && is_carving(#[trigger] m.cells[j], e)
    &&& forall|j: int| 0 <= j < done && m.cells[j] != corner ==> is_carved(m, #[trigger] m.cells[j])
    &&& m.edges.len() + (if m.cells.take(done).contains(corner) {
        1int
    } else {
        0int
    }) == done
}

/// A rectangle in which every cell was carved is a perfect maze.
pub proof fn lemma_carved_perfect(m: Maze, rows: nat, cols: nat)
    requires
        0 < rows <= isize::MAX,
        0 < cols <= isize::MAX,
        carved(m, rows, cols, m.cells.len() as int),
    ensures
        m.is_perfect(),
{
    let corner = (0isize, (cols - 1) as isize, 0usize);
    let rank = corner_rank(cols);
    lemma_grid_cells_contains(rows, cols, corner);
    assert(m.cells.take(m.cells.len() as int) =~= m.cells);
    assert forall|x: Node| m.has_cell(x) && x != corner implies #[trigger] m.descends(rank, x) by {
        lemma_grid_cells_contains(rows, cols, x);
        let j = choose|j: int| 0 <= j < m.cells.len() && m.cells[j] == x;
        assert(is_carved(m, m.cells[j]));
        let north = ((x.0 - 1) as isize, x.1, 0usize);
        let east = (x.0, (x.1 + 1) as isize, 0usize);
        if x.0 >= 1 && m.linked(x, north) {
            lemma_grid_cells_contains(rows, cols, north);
            assert(m.has_cell(north) && m.linked(x, north) && rank(north) < rank(x));
        } else {
            lemma_grid_cells_contains(rows, cols, east);
            assert(m.has_cell(east) && m.linked(x, east) && rank(east) < rank(x));
        }
    }
    assert forall|c: Node| m.has_cell(c) implies #[trigger] m.joins(c, corner) by {
        m.lemma_descent(corner, rank, c);
    }
    m.lemma_perfect_by_root(corner);
}

/// Carving the next cell keeps the state of the binary tree.
pub proof fn lemma_carve(m: Maze, rows: nat, cols: nat, done: int, heads: bool)
    requires
        0 < rows <= isize::MAX,
        0 < cols <= isize::MAX,
        carved(m, rows, cols, done),
        done < m.cells.len(),
    ensures
        carved(
            match carved_to(m, m.cells[done], heads) {
                Some(other) => m.connect(m.cells[done], other),
                None => m,
            },
            rows,
            cols,
            done + 1,
        ),
{
    let corner = (0isize, (cols - 1) as isize, 0usize);
    let x = m.cells[done];
    let north = ((x.0 - 1) as isize, x.1, 0usize);
    let east = (x.0, (x.1 + 1) as isize, 0usize);
    assert(m.cells.contains(x));
    lemma_grid_cells_contains(rows, cols, x);
    lemma_grid_cells_contains(rows, cols, north);
    lemma_grid_cells_contains(rows, cols, east);
    lemma_grid_cells_contains(rows, cols, corner);
    let front = m.cells.take(done);
    let next = m.cells.take(done + 1);
    assert(next =~= front.push(x));
    assert(!front.contains(x));
    assert(next.contains(corner) <==> front.contains(corner) || x == corner) by {
        if front.contains(corner) {
            let j = choose|j: int| 0 <= j < front.len() && front[j] == corner;
            assert(next[j] == corner);
        }
        if x == corner {
            assert(next[done] == corner);
        }
    }
    match carved_to(m, x, heads) {
        Some(other) => {
            let post = m.connect(x, other);
            lemma_edge_key(x, other);
            assert(other == north || other == east);
            assert(x != corner);
            assert(!m.edges.contains(edge_key(x, other))) by {
                if m.edges.contains(edge_key(x, other)) {
                    let j = choose|j: int|
                        0 <= j < done && is_carving(#[trigger] m.cells[j], edge_key(x, other));
                    let y = m.cells[j];
                    assert(m.cells.contains(y));
                    lemma_grid_cells_contains(rows, cols, y);
                    lemma_edge_key_eq(
                        x,
                        other,
                        y,
                        if edge_key(x, other) == edge_key(y, ((y.0 - 1) as isize, y.1, 0usize)) {
                            ((y.0 - 1) as isize, y.1, 0usize)
                        } else {
                            (y.0, (y.1 + 1) as isize, 0usize)
                        },
                    );
                }
            }
            assert forall|e: (Node, Node)| #[trigger] post.edges.contains(e) implies exists|j: int|
                0 <= j < done + 1 && is_carving(#[trigger] post.cells[j], e) by {
                if m.edges.contains(e) {
                    let j = choose|j: int| 0 <= j < done && is_carving(#[trigger] m.cells[j], e);
                    assert(is_carving(post.cells[j], e));
                } else {
                    assert(is_carving(post.cells[done], e));
                }
            }
            assert forall|j: int| 0 <= j < done + 1 && post.cells[j] != corner implies is_carved(
                post,
                #[trigger] post.cells[j],
            ) by {
                if j < done {
                    assert(is_carved(m, m.cells[j]));
                }
            }
        },
        None => {
            assert(x == corner);
        },
    }
}

/// Links a surface cell of a flat grid to its northern or eastern
/// neighbour (see [`carved_to`]).
pub(crate) fn carve_cell<K: Kind>(grid: &mut Grid<K>, cell: K::Cell, heads: bool)
    requires
        old(grid).wf(),
        old(grid).kind().flat(),
        old(grid)@.has_cell(cell.node()),
    ensures
        final(grid).wf(),
        final(grid).kind() == old(grid).kind(),
        final(grid).marks() == old(grid).marks(),
        final(grid)@ == match carved_to(old(grid)@, cell.node(), heads) {
            Some(other) => old(grid)@.connect(cell.node(), other),
            None => old(grid)@,
        },
{
    let n = cell.to_node();
    let north = surface_near(grid.graph(), n.0, n.1, -1, 0);
    let east = surface_near(grid.graph(), n.0, n.1, 0, 1);
    let other = match (north, east) {
        (None, None) => None,
        (Some(o), None) => Some(o),
        (None, Some(o)) => Some(o),
        (Some(north), Some(east)) => Some(
            if heads {
                north
            } else {
                east
            },
        ),
    };
    match other {
        Some(o) => {
            assert(grid@.cells.contains(o));
            grid.link(cell, K::Cell::from_node(o));
        },
        None => {},
    }
}

/// The binary tree on a flat grid whose cells are those of a rectangle.
pub(crate) fn carve_all<K: Kind>(grid: Grid<K>, Ghost(rows): Ghost<nat>, Ghost(cols): Ghost<nat>) -> (maze:
    Grid<K>)
    requires
        grid.wf(),
        grid.kind().flat(),
        0 < rows <= isize::MAX,
        0 < cols <= isize::MAX,
        grid@.cells == grid_cells(rows, cols),
        grid@.edges =~= Set::<(Node, Node)>::empty(),
    ensures
        maze.wf(),
        maze.kind() == grid.kind(),
        maze.marks() == grid.marks(),
        maze@.cells == grid@.cells,
        carved(maze@, rows, cols, maze@.cells.len() as int),
        maze@.is_perfect(),
{
    let mut maze = grid;
    let cells = maze.cells();
    let mut i: usize = 0;
    proof {
        assert(maze@.cells.take(0) =~= Seq::<Node>::empty());
    }
    while i < cells.len()
        invariant
            i <= cells.len(),
            maze.wf(),
            maze.kind() == grid.kind(),
            maze.marks() == grid.marks(),
            maze.kind().flat(),
            0 < rows <= isize::MAX,
            0 < cols <= isize::MAX,
            nodes_of(cells@) == maze@.cells,
            maze@.cells == grid@.cells,
            carved(maze@, rows, cols, i as int),
        decreases cells.len() - i,
    {
        let cell = cells[i];
        assert(nodes_of(cells@)[i as int] == cell.node());
        let n = cell.to_node();
        let north = surface_near(maze.graph(), n.0, n.1, -1, 0);
        let east = surface_near(maze.graph(), n.0, n.1, 0, 1);
        let heads = if north.is_some() && east.is_some() {
            random_bool()
        } else {
            true
        };
        proof {
            lemma_carve(maze@, rows, cols, i as int, heads);
        }
        carve_cell(&mut maze, cell, heads);
        i += 1;
    }
    proof {
        lemma_carved_perfect(maze@, rows, cols);
    }
    maze
}

impl Grid<Regular> {
    /// Links a cell to its northern or eastern neighbour: to the one there
    /// is, and where there are both, to the northern one on heads and the
    /// eastern one on tails.
    pub fn binary_tree_at(&mut self, cell: RegularCell, heads: bool)
        requires
            old(self).wf(),
            old(self)@.has_cell(cell.node()),
        ensures
            final(self).wf(),
            final(self).kind() == old(self).kind(),
            final(self).marks() == old(self).marks(),
            final(self)@ == match carved_to(old(self)@, cell.node(), heads) {
                Some(other) => old(self)@.connect(cell.node(), other),
                None => old(self)@,
            },
    {
        carve_cell(self, cell, heads);
    }

    /// Links every cell, in enumeration order, to its northern or eastern
    /// neighbour, picked at random where there are both. The result is a
    /// perfect maze; a grid without cells is left as it is.
    pub fn binary_tree(self) -> (maze: Self)
        requires
            self.wf(),
            self@.edges =~= Set::<(Node, Node)>::empty(),
        ensures
            maze.wf(),
            maze.kind() == self.kind(),
            maze.marks() == self.marks(),
            maze@.cells == self@.cells,
            carved(
                maze@,
                self.kind().rows as nat,
                self.kind().cols as nat,
                maze@.cells.len() as int,
            ),
            self.kind().rows >= 1 && self.kind().cols >= 1 ==> maze@.is_perfect(),
            self.kind().rows == 0 || self.kind().cols == 0 ==> maze@ == self@,
    {
        proof {
            lemma_grid_cells_distinct(self.kind().rows as nat, self.kind().cols as nat);
            if self.kind().rows == 0 || self.kind().cols == 0 {
                assert(self.kind().rows * self.kind().cols == 0) by (nonlinear_arith)
                    requires
                        self.kind().rows == 0 || self.kind().cols == 0,
                ;
            } else {
                assert(self.kind().rows * self.kind().cols > 0) by (nonlinear_arith)
                    requires
                        self.kind().rows >= 1 && self.kind().cols >= 1,
                ;
            }
        }
        if self.size() == 0 {
            return self;
        }
        carve_all(self, Ghost(self.kind().rows as nat), Ghost(self.kind().cols as nat))
    }
}

impl Grid<Hex> {
    /// Links a hex to its northern neighbour or to the next hex in its row:
    /// to the one there is, and where there are both, to the northern one on
    /// heads and the next in the row on tails.
    pub fn binary_tree_at(&mut self, cell: HexCell, heads: bool)
        requires
            old(self).wf(),
            old(self)@.has_cell(cell.node()),
        ensures
            final(self).wf(),
            final(self).kind() == old(self).kind(),
            final(self).marks() == old(self).marks(),
            final(self)@ == match carved_to(old(self)@, cell.node(), heads) {
                Some(other) => old(self)@.connect(cell.node(), other),
                None => old(self)@,
            },
    {
        carve_cell(self, cell, heads);
    }

    /// Links every hex, in enumeration order, to its northern neighbour or
    /// to the next hex in its row, picked at random where there are both.
    /// The result is a perfect maze; a grid without cells is left as it
    /// is.
    pub fn binary_tree(self) -> (maze: Self)
        requires
            self.wf(),
            self@.edges =~= Set::<(Node, Node)>::empty(),
        ensures
            maze.wf(),
            maze.kind() == self.kind(),
            maze.marks() == self.marks(),
            maze@.cells == self@.cells,
            carved(
                maze@,
                self.kind().rows as nat,
                self.kind().cols as nat,
                maze@.cells.len() as int,
            ),
            self.kind().rows >= 1 && self.kind().cols >= 1 ==> maze@.is_perfect(),
            self.kind().rows == 0 || self.kind().cols == 0 ==> maze@ == self@,
    {
        proof {
            lemma_grid_cells_distinct(self.kind().rows as nat, self.kind().cols as nat);
            if self.kind().rows == 0 || self.kind().cols == 0 {
                assert(self.kind().rows * self.kind().cols == 0) by (nonlinear_arith)
                    requires
                        self.kind().rows == 0 || self.kind().cols == 0,
                ;
            } else {
                assert(self.kind().rows * self.kind().cols > 0) by (nonlinear_arith)
                    requires
                        self.kind().rows >= 1 && self.kind().cols >= 1,
                ;
            }
        }
        if self.size() == 0 {
            return self;
        }
        carve_all(self, Ghost(self.kind().rows as nat), Ghost(self.kind().cols as nat))
    }
}

} // verus!
