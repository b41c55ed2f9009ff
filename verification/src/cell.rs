//! Cell identities, one type per topology, and what every cell type offers.

use crate::graph::Node;
use vstd::prelude::*;

verus! {

/// What the grid and the generators ask of a cell type: a row for grouping, a
/// weight for distances, and an integer triple under which the link graph
/// stores the cell.
pub trait CellKind: Copy + Sized {
    /// The triple that stands for this cell in the link graph.
    spec fn node(self) -> Node;

    /// Whether a triple stands for a cell of this type.
    spec fn is_node(n: Node) -> bool;

    /// The cost of stepping onto the cell that a triple stands for.
    spec fn node_weight(n: Node) -> usize;

    fn row(&self) -> (r: isize)
        ensures
            r == self.node().0,
    ;

    fn weight(&self) -> (w: usize)
        ensures
            w == Self::node_weight(self.node()),
    ;

    fn to_node(&self) -> (n: Node)
        ensures
            n == self.node(),
    ;

    fn from_node(n: Node) -> (c: Self)
        requires
            Self::is_node(n),
        ensures
            c.node() == n,
    ;

    /// Every cell has a triple of its type.
    proof fn lemma_is_node(c: Self)
        ensures
            Self::is_node(c.node()),
    ;

    /// Two cells with the same triple are the same cell.
    proof fn lemma_node_injective(a: Self, b: Self)
        requires
            a.node() == b.node(),
        ensures
            a == b,
    ;
}

/// The nodes of a list of cells.
pub open spec fn nodes_of<C: CellKind>(s: Seq<C>) -> Seq<Node> {
    Seq::new(s.len(), |i: int| s[i].node())
}

/// The cells that a list of nodes stands for.
pub(crate) fn cells_from<C: CellKind>(nodes: &Vec<Node>) -> (list: Vec<C>)
    requires
        forall|n: Node| #[trigger] nodes@.contains(n) ==> C::is_node(n),
    ensures
        nodes_of(list@) == nodes@,
{
    let mut list: Vec<C> = Vec::new();
    let mut i: usize = 0;
    while i < nodes.len()
        invariant
            i <= nodes.len(),
            forall|n: Node| #[trigger] nodes@.contains(n) ==> C::is_node(n),
            list.len() == i,
            forall|j: int| 0 <= j < i ==> (#[trigger] list[j]).node() == nodes[j],
        decreases nodes.len() - i,
    {
        assert(nodes@.contains(nodes[i as int]));
        list.push(C::from_node(nodes[i]));
        i += 1;
    }
    assert(nodes_of(list@) =~= nodes@);
    list
}

/// The node of a cell that may be missing.
pub open spec fn node_opt<C: CellKind>(cell: Option<C>) -> Option<Node> {
    match cell {
        Some(c) => Some(c.node()),
        None => None,
    }
}

/// The cell that a node stands for, if there is a node.
pub(crate) fn cell_opt<C: CellKind>(node: Option<Node>) -> (cell: Option<C>)
    requires
        node is Some ==> C::is_node(node->Some_0),
    ensures
        node_opt(cell) == node,
{
    match node {
        Some(n) => Some(C::from_node(n)),
        None => None,
    }
}

/// A square cell of a regular or masked grid.
#[derive(Debug, Clone, Copy, PartialEq, Eq, PartialOrd, Ord, Hash)]
pub struct RegularCell {
    pub row: isize,
    pub col: isize,
}

impl RegularCell {
    /// The cell in a row and column.
    pub fn new(row: isize, col: isize) -> (c: Self)
        ensures
            c.row == row,
            c.col == col,
    {
        Self { row, col }
    }
}

impl CellKind for RegularCell {
    open spec fn node(self) -> Node {
        (self.row, self.col, 0usize)
    }

    open spec fn is_node(n: Node) -> bool {
        n.2 == 0
    }

    open spec fn node_weight(n: Node) -> usize {
        1
    }

    fn row(&self) -> (r: isize) {
        self.row
    }

    fn weight(&self) -> (w: usize) {
        1
    }

    fn to_node(&self) -> (n: Node) {
        (self.row, self.col, 0)
    }

    fn from_node(n: Node) -> (c: Self) {
        Self { row: n.0, col: n.1 }
    }

    proof fn lemma_is_node(c: Self) {
    }

    proof fn lemma_node_injective(a: Self, b: Self) {
    }
}

/// A cell of a polar grid: a column of a ring.
#[derive(Debug, Clone, Copy, PartialEq, Eq, PartialOrd, Ord, Hash)]
pub struct PolarCell {
    pub row: isize,
    pub col: isize,
}

impl PolarCell {
    /// The cell in a row and column.
    pub fn new(row: isize, col: isize) -> (c: Self)
        ensures
            c.row == row,
            c.col == col,
    {
        Self { row, col }
    }
}

impl CellKind for PolarCell {
    open spec fn node(self) -> Node {
        (self.row, self.col, 0usize)
    }

    open spec fn is_node(n: Node) -> bool {
        n.2 == 0
    }

    open spec fn node_weight(n: Node) -> usize {
        1
    }

    fn row(&self) -> (r: isize) {
        self.row
    }

    fn weight(&self) -> (w: usize) {
        1
    }

    fn to_node(&self) -> (n: Node) {
        (self.row, self.col, 0)
    }

    fn from_node(n: Node) -> (c: Self) {
        Self { row: n.0, col: n.1 }
    }

    proof fn lemma_is_node(c: Self) {
    }

    proof fn lemma_node_injective(a: Self, b: Self) {
    }
}

/// A hexagonal cell.
#[derive(Debug, Clone, Copy, PartialEq, Eq, PartialOrd, Ord, Hash)]
pub struct HexCell {
    pub row: isize,
    pub col: isize,
}

impl HexCell {
    /// The cell in a row and column.
    pub fn new(row: isize, col: isize) -> (c: Self)
        ensures
            c.row == row,
            c.col == col,
    {
        Self { row, col }
    }

    /// The row of the two neighbours to the north-west and north-east: hexes
    /// in even columns sit half a row higher than those in odd columns.
    pub fn north_diagonal_row(&self) -> (r: isize)
        requires
            self.col % 2 == 0 ==> self.row > isize::MIN,
        ensures
            r == if self.col % 2 == 0 {
                self.row - 1
            } else {
                self.row as int
            },
    {
        if self.col % 2 == 0 {
            self.row - 1
        } else {
            self.row
        }
    }

    /// The row of the two neighbours to the south-west and south-east.
    pub fn south_diagonal_row(&self) -> (r: isize)
        requires
            self.col % 2 != 0 ==> self.row < isize::MAX,
        ensures
            r == if self.col % 2 == 0 {
                self.row as int
            } else {
                self.row + 1
            },
    {
        if self.col % 2 == 0 {
            self.row
        } else {
            self.row + 1
        }
    }
}

impl CellKind for HexCell {
    open spec fn node(self) -> Node {
        (self.row, self.col, 0usize)
    }

    open spec fn is_node(n: Node) -> bool {
        n.2 == 0
    }

    open spec fn node_weight(n: Node) -> usize {
        1
    }

    fn row(&self) -> (r: isize) {
        self.row
    }

    fn weight(&self) -> (w: usize) {
        1
    }

    fn to_node(&self) -> (n: Node) {
        (self.row, self.col, 0)
    }

    fn from_node(n: Node) -> (c: Self) {
        Self { row: n.0, col: n.1 }
    }

    proof fn lemma_is_node(c: Self) {
    }

    proof fn lemma_node_injective(a: Self, b: Self) {
    }
}

/// A triangular cell.
#[derive(Debug, Clone, Copy, PartialEq, Eq, PartialOrd, Ord, Hash)]
pub struct TriangleCell {
    pub row: isize,
    pub col: isize,
}

impl TriangleCell {
    /// The cell in a row and column.
    pub fn new(row: isize, col: isize) -> (c: Self)
        ensures
            c.row == row,
            c.col == col,
    {
        Self { row, col }
    }

    /// Whether the triangle points up: those whose row and column have an
    /// even sum do.
    pub fn is_upright(&self) -> (up: bool)
        ensures
            up == ((self.row + self.col) % 2 == 0),
    {
        (self.row % 2 == 0) == (self.col % 2 == 0)
    }
}

impl CellKind for TriangleCell {
    open spec fn node(self) -> Node {
        (self.row, self.col, 0usize)
    }

    open spec fn is_node(n: Node) -> bool {
        n.2 == 0
    }

    open spec fn node_weight(n: Node) -> usize {
        1
    }

    fn row(&self) -> (r: isize) {
        self.row
    }

    fn weight(&self) -> (w: usize) {
        1
    }

    fn to_node(&self) -> (n: Node) {
        (self.row, self.col, 0)
    }

    fn from_node(n: Node) -> (c: Self) {
        Self { row: n.0, col: n.1 }
    }

    proof fn lemma_is_node(c: Self) {
    }

    proof fn lemma_node_injective(a: Self, b: Self) {
    }
}

/// A cell that costs `weight` to step onto. The weight is part of the cell's
/// identity: a cell with another weight is another cell.
#[derive(Debug, Clone, Copy, PartialEq, Eq, PartialOrd, Ord, Hash)]
pub struct WeightedCell {
    pub row: isize,
    pub col: isize,
    pub weight: usize,
}

impl WeightedCell {
    /// The cell in a row and column.
    pub fn new(row: isize, col: isize) -> (c: Self)
        ensures
            c.row == row,
            c.col == col,
            c.weight == 1,
    {
        Self { row, col, weight: 1 }
    }
}

impl CellKind for WeightedCell {
    open spec fn node(self) -> Node {
        (self.row, self.col, self.weight)
    }

    open spec fn is_node(n: Node) -> bool {
        true
    }

    open spec fn node_weight(n: Node) -> usize {
        n.2
    }

    fn row(&self) -> (r: isize) {
        self.row
    }

    fn weight(&self) -> (w: usize) {
        self.weight
    }

    fn to_node(&self) -> (n: Node) {
        (self.row, self.col, self.weight)
    }

    fn from_node(n: Node) -> (c: Self) {
        Self { row: n.0, col: n.1, weight: n.2 }
    }

    proof fn lemma_is_node(c: Self) {
    }

    proof fn lemma_node_injective(a: Self, b: Self) {
    }
}

/// A surface cell of a weave grid.
#[derive(Debug, Clone, Copy, PartialEq, Eq, PartialOrd, Ord, Hash)]
pub struct OverCell {
    pub row: isize,
    pub col: isize,
}

impl OverCell {
    /// The cell in a row and column.
    pub fn new(row: isize, col: isize) -> (c: Self)
        ensures
            c.row == row,
            c.col == col,
    {
        Self { row, col }
    }
}

/// A tunnel cell of a weave grid, beneath the surface cell `over`.
#[derive(Debug, Clone, Copy, PartialEq, Eq, PartialOrd, Ord, Hash)]
pub struct UnderCell {
    pub over: OverCell,
}

impl UnderCell {
    /// The tunnel cell beneath a surface cell.
    pub fn new(over: OverCell) -> (c: Self)
        ensures
            c.over == over,
    {
        Self { over }
    }
}

/// A cell of a weave grid: on the surface, or in a tunnel beneath a surface
/// cell.
#[derive(Debug, Clone, Copy, PartialEq, Eq, PartialOrd, Ord, Hash)]
pub enum WeaveCell {
    Over(OverCell),
    Under(UnderCell),
}

impl WeaveCell {
    /// The surface cell at a row and column.
    pub fn new(row: isize, col: isize) -> (c: Self)
        ensures
            c == WeaveCell::Over(OverCell { row, col }),
    {
        Self::Over(OverCell::new(row, col))
    }

    /// The column of the cell, or of the cell above a tunnel cell.
    pub fn col(&self) -> (c: isize)
        ensures
            c == self.node().1,
    {
        match self {
            Self::Over(o) => o.col,
            Self::Under(u) => u.over.col,
        }
    }

    /// Whether the cell is on the surface.
    #[must_use]
    pub fn is_over(&self) -> (over: bool)
        ensures
            over == (self.node().2 == 0),
            over == (*self is Over),
    {
        match self {
            Self::Over(_) => true,
            Self::Under(_) => false,
        }
    }
}

impl CellKind for WeaveCell {
    open spec fn node(self) -> Node {
        match self {
            WeaveCell::Over(o) => (o.row, o.col, 0usize),
            WeaveCell::Under(u) => (u.over.row, u.over.col, 1usize),
        }
    }

    open spec fn is_node(n: Node) -> bool {
        n.2 <= 1
    }

    open spec fn node_weight(n: Node) -> usize {
        1
    }

    fn row(&self) -> (r: isize) {
        match self {
            Self::Over(o) => o.row,
            Self::Under(u) => u.over.row,
        }
    }

    fn weight(&self) -> (w: usize) {
        1
    }

    fn to_node(&self) -> (n: Node) {
        match self {
            Self::Over(o) => (o.row, o.col, 0),
            Self::Under(u) => (u.over.row, u.over.col, 1),
        }
    }

    fn from_node(n: Node) -> (c: Self) {
        if n.2 == 0 {
            Self::Over(OverCell { row: n.0, col: n.1 })
        } else {
            Self::Under(UnderCell { over: OverCell { row: n.0, col: n.1 } })
        }
    }

    proof fn lemma_is_node(c: Self) {
    }

    proof fn lemma_node_injective(a: Self, b: Self) {
    }
}

} // verus!
