//! Distances from one cell to the others, along the links of a grid.

use crate::cell::CellKind;
use crate::cell_map::map_entries;
use crate::cell_map::map_get;
use crate::cell_map::map_insert;
use crate::cell_map::map_new;
use crate::cell_map::map_pairs;
use crate::cell_map::CellMap;
use crate::graph::Node;
use crate::grid::Grid;
use crate::kind::Kind;
use crate::model::Maze;
use vstd::prelude::*;

verus! {

/// What it costs to walk along `p`: the weights of its cells, the first one
/// not counted.
pub open spec fn walk_cost<C: CellKind>(p: Seq<Node>) -> nat
    decreases p.len(),
{
    if p.len() <= 1 {
        0
    } else {
        walk_cost::<C>(p.drop_last()) + C::node_weight(p.last()) as nat
    }
}

/// Whether `p` is a walk along the links of `m` from `a` to `b`.
pub open spec fn walks(m: Maze, p: Seq<Node>, a: Node, b: Node) -> bool {
    m.is_walk(p) && p.first() == a && p.last() == b
}

/// Whether some walk from `a` to `b` costs exactly `cost`.
pub open spec fn costs<C: CellKind>(m: Maze, a: Node, b: Node, cost: nat) -> bool {
    exists|p: Seq<Node>| #[trigger] walks(m, p, a, b) && walk_cost::<C>(p) == cost
}

/// Whether `dist` holds the cost of the cheapest walk from `root` to every
/// cell to which a walk leads whose cost the machine can count, and nothing
/// else.
pub open spec fn shortest<C: CellKind>(m: Maze, root: Node, dist: Map<Node, usize>) -> bool {
    &&& forall|c: Node| #[trigger]
        dist.dom().contains(c) ==> costs::<C>(m, root, c, dist[c] as nat)
    &&& forall|p: Seq<Node>|
        #![trigger m.is_walk(p)]
        m.is_walk(p) && p.first() == root && walk_cost::<C>(p) <= usize::MAX ==> dist.dom().contains(
            p.last(),
        ) && dist[p.last()] <= walk_cost::<C>(p)
}

/// Whether every cell with a distance, but `root`, is linked to a cell with a
/// smaller distance.
pub open spec fn downhill(m: Maze, root: Node, dist: Map<Node, usize>) -> bool {
    forall|c: Node|
        dist.dom().contains(c) && c != root ==> exists|n: Node| #[trigger]
            closer(m, dist, c, n)
}

/// Whether the way back from `goal` can always go on: every walk from
/// `goal` on which the distance falls with every step ends at `root` or at
/// a cell that is linked to a cell with a smaller distance.
pub open spec fn way_back(m: Maze, root: Node, dist: Map<Node, usize>, goal: Node) -> bool {
    forall|p: Seq<Node>| #[trigger]
        falls(m, dist, p) && p.first() == goal && p.last() != root ==> exists|n: Node| #[trigger]
            closer(m, dist, p.last(), n)
}

/// Where every cell with a distance but the root is linked to a cell with a
/// smaller distance, the way back from every cell can always go on.
pub proof fn lemma_way_back(m: Maze, root: Node, dist: Map<Node, usize>, goal: Node)
    requires
        downhill(m, root, dist),
    ensures
        way_back(m, root, dist, goal),
{
    assert forall|p: Seq<Node>| #[trigger]
        falls(m, dist, p) && p.first() == goal && p.last() != root implies exists|n: Node| #[trigger]
        closer(m, dist, p.last(), n) by {
        assert(dist.dom().contains(p[p.len() - 1]));
    }
}

/// Whether `n` is linked to `c` and has a smaller distance.
pub open spec fn closer(m: Maze, dist: Map<Node, usize>, c: Node, n: Node) -> bool {
    m.linked(c, n) && dist.dom().contains(n) && dist[n] < dist[c]
}

/// Whether `p` is a walk along links on which the distance falls with
/// every step.
pub open spec fn falls(m: Maze, dist: Map<Node, usize>, p: Seq<Node>) -> bool {
    &&& m.is_walk(p)
    &&& forall|i: int|
        0 <= i < p.len() ==> dist.dom().contains(#[trigger] p[i])
    &&& forall|i: int| 0 <= i < p.len() - 1 ==> dist[p[i + 1]] < dist[#[trigger] p[i]]
}

/// Whether `crumbs` holds the cells of a walk from `goal` to `root` on which
/// the distance falls with every step, each with the distance that `dist`
/// has for it, and nothing else.
pub open spec fn is_trail(
    m: Maze,
    dist: Map<Node, usize>,
    root: Node,
    goal: Node,
    crumbs: Map<Node, usize>,
) -> bool {
    exists|p: Seq<Node>| #[trigger] trails(m, dist, root, goal, crumbs, p)
}

/// [`is_trail`] for a given walk.
pub open spec fn trails(
    m: Maze,
    dist: Map<Node, usize>,
    root: Node,
    goal: Node,
    crumbs: Map<Node, usize>,
    p: Seq<Node>,
) -> bool {
    &&& falls(m, dist, p)
    &&& p.first() == goal
    &&& p.last() == root
    &&& forall|c: Node| crumbs.dom().contains(c) <==> p.contains(c)
    &&& forall|c: Node| crumbs.dom().contains(c) ==> crumbs[c] == dist[c]
}

/// A walk on which the distance falls can go on to a cell that is linked
/// to its last cell and has a smaller distance.
pub proof fn lemma_falls_push(m: Maze, dist: Map<Node, usize>, p: Seq<Node>, next: Node)
    requires
        falls(m, dist, p),
        closer(m, dist, p.last(), next),
    ensures
        falls(m, dist, p.push(next)),
        forall|c: Node| #[trigger] p.push(next).contains(c) <==> p.contains(c) || c == next,
        p.push(next).first() == p.first(),
        p.push(next).last() == next,
{
    let q = p.push(next);
    assert forall|i: int| 0 <= i < q.len() - 1 implies m.linked(#[trigger] q[i], q[i + 1]) by {
        if i < p.len() - 1 {
            assert(m.linked(p[i], p[i + 1]));
        }
    }
    assert forall|i: int| 0 <= i < q.len() implies dist.dom().contains(#[trigger] q[i]) by {
        if i < p.len() {
            assert(dist.dom().contains(p[i]));
        }
    }
    assert forall|i: int| 0 <= i < q.len() - 1 implies dist[q[i + 1]] < dist[#[trigger] q[i]] by {
        if i < p.len() - 1 {
            assert(dist[p[i + 1]] < dist[p[i]]);
        }
    }
    assert forall|c: Node| #[trigger] q.contains(c) <==> p.contains(c) || c == next by {
        if p.contains(c) {
            let i = choose|i: int| 0 <= i < p.len() && p[i] == c;
            assert(q[i] == c);
        }
        if q.contains(c) {
            let i = choose|i: int| 0 <= i < q.len() && q[i] == c;
            if i < p.len() {
                assert(p[i] == c);
            }
        }
        assert(q[p.len() as int] == next);
    }
}

/// Where entering a cell costs at least 1, cheapest distances fall towards
/// the root.
pub proof fn lemma_downhill<C: CellKind>(m: Maze, root: Node, dist: Map<Node, usize>)
    requires
        m.wf(),
        shortest::<C>(m, root, dist),
        forall|n: Node| m.has_cell(n) ==> #[trigger] C::node_weight(n) >= 1,
    ensures
        downhill(m, root, dist),
{
    assert forall|c: Node| dist.dom().contains(c) && c != root implies exists|n: Node| #[trigger]
        closer(m, dist, c, n) by {
        assert(costs::<C>(m, root, c, dist[c] as nat));
        let p = choose|p: Seq<Node>| #[trigger]
            walks(m, p, root, c) && walk_cost::<C>(p) == dist[c] as nat;
        let q = p.drop_last();
        let u = q.last();
        assert(m.linked(p[p.len() - 2], p[p.len() - 2 + 1]));
        m.lemma_linked_cells(u, c);
        m.lemma_linked_symmetric(u, c);
        assert forall|i: int| 0 <= i < q.len() - 1 implies m.linked(#[trigger] q[i], q[i + 1]) by {
            assert(m.linked(p[i], p[i + 1]));
        }
        assert(m.is_walk(q));
        assert(closer(m, dist, c, u));
    }
}

/// Distances of cells from a root cell.
pub struct Distances<K: Kind> {
    pub(crate) root: K::Cell,
    pub(crate) distances: CellMap,
}

impl<K: Kind> View for Distances<K> {
    type V = Map<Node, usize>;

    open(crate) spec fn view(&self) -> Map<Node, usize> {
        map_entries(self.distances)
    }
}

impl<K: Kind> Distances<K> {
    /// The cell from which the distances are measured.
    pub open(crate) spec fn root(&self) -> K::Cell {
        self.root
    }

    /// The root has a distance.
    pub open spec fn wf(&self) -> bool {
        self@.dom().contains(self.root().node())
    }

    /// The distances that hold the root alone, at distance 0.
    pub fn new(root: K::Cell) -> (d: Self)
        ensures
            d.root() == root,
            d@ == Map::<Node, usize>::empty().insert(root.node(), 0usize),
            d.wf(),
    {
        let mut distances = map_new();
        map_insert(&mut distances, root.to_node(), 0);
        Self { root, distances }
    }

    /// The cell from which the distances are measured.
    pub fn root_cell(&self) -> (root: K::Cell)
        ensures
            root == self.root(),
    {
        self.root
    }

    /// The distance of a cell, if it has one.
    pub fn get(&self, cell: &K::Cell) -> (distance: Option<usize>)
        ensures
            distance == if self@.dom().contains(cell.node()) {
                Some(self@[cell.node()])
            } else {
                None
            },
    {
        map_get(&self.distances, cell.to_node())
    }

    /// The distance of a cell that has one.
    pub fn at(&self, cell: K::Cell) -> (distance: usize)
        requires
            self@.dom().contains(cell.node()),
        ensures
            distance == self@[cell.node()],
    {
        map_get(&self.distances, cell.to_node()).unwrap()
    }

    /// Sets the distance of a cell.
    pub fn insert(&mut self, cell: K::Cell, distance: usize)
        ensures
            final(self).root() == old(self).root(),
            final(self)@ == old(self)@.insert(cell.node(), distance),
            old(self).wf() ==> final(self).wf(),
    {
        map_insert(&mut self.distances, cell.to_node(), distance);
    }

    /// The cells that have a distance, each once, in no particular order.
    pub fn cells(&self) -> (list: Vec<K::Cell>)
        requires
            forall|n: Node| self@.dom().contains(n) ==> K::Cell::is_node(n),
        ensures
            crate::cell::nodes_of(list@).no_duplicates(),
            forall|n: Node| #[trigger]
                crate::cell::nodes_of(list@).contains(n) <==> self@.dom().contains(n),
    {
        let pairs = map_pairs(&self.distances);
        let mut nodes: Vec<Node> = Vec::new();
        let mut i: usize = 0;
        while i < pairs.len()
            invariant
                i <= pairs.len(),
                nodes.len() == i,
                forall|j: int| 0 <= j < i ==> #[trigger] nodes[j] == pairs[j].0,
            decreases pairs.len() - i,
        {
            nodes.push(pairs[i].0);
            i += 1;
        }
        proof {
            assert forall|a: int, b: int| 0 <= a < b < nodes.len() implies nodes[a] != nodes[b] by {
                if nodes[a] == nodes[b] {
                    assert(pairs@.contains(pairs[a]));
                    assert(pairs@.contains(pairs[b]));
                    assert(self@.contains_pair(pairs[a].0, pairs[a].1));
                    assert(self@.contains_pair(pairs[b].0, pairs[b].1));
                }
            }
            assert forall|n: Node| #[trigger] nodes@.contains(n) <==> self@.dom().contains(n) by {
                if nodes@.contains(n) {
                    let j = choose|j: int| 0 <= j < nodes.len() && nodes[j] == n;
                    assert(pairs@.contains(pairs[j]));
                    assert(self@.contains_pair(pairs[j].0, pairs[j].1));
                }
                if self@.dom().contains(n) {
                    assert(self@.contains_pair(n, self@[n]));
                    assert(pairs@.contains((n, self@[n])));
                    let j = choose|j: int| 0 <= j < pairs.len() && pairs[j] == (n, self@[n]);
                    assert(nodes[j] == n);
                }
            }
        }
        crate::cell::cells_from(&nodes)
    }

    /// A cell at the greatest distance, and that distance.
    pub fn max(&self) -> (farthest: (K::Cell, usize))
        requires
            self.wf(),
            forall|n: Node| self@.dom().contains(n) ==> K::Cell::is_node(n),
        ensures
            self@.contains_pair(farthest.0.node(), farthest.1),
            forall|n: Node| self@.dom().contains(n) ==> #[trigger] self@[n] <= farthest.1,
    {
        let pairs = map_pairs(&self.distances);
        proof {
            let r = self.root().node();
            assert(self@.contains_pair(r, self@[r]));
            assert(pairs@.contains((r, self@[r])));
        }
        let mut best: usize = 0;
        let mut i: usize = 1;
        while i < pairs.len()
            invariant
                1 <= i <= pairs.len(),
                best < i,
                forall|j: int| 0 <= j < i ==> (#[trigger] pairs[j]).1 <= pairs[best as int].1,
            decreases pairs.len() - i,
        {
            if pairs[i].1 >= pairs[best].1 {
                best = i;
            }
            i += 1;
        }
        let found = pairs[best];
        proof {
            assert(pairs@.contains(found));
            assert(self@.contains_pair(found.0, found.1));
            assert forall|n: Node| self@.dom().contains(n) implies #[trigger] self@[n] <= found.1 by {
                assert(self@.contains_pair(n, self@[n]));
                assert(pairs@.contains((n, self@[n])));
                let j = choose|j: int| 0 <= j < pairs.len() && pairs[j] == (n, self@[n]);
                assert(pairs[j].1 <= pairs[best as int].1);
            }
        }
        (K::Cell::from_node(found.0), found.1)
    }

    /// The way back from `goal` to the root: the distances of the cells of
    /// a walk that begins at `goal` and goes on, from each cell, to the first
    /// cell linked to it that has a smaller distance, until it is at the
    /// root. The way back must be one that can always go on (see
    /// [`way_back`]).
    pub fn path_to(&self, goal: K::Cell, grid: &Grid<K>) -> (crumbs: Self)
        requires
            grid.wf(),
            self@.dom().contains(goal.node()),
            way_back(grid@, self.root().node(), self@, goal.node()),
        ensures
            crumbs.root() == self.root(),
            crumbs.wf(),
            is_trail(grid@, self@, self.root().node(), goal.node(), crumbs@),
    {
        self.try_path_to(goal, grid).unwrap()
    }

    /// The way back from `goal` to the root (see [`Distances::path_to`]), or
    /// nothing where it comes to a cell, not the root, that is linked to no
    /// cell with a smaller distance, or where `goal` has no distance.
    pub fn try_path_to(&self, goal: K::Cell, grid: &Grid<K>) -> (way: Option<Self>)
        requires
            grid.wf(),
        ensures
            way is Some ==> way->Some_0.root() == self.root() && way->Some_0.wf() && is_trail(
                grid@,
                self@,
                self.root().node(),
                goal.node(),
                way->Some_0@,
            ),
            way is None ==> !self@.dom().contains(goal.node()) || !way_back(
                grid@,
                self.root().node(),
                self@,
                goal.node(),
            ),
    {
        if self.get(&goal).is_none() {
            return None;
        }
        let root = self.root.to_node();
        let mut current = goal;
        let mut crumbs = Self::new(self.root);
        crumbs.insert(current, self.at(current));
        let ghost mut p = seq![goal.node()];
        proof {
            assert(p[0] == goal.node());
        }
        loop
            invariant
                grid.wf(),
                root == self.root().node(),
                crumbs.root() == self.root(),
                crumbs.wf(),
                self@.dom().contains(current.node()),
                falls(grid@, self@, p),
                p.first() == goal.node(),
                p.last() == current.node(),
                forall|c: Node| #[trigger] crumbs@.dom().contains(c) <==> p.contains(c) || c == root,
                forall|c: Node|
                    #[trigger] crumbs@.dom().contains(c) && c != root ==> crumbs@[c] == self@[c],
                crumbs@[root] == self@[root] || current.node() != root,
            ensures
                current.node() == root,
                crumbs.root() == self.root(),
                crumbs.wf(),
                falls(grid@, self@, p),
                p.first() == goal.node(),
                p.last() == root,
                forall|c: Node| #[trigger] crumbs@.dom().contains(c) <==> p.contains(c) || c == root,
                forall|c: Node| #[trigger] crumbs@.dom().contains(c) ==> crumbs@[c] == self@[c],
            decreases self@[current.node()],
        {
            let here = current.to_node();
            if here.0 == root.0 && here.1 == root.1 && here.2 == root.2 {
                break ;
            }
            let links = grid.links(current);
            let reach = self.at(current);
            let mut k: usize = 0;
            let mut found: Option<K::Cell> = None;
            while k < links.len() && found.is_none()
                invariant
                    k <= links.len(),
                    forall|j: int|
                        0 <= j < k && found is None ==> !closer(
                            grid@,
                            self@,
                            current.node(),
                            (#[trigger] links[j]).node(),
                        ),
                    reach == self@[current.node()],
                    forall|b: Node| #[trigger]
                        crate::cell::nodes_of(links@).contains(b) <==> grid@.linked(current.node(), b),
                    found is Some ==> closer(grid@, self@, current.node(), found->Some_0.node()),
                decreases links.len() - k + (if found is None { 1int } else { 0int }),
            {
                let linked = links[k];
                proof {
                    assert(crate::cell::nodes_of(links@)[k as int] == linked.node());
                    assert(crate::cell::nodes_of(links@).contains(linked.node()));
                }
                match self.get(&linked) {
                    Some(d) => {
                        if d < reach {
                            found = Some(linked);
                        }
                    },
                    None => {},
                }
                k += 1;
            }
            if found.is_none() {
                proof {
                    if exists|n: Node| #[trigger] closer(grid@, self@, current.node(), n) {
                        let n = choose|n: Node| #[trigger] closer(grid@, self@, current.node(), n);
                        assert(crate::cell::nodes_of(links@).contains(n));
                        let j = choose|j: int|
                            0 <= j < links.len() && crate::cell::nodes_of(links@)[j] == n;
                        assert(links[j].node() == n);
                    }
                    assert(falls(grid@, self@, p) && p.first() == goal.node() && p.last() != root);
                }
                return None;
            }
            let next = found.unwrap();
            crumbs.insert(next, self.at(next));
            proof {
                lemma_falls_push(grid@, self@, p, next.node());
                p = p.push(next.node());
            }
            current = next;
        }
        proof {
            assert(p.contains(root)) by {
                assert(p[p.len() - 1] == root);
            }
            assert(trails(grid@, self@, root, goal.node(), crumbs@, p));
        }
        Some(crumbs)
    }
}

} // verus!
