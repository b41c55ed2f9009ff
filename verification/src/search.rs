//! The search for the cheapest walks from one cell to all others.

use crate::cell::CellKind;
use crate::cell_map::map_get;
use crate::cell_map::map_insert;
use crate::distances::costs;
use crate::distances::is_trail;
use crate::distances::lemma_downhill;
use crate::distances::shortest;
use crate::distances::way_back;
use crate::distances::walk_cost;
use crate::distances::walks;
use crate::distances::Distances;
use crate::graph::graph_neighbors;
use crate::graph::node_le;
use crate::graph::Node;
use crate::grid::Grid;
use crate::kind::Kind;
use crate::model::Maze;
use vstd::prelude::*;

verus! {

/// A cell waiting to be searched from, with the cost at which it was reached.
pub type Pending = (usize, Node);

/// Whether `a` comes before `b`, or is `b`, in the order of nodes.
pub fn node_before(a: Node, b: Node) -> (before: bool)
    ensures
        before == node_le(a, b),
{
    a.0 < b.0 || (a.0 == b.0 && (a.1 < b.1 || (a.1 == b.1 && a.2 <= b.2)))
}

/// Whether `a` is to be searched from no later than `b`: it was reached at
/// a lower cost, or at the same cost and is not before `b` in the order of
/// nodes.
pub open spec fn no_later(a: Pending, b: Pending) -> bool {
    a.0 < b.0 || (a.0 == b.0 && node_le(b.1, a.1))
}

/// Takes the cell to search from next out of the waiting ones: one reached
/// at the lowest cost, and among those the last in the order of nodes. The
/// last of the waiting ones takes its place.
pub fn pop_nearest(pending: &mut Vec<Pending>) -> (next: Pending)
    requires
        old(pending).len() > 0,
    ensures
        exists|i: int|
            0 <= i < old(pending).len() && #[trigger] old(pending)[i] == next && final(pending)@
                == old(pending)@.update(i, old(pending)@.last()).drop_last(),
        forall|j: int| 0 <= j < old(pending).len() ==> no_later(next, #[trigger] old(pending)[j]),
{
    let mut best: usize = 0;
    let mut i: usize = 1;
    while i < pending.len()
        invariant
            1 <= i <= pending.len(),
            best < i,
            forall|j: int| 0 <= j < i ==> no_later(pending[best as int], #[trigger] pending[j]),
        decreases pending.len() - i,
    {
        let here = pending[i];
        let least = pending[best];
        if here.0 < least.0 || (here.0 == least.0 && node_before(least.1, here.1)) {
            best = i;
        }
        i += 1;
    }
    let next = pending.swap_remove(best);
    assert(old(pending)[best as int] == next);
    next
}

/// The distance that `dist` holds for a cell, and one more than the machine
/// can count for a cell without a distance.
pub open spec fn label(dist: Map<Node, usize>, c: Node) -> int {
    if dist.dom().contains(c) {
        dist[c] as int
    } else {
        usize::MAX + 1
    }
}

/// The sum of the labels of a list of cells.
pub open spec fn potential(cells: Seq<Node>, dist: Map<Node, usize>) -> int
    decreases cells.len(),
{
    if cells.len() == 0 {
        0
    } else {
        potential(cells.drop_last(), dist) + label(dist, cells.last())
    }
}

/// The potential is not negative.
pub proof fn lemma_potential_bounds(cells: Seq<Node>, dist: Map<Node, usize>)
    ensures
        potential(cells, dist) >= 0,
    decreases cells.len(),
{
    if cells.len() > 0 {
        lemma_potential_bounds(cells.drop_last(), dist);
    }
}

/// A lower distance for a cell does not raise the potential, and lowers it
/// where the cell is one of those summed over.
pub proof fn lemma_potential_drops(cells: Seq<Node>, dist: Map<Node, usize>, v: Node, d: usize)
    requires
        d < label(dist, v),
    ensures
        potential(cells, dist.insert(v, d)) <= potential(cells, dist),
        cells.contains(v) ==> potential(cells, dist.insert(v, d)) < potential(cells, dist),
    decreases cells.len(),
{
    if cells.len() > 0 {
        let front = cells.drop_last();
        lemma_potential_drops(front, dist, v, d);
        if cells.contains(v) && cells.last() != v {
            let i = choose|i: int| 0 <= i < cells.len() && cells[i] == v;
            assert(front[i] == v);
        }
    }
}

/// Whether the link from `u` to `v` cannot lower the distance of `v`: going
/// through `u` costs more than the machine can count, or no less than the
/// distance that `v` has.
pub open spec fn relaxed<C: CellKind>(dist: Map<Node, usize>, u: Node, v: Node) -> bool {
    dist[u] + C::node_weight(v) > usize::MAX || (dist.dom().contains(v) && dist[v] <= dist[u]
        + C::node_weight(v))
}

/// Whether no link from `u` can lower a distance.
pub open spec fn settled<C: CellKind>(m: Maze, dist: Map<Node, usize>, u: Node) -> bool {
    forall|v: Node| m.linked(u, v) ==> #[trigger] relaxed::<C>(dist, u, v)
}

/// Whether `u` waits to be searched from at the distance that it has.
pub open spec fn queued(pending: Seq<Pending>, dist: Map<Node, usize>, u: Node) -> bool {
    exists|i: int| 0 <= i < pending.len() && #[trigger] pending[i] == (dist[u], u)
}

/// The state of the search: the root is at distance 0; every distance,
/// and every cost at which a cell waits, is the cost of a walk from the root;
/// no cell waits at a cost below its distance; and every cell with a
/// distance waits at that distance or is settled, but for `open`, the cell
/// that is being searched from.
pub open spec fn searching<C: CellKind>(
    m: Maze,
    root: Node,
    dist: Map<Node, usize>,
    pending: Seq<Pending>,
    open: Option<Node>,
) -> bool {
    &&& dist.dom().contains(root)
    &&& dist[root] == 0
    &&& forall|c: Node| #[trigger] dist.dom().contains(c) ==> costs::<C>(m, root, c, dist[c] as nat)
    &&& forall|i: int|
        0 <= i < pending.len() ==> {
            &&& dist.dom().contains((#[trigger] pending[i]).1)
            &&& dist[pending[i].1] <= pending[i].0
            &&& costs::<C>(m, root, pending[i].1, pending[i].0 as nat)
        }
    &&& forall|u: Node|
        dist.dom().contains(u) && Some(u) != open ==> queued(pending, dist, u) || #[trigger] settled::<
            C,
        >(m, dist, u)
}

/// When no cell waits, the distances are those of the cheapest walks.
pub proof fn lemma_search_done<C: CellKind>(m: Maze, root: Node, dist: Map<Node, usize>)
    requires
        searching::<C>(m, root, dist, Seq::<Pending>::empty(), None),
    ensures
        shortest::<C>(m, root, dist),
{
    assert forall|p: Seq<Node>|
        #![trigger m.is_walk(p)]
        m.is_walk(p) && p.first() == root && walk_cost::<C>(p) <= usize::MAX implies dist.dom().contains(
        p.last(),
    ) && dist[p.last()] <= walk_cost::<C>(p) by {
        lemma_settled_walk::<C>(m, root, dist, p);
    }
}

/// Where every cell with a distance is settled, no walk from the root
/// undercuts the distance of the cell at its end.
pub proof fn lemma_settled_walk<C: CellKind>(m: Maze, root: Node, dist: Map<Node, usize>, p: Seq<Node>)
    requires
        searching::<C>(m, root, dist, Seq::<Pending>::empty(), None),
        m.is_walk(p),
        p.first() == root,
        walk_cost::<C>(p) <= usize::MAX,
    ensures
        dist.dom().contains(p.last()),
        dist[p.last()] <= walk_cost::<C>(p),
    decreases p.len(),
{
    if p.len() > 1 {
        let q = p.drop_last();
        assert forall|i: int| 0 <= i < q.len() - 1 implies m.linked(#[trigger] q[i], q[i + 1]) by {
            assert(m.linked(p[i], p[i + 1]));
        }
        lemma_settled_walk::<C>(m, root, dist, q);
        let u = q.last();
        let v = p.last();
        assert(m.linked(p[p.len() - 2], p[p.len() - 2 + 1]));
        assert(!queued(Seq::<Pending>::empty(), dist, u));
        assert(settled::<C>(m, dist, u));
        assert(relaxed::<C>(dist, u, v));
    }
}

/// A walk taken one link further costs the weight of the new cell more.
pub proof fn lemma_costs_step<C: CellKind>(m: Maze, root: Node, u: Node, v: Node, cost: nat)
    requires
        costs::<C>(m, root, u, cost),
        m.linked(u, v),
    ensures
        costs::<C>(m, root, v, cost + C::node_weight(v) as nat),
{
    let p = choose|p: Seq<Node>| #[trigger] walks(m, p, root, u) && walk_cost::<C>(p) == cost;
    let q = p.push(v);
    assert forall|i: int| 0 <= i < q.len() - 1 implies m.linked(#[trigger] q[i], q[i + 1]) by {
        if i < p.len() - 1 {
            assert(m.linked(p[i], p[i + 1]));
        }
    }
    assert(q.drop_last() =~= p);
    assert(walks(m, q, root, v));
}

/// The walk that stays at the root costs nothing.
pub proof fn lemma_costs_root<C: CellKind>(m: Maze, root: Node)
    ensures
        costs::<C>(m, root, root, 0),
{
    let p = seq![root];
    assert(walks(m, p, root, root));
}

/// What is known of the cell that is being searched from, after the first
/// `done` of its links: it waits at its distance, or is settled, or it was
/// taken at its distance and those links cannot lower a distance.
pub open spec fn searched<C: CellKind>(
    m: Maze,
    dist: Map<Node, usize>,
    pending: Seq<Pending>,
    cell: Node,
    cost: usize,
    links: Seq<Node>,
    done: int,
) -> bool {
    ||| queued(pending, dist, cell)
    ||| settled::<C>(m, dist, cell)
    ||| cost == dist[cell] && forall|j: int|
        0 <= j < done ==> relaxed::<C>(dist, cell, #[trigger] links[j])
}

/// A lower distance for `v`, found on the link from `cell`, keeps the state
/// of the search when `v` is made to wait at it.
pub proof fn lemma_relax<C: CellKind>(
    m: Maze,
    root: Node,
    dist: Map<Node, usize>,
    pending: Seq<Pending>,
    cell: Node,
    cost: usize,
    links: Seq<Node>,
    done: int,
    t: usize,
)
    requires
        searching::<C>(m, root, dist, pending, Some(cell)),
        dist.dom().contains(cell),
        dist[cell] <= cost,
        costs::<C>(m, root, cell, cost as nat),
        0 <= done < links.len(),
        m.linked(cell, links[done]),
        t == cost + C::node_weight(links[done]),
        t < label(dist, links[done]),
        searched::<C>(m, dist, pending, cell, cost, links, done),
    ensures
        searching::<C>(
            m,
            root,
            dist.insert(links[done], t),
            pending.push((t, links[done])),
            Some(cell),
        ),
        searched::<C>(
            m,
            dist.insert(links[done], t),
            pending.push((t, links[done])),
            cell,
            cost,
            links,
            done + 1,
        ),
        links[done] != cell,
{
    let v = links[done];
    let after = dist.insert(v, t);
    let waiting = pending.push((t, v));
    lemma_costs_step::<C>(m, root, cell, v, cost as nat);
    assert forall|i: int| 0 <= i < waiting.len() implies {
        &&& after.dom().contains((#[trigger] waiting[i]).1)
        &&& after[waiting[i].1] <= waiting[i].0
        &&& costs::<C>(m, root, waiting[i].1, waiting[i].0 as nat)
    } by {
        if i < pending.len() {
            assert(waiting[i] == pending[i]);
        }
    }
    assert forall|u: Node| after.dom().contains(u) && u != v && (queued(pending, dist, u) || settled::<
        C,
    >(m, dist, u)) implies queued(waiting, after, u) || settled::<C>(m, after, u) by {
        if queued(pending, dist, u) {
            let i = choose|i: int| 0 <= i < pending.len() && #[trigger] pending[i] == (dist[u], u);
            assert(waiting[i] == (after[u], u));
        } else {
            assert forall|x: Node| m.linked(u, x) implies #[trigger] relaxed::<C>(after, u, x) by {
                assert(relaxed::<C>(dist, u, x));
            }
        }
    }
    assert(waiting[pending.len() as int] == (after[v], v));
    assert(queued(waiting, after, v));
    assert forall|u: Node| after.dom().contains(u) && Some(u) != Some(cell) implies queued(
        waiting,
        after,
        u,
    ) || #[trigger] settled::<C>(m, after, u) by {
        if u != v {
            assert(queued(pending, dist, u) || settled::<C>(m, dist, u));
        }
    }
    if !queued(pending, dist, cell) && !settled::<C>(m, dist, cell) {
        assert forall|j: int| 0 <= j < done + 1 implies relaxed::<C>(after, cell, #[trigger] links[j]) by {
            if j < done {
                assert(relaxed::<C>(dist, cell, links[j]));
            }
        }
    }
}

/// A link that cannot lower a distance leaves the state of the search as
/// it is.
pub proof fn lemma_no_relax<C: CellKind>(
    m: Maze,
    dist: Map<Node, usize>,
    pending: Seq<Pending>,
    cell: Node,
    cost: usize,
    links: Seq<Node>,
    done: int,
)
    requires
        dist.dom().contains(cell),
        dist[cell] <= cost,
        0 <= done < links.len(),
        cost + C::node_weight(links[done]) > usize::MAX || cost + C::node_weight(links[done])
            >= label(dist, links[done]),
        searched::<C>(m, dist, pending, cell, cost, links, done),
    ensures
        searched::<C>(m, dist, pending, cell, cost, links, done + 1),
{
    if !queued(pending, dist, cell) && !settled::<C>(m, dist, cell) {
        assert forall|j: int| 0 <= j < done + 1 implies relaxed::<C>(dist, cell, #[trigger] links[j]) by {
            if j < done {
                assert(relaxed::<C>(dist, cell, links[j]));
            }
        }
    }
}

/// Taking a waiting cell out keeps the state of the search, the cell now
/// being the one that is searched from.
pub proof fn lemma_popped<C: CellKind>(
    m: Maze,
    root: Node,
    dist: Map<Node, usize>,
    pending: Seq<Pending>,
    i: int,
    links: Seq<Node>,
)
    requires
        searching::<C>(m, root, dist, pending, None),
        0 <= i < pending.len(),
    ensures
        searching::<C>(
            m,
            root,
            dist,
            pending.update(i, pending.last()).drop_last(),
            Some(pending[i].1),
        ),
        searched::<C>(
            m,
            dist,
            pending.update(i, pending.last()).drop_last(),
            pending[i].1,
            pending[i].0,
            links,
            0,
        ),
{
    let rest = pending.update(i, pending.last()).drop_last();
    let cell = pending[i].1;
    assert forall|k: int| 0 <= k < rest.len() implies {
        &&& dist.dom().contains((#[trigger] rest[k]).1)
        &&& dist[rest[k].1] <= rest[k].0
        &&& costs::<C>(m, root, rest[k].1, rest[k].0 as nat)
    } by {
        if k == i {
            assert(rest[k] == pending[pending.len() - 1]);
        } else {
            assert(rest[k] == pending[k]);
        }
    }
    assert forall|u: Node| dist.dom().contains(u) && queued(pending, dist, u) && (u != cell
        || pending[i].0 != dist[u]) implies queued(rest, dist, u) by {
        let k = choose|k: int| 0 <= k < pending.len() && #[trigger] pending[k] == (dist[u], u);
        if k == pending.len() - 1 {
            assert(rest[i] == (dist[u], u));
        } else {
            assert(rest[k] == (dist[u], u));
        }
    }
    assert forall|u: Node| dist.dom().contains(u) && Some(u) != Some(cell) implies queued(
        rest,
        dist,
        u,
    ) || #[trigger] settled::<C>(m, dist, u) by {
        assert(queued(pending, dist, u) || settled::<C>(m, dist, u));
    }
    assert(queued(pending, dist, cell) || settled::<C>(m, dist, cell));
}

impl<K: Kind> Grid<K> {
    /// Searches from a cell that was taken out of the waiting ones: every
    /// cell linked to it that is reached at a lower cost through it than
    /// before, or for the first time, gets that cost as its distance and
    /// waits. A cost that the machine cannot count reaches nothing.
    fn search_from(
        &self,
        weights: &mut Distances<K>,
        pending: &mut Vec<Pending>,
        cost: usize,
        cell: Node,
        Ghost(root): Ghost<Node>,
    )
        requires
            self.wf(),
            searching::<K::Cell>(self@, root, old(weights)@, old(pending)@, Some(cell)),
            old(weights)@.dom().contains(cell),
            old(weights)@[cell] <= cost,
            costs::<K::Cell>(self@, root, cell, cost as nat),
            forall|links: Seq<Node>|
                searched::<K::Cell>(self@, old(weights)@, old(pending)@, cell, cost, links, 0),
        ensures
            final(weights).root() == old(weights).root(),
            searching::<K::Cell>(self@, root, final(weights)@, final(pending)@, None),
            potential(self@.cells, final(weights)@) + (final(pending).len() - old(pending).len())
                <= potential(self@.cells, old(weights)@),
            final(pending).len() >= old(pending).len(),
    {
        let links = graph_neighbors(self.graph(), cell);
        let mut j: usize = 0;
        while j < links.len()
            invariant
                j <= links.len(),
                self.wf(),
                weights.root() == old(weights).root(),
                links@.no_duplicates(),
                forall|b: Node| #[trigger] links@.contains(b) <==> self@.linked(cell, b),
                searching::<K::Cell>(self@, root, weights@, pending@, Some(cell)),
                weights@.dom().contains(cell),
                weights@[cell] <= cost,
                costs::<K::Cell>(self@, root, cell, cost as nat),
                searched::<K::Cell>(self@, weights@, pending@, cell, cost, links@, j as int),
                potential(self@.cells, weights@) + (pending.len() - old(pending).len())
                    <= potential(self@.cells, old(weights)@),
                pending.len() >= old(pending).len(),
            decreases links.len() - j,
        {
            let v = links[j];
            proof {
                assert(links@.contains(v));
                self@.lemma_linked_cells(cell, v);
            }
            let weight = K::Cell::from_node(v).weight();
            let known = map_get(&weights.distances, v);
            let lower = weight <= usize::MAX - cost && match known {
                Some(d) => cost + weight < d,
                None => true,
            };
            if lower {
                let total = cost + weight;
                proof {
                    lemma_relax::<K::Cell>(
                        self@,
                        root,
                        weights@,
                        pending@,
                        cell,
                        cost,
                        links@,
                        j as int,
                        total,
                    );
                    lemma_potential_drops(self@.cells, weights@, v, total);
                }
                pending.push((total, v));
                map_insert(&mut weights.distances, v, total);
            } else {
                proof {
                    lemma_no_relax::<K::Cell>(
                        self@,
                        weights@,
                        pending@,
                        cell,
                        cost,
                        links@,
                        j as int,
                    );
                }
            }
            j += 1;
        }
        proof {
            if !queued(pending@, weights@, cell) && !settled::<K::Cell>(self@, weights@, cell) {
                assert forall|x: Node| self@.linked(cell, x) implies #[trigger] relaxed::<K::Cell>(
                    weights@,
                    cell,
                    x,
                ) by {
                    assert(links@.contains(x));
                    let k = choose|k: int| 0 <= k < links.len() && links[k] == x;
                    assert(relaxed::<K::Cell>(weights@, cell, links[k]));
                }
            }
        }
    }

    /// The distance of every cell from `cell`: the least that a walk along
    /// links from `cell` to it costs, where entering a cell costs its weight.
    /// A cell to which no walk leads has no distance, nor one to which every
    /// walk costs more than the machine can count.
    pub fn distances_from(&self, cell: K::Cell) -> (weights: Distances<K>)
        requires
            self.wf(),
        ensures
            weights.root() == cell,
            weights.wf(),
            weights@[cell.node()] == 0,
            shortest::<K::Cell>(self@, cell.node(), weights@),
    {
        let root = cell.to_node();
        let mut weights = Distances::new(cell);
        let mut pending: Vec<Pending> = Vec::new();
        pending.push((0, root));
        proof {
            lemma_costs_root::<K::Cell>(self@, root);
            assert(pending@[0] == (weights@[root], root));
            lemma_potential_bounds(self@.cells, weights@);
        }
        while pending.len() > 0
            invariant
                self.wf(),
                weights.root() == cell,
                root == cell.node(),
                searching::<K::Cell>(self@, root, weights@, pending@, None),
                potential(self@.cells, weights@) >= 0,
            decreases potential(self@.cells, weights@), pending.len(),
        {
            let ghost waiting = pending@;
            let next = pop_nearest(&mut pending);
            proof {
                let i = choose|i: int|
                    0 <= i < waiting.len() && #[trigger] waiting[i] == next && pending@
                        == waiting.update(i, waiting.last()).drop_last();
                assert forall|links: Seq<Node>|
                    searched::<K::Cell>(self@, weights@, pending@, next.1, next.0, links, 0) by {
                    lemma_popped::<K::Cell>(self@, root, weights@, waiting, i, links);
                }
                lemma_popped::<K::Cell>(self@, root, weights@, waiting, i, Seq::empty());
            }
            self.search_from(&mut weights, &mut pending, next.0, next.1, Ghost(root));
            proof {
                lemma_potential_bounds(self@.cells, weights@);
            }
        }
        proof {
            assert(pending@ =~= Seq::<Pending>::empty());
            lemma_search_done::<K::Cell>(self@, root, weights@);
        }
        weights
    }

    /// Where a walk leads from `start` to `goal` at a cost that the machine
    /// can count, and entering a cell costs at least 1, the goal has a
    /// distance and the way back from it can always go on.
    pub proof fn lemma_distances_owed(&self, start: Node, goal: Node, dist: Map<Node, usize>)
        requires
            self.wf(),
            exists|cost: nat|
                cost <= usize::MAX && #[trigger] costs::<K::Cell>(self@, start, goal, cost),
            forall|n: Node| self@.has_cell(n) ==> #[trigger] K::Cell::node_weight(n) >= 1,
            shortest::<K::Cell>(self@, start, dist),
        ensures
            dist.dom().contains(goal),
            way_back(self@, start, dist, goal),
    {
        let cost = choose|cost: nat|
            cost <= usize::MAX && #[trigger] costs::<K::Cell>(self@, start, goal, cost);
        let p = choose|p: Seq<Node>| #[trigger]
            walks(self@, p, start, goal) && walk_cost::<K::Cell>(p) == cost;
        assert(self@.is_walk(p));
        lemma_downhill::<K::Cell>(self@, start, dist);
        crate::distances::lemma_way_back(self@, start, dist, goal);
    }

    /// The distances that the start and the goal ask for: nothing where
    /// neither is set; the distances from the one that is set; or, with
    /// both, the way back from the goal to the start. With both, the goal
    /// must have a distance from the start, and the way back must be one
    /// that can always go on (see [`way_back`]): so it is wherever a walk
    /// leads from the start to the goal at a cost that the machine can
    /// count and entering a cell costs at least 1 (see
    /// [`Grid::lemma_distances_owed`]).
    pub fn distances(&self) -> (found: Option<Distances<K>>)
        requires
            self.wf(),
            self.start() is Some && self.goal() is Some ==> forall|dist: Map<Node, usize>| #[trigger]
                shortest::<K::Cell>(self@, self.start()->Some_0.node(), dist) ==> dist.dom().contains(
                    self.goal()->Some_0.node(),
                ) && way_back(self@, self.start()->Some_0.node(), dist, self.goal()->Some_0.node()),
        ensures
            found is None <==> self.start() is None && self.goal() is None,
            found is Some ==> found->Some_0.wf(),
            match (self.start(), self.goal()) {
                (None, None) => true,
                (Some(cell), None) | (None, Some(cell)) => found->Some_0.root() == cell && shortest::<
                    K::Cell,
                >(self@, cell.node(), found->Some_0@),
                (Some(start), Some(goal)) => found->Some_0.root() == start && exists|
                    dist: Map<Node, usize>,
                |
                    shortest::<K::Cell>(self@, start.node(), dist) && #[trigger] is_trail(
                        self@,
                        dist,
                        start.node(),
                        goal.node(),
                        found->Some_0@,
                    ),
            },
    {
        match (self.start, self.goal) {
            (None, None) => None,
            (Some(cell), None) => Some(self.distances_from(cell)),
            (None, Some(cell)) => Some(self.distances_from(cell)),
            (Some(start), Some(goal)) => {
                let all = self.distances_from(start);
                let crumbs = all.path_to(goal, self);
                assert(is_trail(self@, all@, start.node(), goal.node(), crumbs@));
                Some(crumbs)
            },
        }
    }
}

} // verus!
