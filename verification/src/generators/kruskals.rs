//! Kruskal's algorithm: links between adjacent cells, taken in random
//! order, each made if it joins two sets of cells.

use crate::cell::nodes_of;
use crate::cell::CellKind;
use crate::generators::sidewinder::place;
use crate::graph::edge_key;
use crate::graph::Node;
use crate::cell::OverCell;
use crate::cell::WeaveCell;
use crate::grid::Grid;
use crate::kind::Kind;
use crate::model::lemma_edge_key;
use crate::model::lemma_edge_key_eq;
use crate::model::Maze;
use crate::random::random_bool;
use crate::random::random_range;
use crate::random::shuffle;
use crate::rect::grid_cells;
use crate::rect::in_rect;
use crate::rect::surface;
use crate::weave::between;
use crate::weave::dug;
use crate::weave::lemma_woven_surface;
use crate::weave::under;
use crate::weave::Weave;
use crate::sets::lemma_agree_merged;
use crate::sets::lemma_live_one;
use crate::sets::lemma_live_push;
use crate::sets::live;
use crate::sets::DisjointSets;
use vstd::prelude::*;

verus! {

/// The state of Kruskal's algorithm: the grid, the pairs of adjacent cells
/// that are still to be looked at, and the sets of cells that the links made
/// so far join.
pub struct State<K: Kind> {
    pub(crate) grid: Grid<K>,
    pub(crate) neighbours: Vec<(K::Cell, K::Cell)>,
    pub(crate) sets: DisjointSets,
}

/// Whether a list of pairs holds a pair of nodes.
pub open spec fn has_pair<C: CellKind>(pairs: Seq<(C, C)>, a: Node, b: Node) -> bool {
    exists|k: int| 0 <= k < pairs.len() && (#[trigger] pairs[k]).0.node() == a && pairs[k].1.node() == b
}

impl<K: Kind> Grid<K> {
    /// Every pair of a cell and a cell adjacent to it.
    pub fn neighbouring_cells(&self) -> (pairs: Vec<(K::Cell, K::Cell)>)
        requires
            self.wf(),
        ensures
            forall|k: int|
                0 <= k < pairs.len() ==> self@.has_cell((#[trigger] pairs[k]).0.node())
                    && self@.has_cell(pairs[k].1.node()) && self.kind().adjacent(
                    self@,
                    pairs[k].0.node(),
                ).contains(pairs[k].1.node()),
            forall|a: Node, i: int|
                self@.has_cell(a) && 0 <= i < self.kind().adjacent(self@, a).len() ==> has_pair(
                    pairs@,
                    a,
                    #[trigger] self.kind().adjacent(self@, a)[i],
                ),
    {
        let cells = self.cells();
        let mut pairs: Vec<(K::Cell, K::Cell)> = Vec::new();
        let mut c: usize = 0;
        while c < cells.len()
            invariant
                c <= cells.len(),
                self.wf(),
                nodes_of(cells@) == self@.cells,
                forall|k: int|
                    0 <= k < pairs.len() ==> self@.has_cell((#[trigger] pairs[k]).0.node())
                        && self@.has_cell(pairs[k].1.node()) && self.kind().adjacent(
                        self@,
                        pairs[k].0.node(),
                    ).contains(pairs[k].1.node()),
                forall|j: int, i: int|
                    0 <= j < c && 0 <= i < self.kind().adjacent(self@, self@.cells[j]).len()
                        ==> has_pair(
                        pairs@,
                        self@.cells[j],
                        #[trigger] self.kind().adjacent(self@, self@.cells[j])[i],
                    ),
            decreases cells.len() - c,
        {
            let cell = cells[c];
            let around = self.neighbours(cell);
            let ghost adj = self.kind().adjacent(self@, cell.node());
            proof {
                assert(nodes_of(cells@)[c as int] == cell.node());
                assert(self@.cells.contains(cell.node()));
            }
            let mut i: usize = 0;
            while i < around.len()
                invariant
                    i <= around.len(),
                    c < cells.len(),
                    self.wf(),
                    cell.node() == self@.cells[c as int],
                    self@.has_cell(cell.node()),
                    nodes_of(around@) == adj,
                    adj == self.kind().adjacent(self@, cell.node()),
                    forall|k: int| 0 <= k < around.len() ==> self@.has_cell((#[trigger] around[k]).node()),
                    forall|k: int|
                        0 <= k < pairs.len() ==> self@.has_cell((#[trigger] pairs[k]).0.node())
                            && self@.has_cell(pairs[k].1.node()) && self.kind().adjacent(
                            self@,
                            pairs[k].0.node(),
                        ).contains(pairs[k].1.node()),
                    forall|j: int, x: int|
                        0 <= j < c && 0 <= x < self.kind().adjacent(self@, self@.cells[j]).len()
                            ==> has_pair(
                            pairs@,
                            self@.cells[j],
                            #[trigger] self.kind().adjacent(self@, self@.cells[j])[x],
                        ),
                    forall|x: int| 0 <= x < i ==> has_pair(pairs@, cell.node(), #[trigger] adj[x]),
                decreases around.len() - i,
            {
                let ghost before = pairs@;
                pairs.push((cell, around[i]));
                proof {
                    assert(nodes_of(around@)[i as int] == around[i as int].node());
                    assert(adj.contains(adj[i as int]));
                    assert forall|a: Node, b: Node| has_pair(before, a, b) implies has_pair(
                        pairs@,
                        a,
                        b,
                    ) by {
                        let k = choose|k: int|
                            0 <= k < before.len() && (#[trigger] before[k]).0.node() == a
                                && before[k].1.node() == b;
                        assert(pairs@[k] == before[k]);
                    }
                    assert(pairs@[before.len() as int].1.node() == adj[i as int]);
                    assert(has_pair(pairs@, cell.node(), adj[i as int]));
                }
                i += 1;
            }
            c += 1;
        }
        proof {
            assert forall|a: Node, i: int|
                self@.has_cell(a) && 0 <= i < self.kind().adjacent(self@, a).len() implies has_pair(
                pairs@,
                a,
                #[trigger] self.kind().adjacent(self@, a)[i],
            ) by {
                let j = choose|j: int| 0 <= j < self@.cells.len() && self@.cells[j] == a;
            }
        }
        pairs
    }
}

impl<K: Kind> State<K> {
    /// The grid.
    pub open(crate) spec fn grid(&self) -> Grid<K> {
        self.grid
    }

    /// The sets.
    pub open(crate) spec fn sets(&self) -> DisjointSets {
        self.sets
    }

    /// The pairs of adjacent cells that are still to be looked at.
    pub open(crate) spec fn pairs(&self) -> Seq<(K::Cell, K::Cell)> {
        self.neighbours@
    }

    /// The grid and the sets are wellformed.
    pub open spec fn wf(&self) -> bool {
        self.grid().wf() && self.sets().wf()
    }

    /// Whether the sets are the trees of a forest (see [`is_forest`]) that
    /// holds every cell of the grid.
    pub open spec fn forest(&self) -> bool {
        &&& is_forest(
            self.grid()@,
            self.sets().ids(),
            self.sets().lists(),
            self.grid()@.cells.len(),
        )
        &&& forall|c: Node| #[trigger] self.grid()@.has_cell(c) ==> self.sets().has(c)
    }

    /// Whether the two cells of every pair that is still to be looked at lie
    /// near each other (see [`Kind::near`]).
    pub open spec fn pairs_near(&self) -> bool {
        forall|k: int|
            0 <= k < self.pairs().len() ==> self.grid().kind().near(
                self.grid()@.cells,
                (#[trigger] self.pairs()[k]).0.node(),
                self.pairs()[k].1.node(),
            )
    }

    /// The number of sets with cells.
    pub open spec fn alive(&self) -> nat {
        crate::sets::live(self.sets().lists())
    }

    /// How many links there are beyond those of a forest whose trees are
    /// the sets: links and sets with cells together, less the cells.
    pub open spec fn spare(&self) -> int {
        self.grid()@.edges.len() + self.alive() - self.grid()@.cells.len()
    }

    /// Whether two linked cells are always in one set.
    pub open spec fn bound(&self) -> bool {
        forall|a: Node, b: Node| #[trigger]
            self.grid()@.linked(a, b) ==> self.sets().has(a) && self.sets().has(b)
                && self.sets().together(a, b)
    }

    /// Whether the sets hold cells of the grid only, and a walk along links
    /// leads from every cell in a set to every other cell of the set.
    pub open spec fn knit(&self) -> bool {
        &&& forall|c: Node| #[trigger] self.sets().has(c) ==> self.grid()@.has_cell(c)
        &&& forall|a: Node, b: Node|
            self.sets().has(a) && self.sets().has(b) && self.sets().together(a, b)
                ==> #[trigger] self.grid()@.joins(a, b)
    }

    /// Every cell in a set of its own, for a grid without links.
    pub fn new(grid: Grid<K>) -> (state: Self)
        requires
            grid.wf(),
        ensures
            state.wf(),
            state.grid() == grid,
            forall|c: Node| grid@.has_cell(c) ==> #[trigger] state.sets().has(c),
            grid@.edges =~= Set::<(Node, Node)>::empty() ==> state.forest(),
            grid@.edges =~= Set::<(Node, Node)>::empty() ==> state.knit(),
            grid@.edges =~= Set::<(Node, Node)>::empty() ==> state.bound(),
            forall|a: Node, i: int|
                grid@.has_cell(a) && 0 <= i < grid.kind().adjacent(grid@, a).len() ==> has_pair(
                    state.pairs(),
                    a,
                    #[trigger] grid.kind().adjacent(grid@, a)[i],
                ),
            forall|k: int|
                0 <= k < state.pairs().len() ==> grid@.has_cell(
                    (#[trigger] state.pairs()[k]).0.node(),
                ) && grid@.has_cell(state.pairs()[k].1.node()) && grid.kind().adjacent(
                    grid@,
                    state.pairs()[k].0.node(),
                ).contains(state.pairs()[k].1.node()),
    {
        let neighbours = grid.neighbouring_cells();
        let cells = grid.cells();
        let mut sets = DisjointSets::new();
        let mut i: usize = 0;
        proof {
            assert(grid@.cells.take(0) =~= Seq::<Node>::empty());
            crate::sets::lemma_live_none(sets.lists());
        }
        while i < cells.len()
            invariant
                i <= cells.len(),
                grid.wf(),
                nodes_of(cells@) == grid@.cells,
                sets.wf(),
                sets.lists().len() == i,
                forall|c: Node| #[trigger] sets.has(c) <==> grid@.cells.take(i as int).contains(c),
                forall|c: Node| #[trigger] sets.has(c) ==> grid@.cells[sets.ids()[c] as int] == c,
                forall|s: int| 0 <= s < i ==> #[trigger] sets.lists()[s] == seq![grid@.cells[s]],
                live(sets.lists()) == i,
            decreases cells.len() - i,
        {
            let cell = cells[i].to_node();
            let ghost before = sets;
            proof {
                assert(nodes_of(cells@)[i as int] == cell);
                let front = grid@.cells.take(i as int);
                if front.contains(cell) {
                    let j = choose|j: int| 0 <= j < front.len() && front[j] == cell;
                    assert(grid@.cells[j] == grid@.cells[i as int]);
                }
            }
            sets.adopt(i, cell);
            proof {
                let front = grid@.cells.take(i as int);
                let next = grid@.cells.take(i + 1);
                assert(next =~= front.push(cell));
                assert forall|c: Node| #[trigger] sets.has(c) <==> next.contains(c) by {
                    assert(sets.has(c) <==> before.has(c) || c == cell);
                    assert(before.has(c) <==> front.contains(c));
                    if front.contains(c) {
                        let j = choose|j: int| 0 <= j < front.len() && front[j] == c;
                        assert(next[j] == c);
                    }
                    if next.contains(c) {
                        let j = choose|j: int| 0 <= j < next.len() && next[j] == c;
                        if j < i {
                            assert(front[j] == c);
                        }
                    }
                    assert(next[i as int] == cell);
                }
                assert(sets.lists()[i as int] =~= seq![cell]);
                assert(sets.lists() =~= before.lists().push(seq![cell]));
                lemma_live_push(before.lists(), seq![cell]);
            }
            i += 1;
        }
        let state = Self { grid, neighbours, sets };
        proof {
            assert(grid@.cells.take(cells.len() as int) =~= grid@.cells);
            if grid@.edges =~= Set::<(Node, Node)>::empty() {
                let ids = sets.ids();
                assert forall|a: Node, b: Node|
                    ids.dom().contains(a) && ids.dom().contains(b) && ids[a]
                        == ids[b] implies #[trigger] grid@.joins(a, b) by {
                    assert(sets.has(a) && sets.has(b));
                    assert(grid@.cells[ids[a] as int] == a);
                    assert(grid@.cells[ids[b] as int] == b);
                    grid@.lemma_joins_reflexive(a);
                }
                assert forall|c: Node| #[trigger] ids.dom().contains(c) <==> grid@.has_cell(c) by {
                    assert(sets.has(c) <==> grid@.cells.take(cells.len() as int).contains(c));
                }
                assert forall|a: Node, b: Node| #[trigger] grid@.linked(a, b) implies ids.dom().contains(
                    a,
                ) && ids.dom().contains(b) && ids[a] == ids[b] by {}
                assert(grid@.edges.len() == 0);
                assert(is_forest(grid@, ids, sets.lists(), grid@.cells.len()));
            }
        }
        state
    }

    /// Gives the grid back.
    pub fn into_grid(self) -> (grid: Grid<K>)
        ensures
            grid == self.grid(),
    {
        self.grid
    }

    /// Whether two cells are in different sets.
    pub fn can_merge(&self, left: K::Cell, right: K::Cell) -> (apart: bool)
        requires
            self.sets().has(left.node()),
            self.sets().has(right.node()),
        ensures
            apart == (self.sets().ids()[left.node()] != self.sets().ids()[right.node()]),
    {
        !self.sets.same_set(left.to_node(), right.to_node())
    }

    /// Links two cells and makes one set of their two sets. A cell `right`
    /// that is in no set joins the set of `left`.
    pub fn merge(&mut self, left: K::Cell, right: K::Cell)
        requires
            old(self).wf(),
            old(self).grid()@.has_cell(left.node()),
            old(self).grid()@.has_cell(right.node()),
            old(self).sets().has(left.node()),
        ensures
            final(self).wf(),
            final(self).pairs() == old(self).pairs(),
            final(self).grid().kind() == old(self).grid().kind(),
            final(self).grid().marks() == old(self).grid().marks(),
            final(self).grid()@ == old(self).grid().kind().linking(
                old(self).grid()@,
                left.node(),
                right.node(),
            ),
            crate::model::joined(
                old(self).grid()@,
                left.node(),
                right.node(),
                final(self).grid()@,
            ),
            old(self).grid().kind().flat() ==> final(self).grid()@ == old(self).grid()@.connect(
                left.node(),
                right.node(),
            ),
            forall|c: Node| old(self).sets().has(c) ==> #[trigger] final(self).sets().has(c),
            final(self).sets().has(right.node()),
            forall|a: Node, b: Node|
                old(self).sets().has(a) && old(self).sets().has(b) && old(self).sets().ids()[a]
                    == old(self).sets().ids()[b] ==> #[trigger] final(self).sets().together(a, b),
            final(self).sets().ids()[left.node()] == final(self).sets().ids()[right.node()],
            old(self).grid().kind().flat() && old(self).forest() && old(self).sets().has(
                right.node(),
            ) && old(self).sets().ids()[left.node()] != old(self).sets().ids()[right.node()]
                ==> final(self).forest(),
            old(self).knit() ==> final(self).knit(),
            old(self).bound() && final(self).grid()@ == old(self).grid()@.connect(
                left.node(),
                right.node(),
            ) ==> final(self).bound(),
            final(self).sets().ids() == (if !old(self).sets().has(right.node()) {
                old(self).sets().ids().insert(right.node(), old(self).sets().ids()[left.node()])
            } else if old(self).sets().ids()[left.node()] != old(self).sets().ids()[right.node()] {
                crate::sets::merged_ids(
                    old(self).sets().ids(),
                    old(self).sets().ids()[left.node()],
                    old(self).sets().ids()[right.node()],
                )
            } else {
                old(self).sets().ids()
            }),
            final(self).alive() + (if old(self).sets().has(right.node()) && old(self).sets().ids()[left.node()]
                != old(self).sets().ids()[right.node()] {
                1int
            } else {
                0int
            }) == old(self).alive(),
    {
        let ghost pre = *self;
        self.grid.link(left, right);
        let l = left.to_node();
        let r = right.to_node();
        proof {
            if pre.knit() {
                crate::model::lemma_joined_joins(pre.grid()@, l, r, self.grid()@);
                lemma_knit_merged(pre.grid()@, self.grid()@, pre.sets().ids(), pre.sets().ids(), l, r);
            }
        }
        let left_id = self.sets.find(l).unwrap();
        match self.sets.find(r) {
            Some(right_id) => {
                if right_id != left_id {
                    proof {
                        lemma_agree_merged(self.sets.ids(), self.sets.lists(), left_id, right_id);
                    }
                    self.sets.union(left_id, right_id);
                    proof {
                        assert(pre.sets().lists()[left_id as int].contains(l));
                        assert(pre.sets().lists()[right_id as int].contains(r));
                        if pre.knit() {
                            lemma_knit_merged(
                                pre.grid()@,
                                self.grid()@,
                                pre.sets().ids(),
                                self.sets().ids(),
                                l,
                                r,
                            );
                        }
                        if pre.grid().kind().flat() && pre.forest() {
                            assert forall|c: Node| #[trigger] self.grid()@.has_cell(c) implies self.sets().has(
                                c,
                            ) by {
                                assert(pre.grid()@.has_cell(c));
                            }
                            lemma_merged_forest(
                                pre.grid()@,
                                pre.sets().ids(),
                                pre.sets().lists(),
                                pre.grid()@.cells.len(),
                                l,
                                r,
                            );
                        }
                    }
                }
            },
            None => {
                self.sets.adopt(left_id, r);
                proof {
                    let before = pre.sets().lists();
                    assert(before[left_id as int].contains(l));
                    assert(self.sets().lists() =~= before.update(
                        left_id as int,
                        before[left_id as int].push(r),
                    ));
                    crate::sets::lemma_live_update(
                        before,
                        left_id as int,
                        before[left_id as int].push(r),
                    );
                    if pre.knit() {
                        lemma_knit_merged(
                            pre.grid()@,
                            self.grid()@,
                            pre.sets().ids(),
                            self.sets().ids(),
                            l,
                            r,
                        );
                    }
                }
            },
        }
        proof {
            if pre.knit() {
                crate::model::lemma_joined_extends(pre.grid()@, l, r, self.grid()@);
                assert forall|c: Node| #[trigger] self.sets().has(c) implies self.grid()@.has_cell(
                    c,
                ) by {
                    if c == r {
                        self.grid()@.lemma_extends_cell(pre.grid()@, r);
                    } else {
                        assert(pre.sets().has(c));
                        self.grid()@.lemma_extends_cell(pre.grid()@, c);
                    }
                }
            }
            if pre.bound() && self.grid()@ == pre.grid()@.connect(l, r) {
                crate::model::lemma_connect_links(pre.grid()@, l, r);
                assert forall|a: Node, b: Node| #[trigger] self.grid()@.linked(a, b) implies self.sets().has(
                    a,
                ) && self.sets().has(b) && self.sets().together(a, b) by {
                    if pre.grid()@.linked(a, b) {
                        assert(pre.sets().has(a) && pre.sets().has(b) && pre.sets().together(a, b));
                    }
                }
            }
        }
    }
}

/// Whether a cell is `r`, or in the set of `l` or of `r`.
pub open spec fn beside_link(ids: Map<Node, usize>, l: Node, r: Node, c: Node) -> bool {
    c == r || (ids.dom().contains(c) && (ids[c] == ids[l] || (ids.dom().contains(r) && ids[c]
        == ids[r])))
}

/// Where a walk leads from every cell in a set to every other cell of the
/// set, it still does after `l` was linked to `r` and their sets were made
/// one.
pub proof fn lemma_knit_merged(
    m: Maze,
    post: Maze,
    ids: Map<Node, usize>,
    after: Map<Node, usize>,
    l: Node,
    r: Node,
)
    requires
        forall|a: Node, b: Node|
            ids.dom().contains(a) && ids.dom().contains(b) && ids[a] == ids[b] ==> #[trigger] m.joins(
                a,
                b,
            ),
        m.edges.subset_of(post.edges),
        post.joins(l, r),
        ids.dom().contains(l),
        forall|a: Node, b: Node|
            after.dom().contains(a) && after.dom().contains(b) && #[trigger] after[a] == #[trigger] after[b]
                ==> (ids.dom().contains(a) && ids.dom().contains(b) && ids[a] == ids[b]) || (
            beside_link(ids, l, r, a) && beside_link(ids, l, r, b)),
    ensures
        forall|a: Node, b: Node|
            after.dom().contains(a) && after.dom().contains(b) && after[a] == after[b]
                ==> #[trigger] post.joins(a, b),
{
    assert forall|a: Node, b: Node|
        after.dom().contains(a) && after.dom().contains(b) && after[a] == after[b] implies #[trigger] post.joins(
        a,
        b,
    ) by {
        if ids.dom().contains(a) && ids.dom().contains(b) && ids[a] == ids[b] {
            m.lemma_joins_grows(post, a, b);
        } else {
            lemma_to_link(m, post, ids, l, r, a);
            lemma_to_link(m, post, ids, l, r, b);
            post.lemma_joins_symmetric(b, l);
            post.lemma_joins_transitive(a, l, b);
        }
    }
}

/// After `l` was linked to `r`, a walk leads to `l` from `r` and from every
/// cell that was in the set of one of them.
pub proof fn lemma_to_link(m: Maze, post: Maze, ids: Map<Node, usize>, l: Node, r: Node, c: Node)
    requires
        forall|a: Node, b: Node|
            ids.dom().contains(a) && ids.dom().contains(b) && ids[a] == ids[b] ==> #[trigger] m.joins(
                a,
                b,
            ),
        m.edges.subset_of(post.edges),
        post.joins(l, r),
        ids.dom().contains(l),
        beside_link(ids, l, r, c),
    ensures
        post.joins(c, l),
{
    post.lemma_joins_symmetric(l, r);
    if c == r {
    } else if ids[c] == ids[l] {
        m.lemma_joins_grows(post, c, l);
    } else {
        m.lemma_joins_grows(post, c, r);
        post.lemma_joins_transitive(c, r, l);
    }
}

/// Whether set numbers and lists describe the trees of a forest in a maze:
/// the cells in sets are cells of the maze, `count` of them; two cells of a
/// set are joined by a walk; two linked cells are in one set; and there are
/// as many links and sets with cells together as cells in sets.
pub open spec fn is_forest(
    m: Maze,
    ids: Map<Node, usize>,
    lists: Seq<Seq<Node>>,
    count: nat,
) -> bool {
    &&& forall|c: Node| #[trigger] ids.dom().contains(c) ==> m.has_cell(c)
    &&& forall|a: Node, b: Node|
        ids.dom().contains(a) && ids.dom().contains(b) && ids[a] == ids[b] ==> #[trigger] m.joins(a, b)
    &&& forall|a: Node, b: Node| #[trigger]
        m.linked(a, b) ==> ids.dom().contains(a) && ids.dom().contains(b) && ids[a] == ids[b]
    &&& m.edges.len() + live(lists) == count
}

/// A link between two trees of a forest makes one tree of them.
pub proof fn lemma_merged_forest(
    m: Maze,
    ids: Map<Node, usize>,
    lists: Seq<Seq<Node>>,
    count: nat,
    l: Node,
    r: Node,
)
    requires
        m.wf(),
        crate::sets::agree(ids, lists),
        is_forest(m, ids, lists, count),
        ids.dom().contains(l),
        ids.dom().contains(r),
        ids[l] != ids[r],
    ensures
        is_forest(
            m.connect(l, r),
            crate::sets::merged_ids(ids, ids[l], ids[r]),
            crate::sets::merged_lists(lists, ids[l], ids[r]),
            count,
        ),
{
    let post = m.connect(l, r);
    let after = crate::sets::merged_ids(ids, ids[l], ids[r]);
    let more = crate::sets::merged_lists(lists, ids[l], ids[r]);
    lemma_edge_key(l, r);
    assert(ids.dom().contains(l) && ids.dom().contains(r));
    lemma_agree_merged(ids, lists, ids[l], ids[r]);
    assert(lists[ids[l] as int].contains(l));
    assert(lists[ids[r] as int].contains(r));
    assert(!m.linked(l, r));
    assert forall|a: Node, b: Node|
        after.dom().contains(a) && after.dom().contains(b) && after[a] == after[b] implies #[trigger] post.joins(
        a,
        b,
    ) by {
        m.lemma_joins_reflexive(l);
        m.lemma_joins_reflexive(r);
        if ids[a] == ids[b] {
            assert(m.joins(a, b));
            m.lemma_joins_grows(post, a, b);
        } else if ids[a] == ids[r] {
            assert(m.joins(a, r));
            assert(m.joins(l, b));
            m.lemma_joins_grows(post, a, r);
            m.lemma_joins_grows(post, l, b);
            post.lemma_linked_symmetric(l, r);
            post.lemma_joins_step(a, r, l);
            post.lemma_joins_transitive(a, l, b);
        } else {
            assert(m.joins(a, l));
            assert(m.joins(r, b));
            m.lemma_joins_grows(post, a, l);
            m.lemma_joins_grows(post, r, b);
            post.lemma_joins_step(a, l, r);
            post.lemma_joins_transitive(a, r, b);
        }
    }
    assert forall|a: Node, b: Node| #[trigger] post.linked(a, b) implies after.dom().contains(a)
        && after.dom().contains(b) && after[a] == after[b] by {
        if m.linked(a, b) {
            m.lemma_linked_cells(a, b);
        } else {
            lemma_edge_key_eq(a, b, l, r);
        }
    }
}

/// Along a walk in a forest every cell is in the set of the first.
pub proof fn lemma_walk_one_set(
    m: Maze,
    ids: Map<Node, usize>,
    lists: Seq<Seq<Node>>,
    count: nat,
    p: Seq<Node>,
    i: int,
)
    requires
        is_forest(m, ids, lists, count),
        m.is_walk(p),
        0 <= i < p.len(),
    ensures
        ids[p[i]] == ids[p[0]],
    decreases i,
{
    if i > 0 {
        lemma_walk_one_set(m, ids, lists, count, p, i - 1);
        assert(m.linked(p[i - 1], p[i - 1 + 1]));
    }
}

/// A forest in which a walk leads from every cell to every other is one
/// tree: it has one link fewer than cells.
pub proof fn lemma_forest_connected(m: Maze, ids: Map<Node, usize>, lists: Seq<Seq<Node>>)
    requires
        m.wf(),
        crate::sets::agree(ids, lists),
        is_forest(m, ids, lists, m.cells.len()),
        forall|c: Node| #[trigger] m.has_cell(c) ==> ids.dom().contains(c),
        m.cells.len() > 0,
        forall|a: Node, b: Node| m.has_cell(a) && m.has_cell(b) ==> #[trigger] m.joins(a, b),
    ensures
        m.edges.len() + 1 == m.cells.len(),
        m.is_perfect(),
{
    let root = m.cells[0];
    assert(m.has_cell(root));
    let s0 = ids[root] as int;
    assert(ids.dom().contains(root));
    assert(lists[s0].contains(root));
    assert forall|j: int| 0 <= j < lists.len() && j != s0 implies (#[trigger] lists[j]).len() == 0 by {
        if lists[j].len() > 0 {
            let c = lists[j][0];
            assert(ids.dom().contains(c) && ids[c] == j);
            assert(m.joins(root, c));
            let p = choose|p: Seq<Node>| #[trigger] m.is_walk(p) && p.first() == root && p.last() == c;
            lemma_walk_one_set(m, ids, lists, m.cells.len(), p, p.len() - 1);
        }
    }
    lemma_live_one(lists, s0);
}

/// A forest that holds every cell of the maze, all in one set, is a perfect
/// maze.
pub proof fn lemma_forest_one_set(m: Maze, ids: Map<Node, usize>, lists: Seq<Seq<Node>>, s0: usize)
    requires
        m.wf(),
        crate::sets::agree(ids, lists),
        is_forest(m, ids, lists, m.cells.len()),
        m.cells.len() > 0,
        forall|c: Node| #[trigger] m.has_cell(c) ==> ids.dom().contains(c) && ids[c] == s0,
    ensures
        m.is_perfect(),
{
    let root = m.cells[0];
    assert(m.has_cell(root));
    assert(ids.dom().contains(root) && ids[root] == s0);
    assert(lists[s0 as int].contains(root));
    assert forall|j: int| 0 <= j < lists.len() && j != s0 implies (#[trigger] lists[j]).len() == 0 by {
        if lists[j].len() > 0 {
            let c = lists[j][0];
            assert(ids.dom().contains(c) && ids[c] == j);
            assert(m.has_cell(c));
            assert(ids[c] == s0);
        }
    }
    lemma_live_one(lists, s0 as int);
    assert forall|a: Node, b: Node| m.has_cell(a) && m.has_cell(b) implies #[trigger] m.joins(a, b) by {
        assert(ids.dom().contains(a) && ids.dom().contains(b));
        assert(ids[a] == s0 && ids[b] == s0);
    }
}

/// What is in a list of pairs is in every list that holds the same pairs as
/// often.
pub proof fn lemma_has_pair_shuffled<C: CellKind>(before: Seq<(C, C)>, after: Seq<(C, C)>, a: Node, b: Node)
    requires
        before.to_multiset() == after.to_multiset(),
        has_pair(before, a, b),
    ensures
        has_pair(after, a, b),
{
    let k = choose|k: int|
        0 <= k < before.len() && (#[trigger] before[k]).0.node() == a && before[k].1.node() == b;
    assert(before.contains(before[k]));
    vstd::seq_lib::to_multiset_contains(before, before[k]);
    vstd::seq_lib::to_multiset_contains(after, before[k]);
    let j = choose|j: int| 0 <= j < after.len() && after[j] == before[k];
    assert(after[j].0.node() == a && after[j].1.node() == b);
}

impl<K: Kind> State<K> {
    /// Whether every pair of a cell of `origin` and a cell adjacent to it is
    /// still to be looked at, or is a pair of cells in one set.
    pub open spec fn pending(&self, origin: Grid<K>) -> bool {
        forall|a: Node, i: int|
            origin@.has_cell(a) && 0 <= i < origin.kind().adjacent(origin@, a).len() ==> has_pair(
                self.pairs(),
                a,
                #[trigger] origin.kind().adjacent(origin@, a)[i],
            ) || (self.sets().together(a, origin.kind().adjacent(origin@, a)[i])
                && self.sets().has(origin.kind().adjacent(origin@, a)[i]))
    }

    /// Looks at the last pair that is still to be looked at: its cells are
    /// merged if they are in different sets.
    pub(crate) fn step(&mut self, Ghost(origin): Ghost<Grid<K>>)
        requires
            old(self).wf(),
            old(self).pairs().len() > 0,
            origin.wf(),
            old(self).grid().kind() == origin.kind(),
            old(self).grid().marks() == origin.marks(),
            old(self).grid()@.extends(origin@),
            forall|c: Node| origin@.has_cell(c) ==> #[trigger] old(self).sets().has(c),
            forall|k: int|
                0 <= k < old(self).pairs().len() ==> origin@.has_cell(
                    (#[trigger] old(self).pairs()[k]).0.node(),
                ) && origin@.has_cell(old(self).pairs()[k].1.node()),
            origin.kind().flat() ==> old(self).forest(),
            origin.kind().flat() ==> old(self).grid()@.cells == origin@.cells,
        ensures
            final(self).wf(),
            final(self).pairs() == old(self).pairs().drop_last(),
            final(self).grid()@ == old(self).grid()@ || final(self).grid()@ == origin.kind().linking(
                old(self).grid()@,
                old(self).pairs().last().0.node(),
                old(self).pairs().last().1.node(),
            ),
            final(self).grid().kind() == origin.kind(),
            final(self).grid().marks() == origin.marks(),
            final(self).grid()@.extends(origin@),
            forall|c: Node| origin@.has_cell(c) ==> #[trigger] final(self).sets().has(c),
            origin.kind().flat() ==> final(self).forest(),
            old(self).pending(origin) ==> final(self).pending(origin),
            origin.kind().flat() ==> final(self).grid()@.cells == origin@.cells,
            final(self).sets().together(
                old(self).pairs().last().0.node(),
                old(self).pairs().last().1.node(),
            ),
            forall|a: Node, b: Node|
                old(self).sets().has(a) && old(self).sets().has(b) && old(self).sets().together(a, b)
                    ==> #[trigger] final(self).sets().together(a, b),
            forall|c: Node| old(self).sets().has(c) ==> #[trigger] final(self).sets().has(c),
            old(self).knit() ==> final(self).knit(),
            old(self).pairs_near() ==> final(self).pairs_near(),
            old(self).bound() && (final(self).grid()@ == old(self).grid()@ || final(self).grid()@
                == old(self).grid()@.connect(
                old(self).pairs().last().0.node(),
                old(self).pairs().last().1.node(),
            )) ==> final(self).bound(),
            old(self).bound() && (final(self).grid()@ == old(self).grid()@ || final(self).grid()@
                == old(self).grid()@.connect(
                old(self).pairs().last().0.node(),
                old(self).pairs().last().1.node(),
            )) ==> final(self).spare() == old(self).spare(),
            old(self).pairs_near() && old(self).grid().grown_near(origin@)
                ==> final(self).grid().grown_near(origin@),
    {
        let ghost pre = *self;
        let pair = self.neighbours.pop().unwrap();
        let left = pair.0;
        let right = pair.1;
        proof {
            assert(pre.pairs()[pre.pairs().len() - 1] == pair);
            assert(origin@.has_cell(left.node()) && origin@.has_cell(right.node()));
            assert(pre.sets().has(left.node()) && pre.sets().has(right.node()));
            pre.grid()@.lemma_extends_cell(origin@, left.node());
            pre.grid()@.lemma_extends_cell(origin@, right.node());
        }
        let ghost mid = *self;
        if self.can_merge(left, right) {
            self.merge(left, right);
            proof {
                crate::model::lemma_joined_extends(
                    mid.grid()@,
                    left.node(),
                    right.node(),
                    self.grid()@,
                );
                if pre.bound() {
                    let l = left.node();
                    let r = right.node();
                    assert(!mid.grid()@.linked(l, r));
                    if self.grid()@ == mid.grid()@.connect(l, r) {
                        assert(self.grid()@.edges.len() == mid.grid()@.edges.len() + 1);
                    } else if self.grid()@ == mid.grid()@ {
                        if exists|u: Node| #[trigger]
                            crate::model::tunnelled(mid.grid()@, l, u, r, self.grid()@) {
                            let u = choose|u: Node| #[trigger]
                                crate::model::tunnelled(mid.grid()@, l, u, r, self.grid()@);
                            assert(self.grid()@.cells.len() == mid.grid()@.cells.len() + 1);
                        }
                    }
                }
                if pre.pairs_near() {
                    mid.grid().kind().lemma_near(mid.grid()@, left.node(), right.node());
                    if pre.grid().grown_near(origin@) {
                        mid.grid().lemma_grown_near(
                            &self.grid(),
                            origin@,
                            left.node(),
                            right.node(),
                        );
                    }
                }
            }
        }
        proof {
            if pre.pairs_near() {
                assert forall|k: int| 0 <= k < self.pairs().len() implies self.grid().kind().near(
                    self.grid()@.cells,
                    (#[trigger] self.pairs()[k]).0.node(),
                    self.pairs()[k].1.node(),
                ) by {
                    assert(self.pairs()[k] == pre.pairs()[k]);
                }
            }
        }
        proof {
            assert(self.sets().together(left.node(), right.node()));
            if pre.pending(origin) {
                assert forall|a: Node, i: int|
                    origin@.has_cell(a) && 0 <= i < origin.kind().adjacent(
                        origin@,
                        a,
                    ).len() implies has_pair(
                    self.pairs(),
                    a,
                    #[trigger] origin.kind().adjacent(origin@, a)[i],
                ) || (self.sets().together(a, origin.kind().adjacent(origin@, a)[i])
                    && self.sets().has(origin.kind().adjacent(origin@, a)[i])) by {
                    let b = origin.kind().adjacent(origin@, a)[i];
                    if has_pair(pre.pairs(), a, b) {
                        let k = choose|k: int|
                            0 <= k < pre.pairs().len() && (#[trigger] pre.pairs()[k]).0.node() == a
                                && pre.pairs()[k].1.node() == b;
                        if k < pre.pairs().len() - 1 {
                            assert(self.pairs()[k] == pre.pairs()[k]);
                        }
                    } else {
                        assert(pre.sets().together(a, b) && pre.sets().has(b));
                        assert(pre.sets().has(a));
                        assert(self.sets().together(a, b));
                    }
                }
            }
        }
    }
}

impl<K: Kind> Grid<K> {
    /// Whether a walk along links leads from every cell to every cell adjacent
    /// to it.
    pub open spec fn neighbours_joined(&self) -> bool {
        forall|a: Node, i: int|
            self@.has_cell(a) && 0 <= i < self.kind().adjacent(self@, a).len() ==> self@.joins(
                a,
                #[trigger] self.kind().adjacent(self@, a)[i],
            )
    }

    /// Looks at every pair of adjacent cells, in random order, and links the
    /// two if no walk along links leads from one to the other yet.
    ///
    /// Afterwards every link joins two cells that lie near each other, and
    /// a walk leads from every cell to each of the cells that were adjacent
    /// to it at first. In a flat topology the cells are the
    /// same afterwards, the links form a forest (no link joins two cells
    /// that a walk joined already; see [`is_forest`]), every two adjacent
    /// cells are joined by a walk, and the maze is perfect if every two
    /// cells are: so it is where adjacent cells of the grid are adjacent
    /// to each other and a walk from cell to adjacent cell leads from
    /// every cell to every other.
    pub fn kruskals(self) -> (maze: Self)
        requires
            self.wf(),
            self@.edges =~= Set::<(Node, Node)>::empty(),
        ensures
            maze.wf(),
            maze.kind() == self.kind(),
            maze.marks() == self.marks(),
            maze@.extends(self@),
            maze.grown_near(self@),
            forall|a: Node, i: int|
                self@.has_cell(a) && 0 <= i < self.kind().adjacent(self@, a).len() ==> maze@.joins(
                    a,
                    #[trigger] self.kind().adjacent(self@, a)[i],
                ),
            self.kind().flat() ==> exists|ids: Map<Node, usize>, lists: Seq<Seq<Node>>| #[trigger]
                is_forest(maze@, ids, lists, maze@.cells.len()) && crate::sets::agree(ids, lists),
            self.kind().flat() && self.evenly_adjacent() && self.all_reachable() && self@.cells.len() > 0
                ==> maze@.is_perfect(),
            self.kind().flat() ==> maze@.cells == self@.cells && maze.neighbours_joined() && ((
            forall|a: Node, b: Node| maze@.has_cell(a) && maze@.has_cell(b) ==> #[trigger] maze@.joins(a, b))
                && maze@.cells.len() > 0 ==> maze@.is_perfect()),
    {
        let mut state = State::new(self);
        let ghost fresh = state;
        let ghost listed = state.neighbours@;
        shuffle(&mut state.neighbours);
        proof {
            assert forall|k: int| 0 <= k < state.pairs().len() implies self@.has_cell(
                (#[trigger] state.pairs()[k]).0.node(),
            ) && self@.has_cell(state.pairs()[k].1.node()) by {
                let e = state.pairs()[k];
                assert(state.pairs().contains(e));
                vstd::seq_lib::to_multiset_contains(state.pairs(), e);
                vstd::seq_lib::to_multiset_contains(listed, e);
                let j = choose|j: int| 0 <= j < listed.len() && listed[j] == e;
                assert(fresh.pairs()[j] == e);
            }
            assert forall|a: Node, i: int|
                self@.has_cell(a) && 0 <= i < self.kind().adjacent(self@, a).len() implies has_pair(
                state.pairs(),
                a,
                #[trigger] self.kind().adjacent(self@, a)[i],
            ) by {
                lemma_has_pair_shuffled(listed, state.pairs(), a, self.kind().adjacent(self@, a)[i]);
            }
            assert forall|k: int| 0 <= k < state.pairs().len() implies self.kind().near(
                self@.cells,
                (#[trigger] state.pairs()[k]).0.node(),
                state.pairs()[k].1.node(),
            ) by {
                let e = state.pairs()[k];
                assert(state.pairs().contains(e));
                vstd::seq_lib::to_multiset_contains(state.pairs(), e);
                vstd::seq_lib::to_multiset_contains(listed, e);
                let j = choose|j: int| 0 <= j < listed.len() && listed[j] == e;
                assert(fresh.pairs()[j] == e);
                self.kind().lemma_near(self@, e.0.node(), e.1.node());
            }
        }
        while state.neighbours.len() > 0
            invariant
                self.wf(),
                state.wf(),
                state.grid().kind() == self.kind(),
                state.grid().marks() == self.marks(),
                state.grid()@.extends(self@),
                forall|c: Node| self@.has_cell(c) ==> #[trigger] state.sets().has(c),
                forall|k: int|
                    0 <= k < state.pairs().len() ==> self@.has_cell(
                        (#[trigger] state.pairs()[k]).0.node(),
                    ) && self@.has_cell(state.pairs()[k].1.node()),
                state.knit(),
                state.pending(self),
                state.pairs_near(),
                state.grid().grown_near(self@),
                self.kind().flat() ==> state.forest() && state.grid()@.cells == self@.cells,
            decreases state.neighbours.len(),
        {
            state.step(Ghost(self));
        }
        let maze = state.grid;
        proof {
            assert forall|a: Node, i: int|
                self@.has_cell(a) && 0 <= i < self.kind().adjacent(self@, a).len() implies maze@.joins(
                a,
                #[trigger] self.kind().adjacent(self@, a)[i],
            ) by {
                let b = self.kind().adjacent(self@, a)[i];
                assert(!has_pair(state.pairs(), a, b));
                assert(state.sets().together(a, b) && state.sets().has(b));
                assert(state.sets().has(a));
            }
            if self.kind().flat() {
                let ids = state.sets().ids();
                assert(is_forest(maze@, ids, state.sets().lists(), maze@.cells.len())
                    && crate::sets::agree(ids, state.sets().lists()));
                assert forall|a: Node, i: int|
                    maze@.has_cell(a) && 0 <= i < maze.kind().adjacent(maze@, a).len() implies maze@.joins(
                    a,
                    #[trigger] maze.kind().adjacent(maze@, a)[i],
                ) by {
                    self.kind().lemma_flat(self@, maze@, a);
                    let b = self.kind().adjacent(self@, a)[i];
                    assert(!has_pair(state.pairs(), a, b));
                    assert(state.sets().together(a, b) && state.sets().has(b));
                    assert(state.grid()@.has_cell(a));
                    assert(ids.dom().contains(a) && ids.dom().contains(b));
                }
                if self.evenly_adjacent() && self.all_reachable() {
                    assert forall|a: Node, i: int|
                        maze@.has_cell(a) && 0 <= i < maze.kind().adjacent(maze@, a).len() implies {
                        let b = #[trigger] maze.kind().adjacent(maze@, a)[i];
                        maze@.has_cell(b) && maze.kind().adjacent(maze@, b).contains(a)
                    } by {
                        let b = maze.kind().adjacent(maze@, a)[i];
                        self.kind().lemma_flat(self@, maze@, a);
                        self.kind().lemma_flat(self@, maze@, b);
                        assert(self@.has_cell(self.kind().adjacent(self@, a)[i]));
                    }
                    assert forall|a: Node, b: Node| maze@.has_cell(a) && maze@.has_cell(b) implies #[trigger] maze.reaches(
                        a,
                        b,
                    ) by {
                        assert(self.reaches(a, b));
                        let p = choose|p: Seq<Node>| #[trigger]
                            self.is_route(p) && p.first() == a && p.last() == b;
                        assert forall|k: int| 0 <= k < p.len() - 1 implies maze.steady(
                            #[trigger] p[k],
                        ).contains(p[k + 1]) by {
                            assert(self.steady(p[k]).contains(p[k + 1]));
                        }
                        assert(maze.is_route(p));
                    }
                    maze.lemma_all_joined();
                }
                if (forall|a: Node, b: Node|
                    maze@.has_cell(a) && maze@.has_cell(b) ==> #[trigger] maze@.joins(a, b))
                    && maze@.cells.len() > 0 {
                    lemma_forest_connected(maze@, ids, state.sets().lists());
                }
            }
        }
        maze
    }
}

/// No surface cell lies between a cell and itself, nor between two cells
/// side by side, nor between a surface cell and a tunnel cell next to it
/// or beneath it.
pub proof fn lemma_between_near(m: Maze, a: Node, b: Node)
    requires
        -1 <= a.0 - b.0 <= 1,
        -1 <= a.1 - b.1 <= 1,
    ensures
        between(m, a, b) is None,
{
}

/// The maze after a crossing at `cell`: a passage on the surface from `w`
/// through `cell` to `e`, and a tunnel beneath `cell` from `n` to `s`.
pub open spec fn crossed(m: Maze, cell: Node, w: Node, e: Node, n: Node, s: Node) -> Maze {
    dug(m.connect(w, cell).connect(cell, e), n, under(cell), s).connect(n, under(cell)).connect(
        under(cell),
        s,
    )
}

/// The tunnel invariant: after a crossing at a cell that had no links and no
/// tunnel beneath it, the cell has exactly the two links of the passage on
/// the surface, and the tunnel cell has exactly the two links of the
/// tunnel.
pub proof fn lemma_crossed(m: Maze, cell: Node, w: Node, e: Node, n: Node, s: Node)
    requires
        m.wf(),
        cell.2 == 0 && w.2 == 0 && e.2 == 0 && n.2 == 0 && s.2 == 0,
        m.unlinked(cell),
        !m.has_cell(under(cell)),
        w != cell && e != cell && n != cell && s != cell,
    ensures
        crossed(m, cell, w, e, n, s).links_of(cell) =~= set![w, e],
        crossed(m, cell, w, e, n, s).links_of(under(cell)) =~= set![n, s],
{
    let u = under(cell);
    let post = crossed(m, cell, w, e, n, s);
    lemma_edge_key(w, cell);
    lemma_edge_key(cell, e);
    lemma_edge_key(n, u);
    lemma_edge_key(u, s);
    assert forall|y: Node| post.links_of(cell).contains(y) <==> set![w, e].contains(y) by {
        lemma_edge_key(cell, y);
        if post.linked(cell, y) {
            assert(!m.linked(cell, y));
            if edge_key(cell, y) == edge_key(w, cell) {
                lemma_edge_key_eq(cell, y, w, cell);
            } else if edge_key(cell, y) == edge_key(cell, e) {
                lemma_edge_key_eq(cell, y, cell, e);
            } else if edge_key(cell, y) == edge_key(n, u) {
                lemma_edge_key_eq(cell, y, n, u);
            } else {
                lemma_edge_key_eq(cell, y, u, s);
            }
        }
    }
    assert forall|y: Node| post.links_of(u).contains(y) <==> set![n, s].contains(y) by {
        lemma_edge_key(u, y);
        if post.linked(u, y) {
            if m.linked(u, y) {
                m.lemma_linked_cells(u, y);
            }
            if edge_key(u, y) == edge_key(w, cell) {
                lemma_edge_key_eq(u, y, w, cell);
            } else if edge_key(u, y) == edge_key(cell, e) {
                lemma_edge_key_eq(u, y, cell, e);
            } else if edge_key(u, y) == edge_key(n, u) {
                lemma_edge_key_eq(u, y, n, u);
            } else {
                lemma_edge_key_eq(u, y, u, s);
            }
        }
    }
}

/// A crossing at a cell that had no links and no tunnel beneath it brings
/// one cell and four links.
pub proof fn lemma_crossed_count(m: Maze, cell: Node, w: Node, e: Node, n: Node, s: Node)
    requires
        m.wf(),
        cell.2 == 0 && w.2 == 0 && e.2 == 0 && n.2 == 0 && s.2 == 0,
        m.unlinked(cell),
        !m.has_cell(under(cell)),
        w != cell && e != cell && n != cell && s != cell,
        w != e && n != s,
    ensures
        crossed(m, cell, w, e, n, s).cells == m.cells.push(under(cell)),
        crossed(m, cell, w, e, n, s).edges.len() == m.edges.len() + 4,
{
    let u = under(cell);
    lemma_edge_key(w, cell);
    lemma_edge_key(cell, e);
    lemma_edge_key(n, u);
    lemma_edge_key(u, s);
    let k1 = edge_key(w, cell);
    let k2 = edge_key(cell, e);
    let k3 = edge_key(n, u);
    let k4 = edge_key(u, s);
    assert(!m.linked(cell, w) && !m.linked(cell, e));
    m.lemma_linked_symmetric(w, cell);
    if m.edges.contains(k3) {
        m.lemma_linked_cells(n, u);
    }
    if m.edges.contains(k4) {
        m.lemma_linked_cells(u, s);
    }
    if k1 == k2 {
        lemma_edge_key_eq(w, cell, cell, e);
    }
    if k3 == k4 {
        lemma_edge_key_eq(n, u, u, s);
    }
    if k1 == k3 {
        lemma_edge_key_eq(w, cell, n, u);
    }
    if k1 == k4 {
        lemma_edge_key_eq(w, cell, u, s);
    }
    if k2 == k3 {
        lemma_edge_key_eq(cell, e, n, u);
    }
    if k2 == k4 {
        lemma_edge_key_eq(cell, e, u, s);
    }
    let e1 = m.edges.insert(k1);
    let e2 = e1.insert(k2);
    let e3 = e2.insert(k3);
    let e4 = e3.insert(k4);
    assert(crossed(m, cell, w, e, n, s).edges =~= e4);
}

/// The pairs of a list that do not hold a cell, in the order of the list.
pub fn pairs_without<C: CellKind>(pairs: &Vec<(C, C)>, cell: Node) -> (kept: Vec<(C, C)>)
    ensures
        forall|k: int|
            0 <= k < kept.len() ==> (#[trigger] kept[k]).0.node() != cell && kept[k].1.node() != cell
                && pairs@.contains(kept[k]),
        forall|k: int|
            0 <= k < pairs.len() && (#[trigger] pairs[k]).0.node() != cell && pairs[k].1.node() != cell
                ==> kept@.contains(pairs[k]),
{
    let mut kept: Vec<(C, C)> = Vec::new();
    let mut i: usize = 0;
    while i < pairs.len()
        invariant
            i <= pairs.len(),
            forall|k: int|
                0 <= k < kept.len() ==> (#[trigger] kept[k]).0.node() != cell && kept[k].1.node()
                    != cell && pairs@.contains(kept[k]),
            forall|k: int|
                0 <= k < i && (#[trigger] pairs[k]).0.node() != cell && pairs[k].1.node() != cell
                    ==> kept@.contains(pairs[k]),
        decreases pairs.len() - i,
    {
        let pair = pairs[i];
        let l = pair.0.to_node();
        let r = pair.1.to_node();
        let ghost before = kept@;
        if !(l.0 == cell.0 && l.1 == cell.1 && l.2 == cell.2) && !(r.0 == cell.0 && r.1 == cell.1
            && r.2 == cell.2) {
            kept.push(pair);
            proof {
                assert(pairs@.contains(pairs[i as int]));
                assert(kept@[before.len() as int] == pair);
                assert forall|k: int|
                    0 <= k < i && (#[trigger] pairs[k]).0.node() != cell && pairs[k].1.node()
                        != cell implies kept@.contains(pairs[k]) by {
                    let j = choose|j: int| 0 <= j < before.len() && before[j] == pairs[k];
                    assert(kept@[j] == pairs[k]);
                }
            }
        }
        i += 1;
    }
    kept
}

/// Whether the links of `c` are those to `a` and to `b`.
pub open spec fn pair_of(m: Maze, c: Node, a: Node, b: Node) -> bool {
    m.links_of(c) =~= set![a, b]
}

/// Whether a crossing at the surface cell `x` is as it was made: the cell
/// is a straight passage, linked to the cells west and east of it and to no
/// other, and the tunnel cell beneath it is linked to the cells north and
/// south of it and to no other; or the passage runs from north to south and
/// the tunnel from west to east.
pub open spec fn crossing_ok(m: Maze, x: Node) -> bool {
    let n = place(x.0 - 1, x.1 as int);
    let s = place(x.0 + 1, x.1 as int);
    let w = place(x.0 as int, x.1 - 1);
    let e = place(x.0 as int, x.1 + 1);
    ||| pair_of(m, x, w, e) && pair_of(m, under(x), n, s)
    ||| pair_of(m, x, n, s) && pair_of(m, under(x), w, e)
}

/// The cells north, south, west and east of a crossing have links.
pub proof fn lemma_crossing_around(m: Maze, x: Node)
    requires
        crossing_ok(m, x),
    ensures
        !m.unlinked(place(x.0 - 1, x.1 as int)),
        !m.unlinked(place(x.0 + 1, x.1 as int)),
        !m.unlinked(place(x.0 as int, x.1 - 1)),
        !m.unlinked(place(x.0 as int, x.1 + 1)),
{
    let n = place(x.0 - 1, x.1 as int);
    let s = place(x.0 + 1, x.1 as int);
    let w = place(x.0 as int, x.1 - 1);
    let e = place(x.0 as int, x.1 + 1);
    let u = under(x);
    if pair_of(m, x, w, e) {
        assert(m.links_of(x).contains(w) && m.links_of(x).contains(e));
        assert(m.links_of(u).contains(n) && m.links_of(u).contains(s));
        m.lemma_linked_symmetric(x, w);
        m.lemma_linked_symmetric(x, e);
        m.lemma_linked_symmetric(u, n);
        m.lemma_linked_symmetric(u, s);
    } else {
        assert(m.links_of(x).contains(n) && m.links_of(x).contains(s));
        assert(m.links_of(u).contains(w) && m.links_of(u).contains(e));
        m.lemma_linked_symmetric(x, n);
        m.lemma_linked_symmetric(x, s);
        m.lemma_linked_symmetric(u, w);
        m.lemma_linked_symmetric(u, e);
    }
}

/// A link between two other cells leaves a crossing as it was made.
pub proof fn lemma_crossing_kept(m: Maze, x: Node, p: Node, q: Node)
    requires
        crossing_ok(m, x),
        p != x && q != x && p != under(x) && q != under(x),
    ensures
        crossing_ok(m.connect(p, q), x),
{
    let post = m.connect(p, q);
    lemma_edge_key(p, q);
    assert forall|c: Node, y: Node| c != p && c != q implies post.linked(c, y) == m.linked(c, y) by {
        if edge_key(c, y) == edge_key(p, q) {
            lemma_edge_key_eq(c, y, p, q);
        }
    }
    assert(post.links_of(x) =~= m.links_of(x));
    assert(post.links_of(under(x)) =~= m.links_of(under(x)));
}

/// A new cell leaves a crossing as it was made.
pub proof fn lemma_crossing_kept_cell(m: Maze, x: Node, u: Node)
    requires
        crossing_ok(m, x),
    ensures
        crossing_ok(m.with_cell(u), x),
{
    let post = m.with_cell(u);
    assert(post.links_of(x) =~= m.links_of(x));
    assert(post.links_of(under(x)) =~= m.links_of(under(x)));
}

/// A crossing at another cell leaves a crossing as it was made.
pub proof fn lemma_crossing_kept_crossed(
    m: Maze,
    x: Node,
    cell: Node,
    a: Node,
    b: Node,
    c: Node,
    d: Node,
)
    requires
        crossing_ok(m, x),
        x.2 == 0 && cell.2 == 0 && a.2 == 0 && b.2 == 0 && c.2 == 0 && d.2 == 0,
        cell != x && a != x && b != x && c != x && d != x,
    ensures
        crossing_ok(crossed(m, cell, a, b, c, d), x),
{
    let u = under(cell);
    let m1 = m.connect(a, cell);
    lemma_crossing_kept(m, x, a, cell);
    let m2 = m1.connect(cell, b);
    lemma_crossing_kept(m1, x, cell, b);
    let m3 = m2.with_cell(u);
    lemma_crossing_kept_cell(m2, x, u);
    let m4 = m3.connect(c, u);
    lemma_crossing_kept(m3, x, c, u);
    let m5 = m4.connect(u, d);
    lemma_crossing_kept(m4, x, u, d);
    let m6 = m5.connect(c, u);
    lemma_crossing_kept(m5, x, c, u);
    lemma_crossing_kept(m6, x, u, d);
}

/// A surface cell of a maze with one tunnel cell more was a cell before.
pub proof fn lemma_crossed_cells(post: Maze, m: Maze, u: Node, c: Node)
    requires
        post.cells == m.cells.push(u),
        u.2 == 1,
        c.2 == 0,
        post.has_cell(c),
    ensures
        m.has_cell(c),
{
    let i = choose|i: int| 0 <= i < post.cells.len() && post.cells[i] == c;
    assert(m.cells[i] == c);
}

/// Of two cells of which one is a compass neighbour of the other, both lie
/// on the surface, side by side.
pub proof fn lemma_compass_beside(m: Maze, a: Node, b: Node)
    requires
        a.2 == 0,
        crate::rect::compass(m, a.0 as int, a.1 as int).contains(b),
    ensures
        crate::generators::recursive_division::beside(a, b),
{
    let found = seq![
        surface(m, a.0 - 1, a.1 as int),
        surface(m, a.0 + 1, a.1 as int),
        surface(m, a.0 as int, a.1 - 1),
        surface(m, a.0 as int, a.1 + 1),
    ];
    crate::rect::lemma_present_contains(found, b);
    let j = choose|j: int| 0 <= j < found.len() && found[j] == Some(b);
}

impl State<Weave> {
    /// Whether no pair that is still to be looked at holds a cell.
    pub open spec fn spared(&self, x: Node) -> bool {
        forall|k: int|
            0 <= k < self.pairs().len() ==> (#[trigger] self.pairs()[k]).0.node() != x
                && self.pairs()[k].1.node() != x
    }

    /// Whether every crossing is as it was made (see [`crossing_ok`]), no
    /// pair that is still to be looked at holds a cell with a tunnel
    /// beneath it, and every such pair is a pair of surface cells side by
    /// side.
    pub open spec fn tunnels_ok(&self) -> bool {
        let m = self.grid()@;
        &&& forall|x: Node|
            x.2 == 0 && #[trigger] m.has_cell(under(x)) ==> crossing_ok(m, x) && self.spared(x)
        &&& forall|k: int|
            0 <= k < self.pairs().len() ==> crate::generators::recursive_division::beside(
                (#[trigger] self.pairs()[k]).0.node(),
                self.pairs()[k].1.node(),
            )
    }

    /// Whether every pair of surface cells side by side is still to be
    /// looked at, or is a pair of cells in one set, or holds a cell with a
    /// tunnel beneath it.
    pub open spec fn looked(&self) -> bool {
        let m = self.grid()@;
        forall|a: Node, b: Node|
            m.has_cell(a) && m.has_cell(b) && #[trigger] crate::generators::recursive_division::beside(
                a,
                b,
            ) ==> has_pair(self.pairs(), a, b) || (self.sets().has(a) && self.sets().has(b)
                && self.sets().together(a, b)) || m.has_cell(under(a)) || m.has_cell(under(b))
    }

    /// Whether every cell of the grid is in a set.
    pub open spec fn covered(&self) -> bool {
        forall|c: Node| self.grid()@.has_cell(c) ==> #[trigger] self.sets().has(c)
    }

    /// Whether a crossing can be made at a place: there is a surface cell to
    /// the east, west, north and south of it, the cell at the place has no
    /// links and no tunnel beneath it, and the cells east, west, north and
    /// south of it are in four different sets: then no link of the crossing
    /// joins two cells that a walk joins already.
    pub open spec fn crossable(&self, row: int, col: int) -> bool {
        let m = self.grid()@;
        let ids = self.sets().ids();
        &&& surface(m, row, col + 1) is Some
        &&& surface(m, row, col - 1) is Some
        &&& surface(m, row - 1, col) is Some
        &&& surface(m, row + 1, col) is Some
        &&& m.unlinked((row as isize, col as isize, 0usize))
        &&& !m.has_cell((row as isize, col as isize, 1usize))
        &&& ids[surface(m, row, col + 1)->Some_0] != ids[surface(m, row, col - 1)->Some_0]
        &&& ids[surface(m, row - 1, col)->Some_0] != ids[surface(m, row + 1, col)->Some_0]
        &&& ids[surface(m, row, col + 1)->Some_0] != ids[surface(m, row - 1, col)->Some_0]
        &&& ids[surface(m, row, col + 1)->Some_0] != ids[surface(m, row + 1, col)->Some_0]
        &&& ids[surface(m, row, col - 1)->Some_0] != ids[surface(m, row - 1, col)->Some_0]
        &&& ids[surface(m, row, col - 1)->Some_0] != ids[surface(m, row + 1, col)->Some_0]
    }

    /// Whether a crossing can be made at a surface cell (see
    /// [`State::crossable`]).
    pub fn can_cross(&self, over: OverCell) -> (ok: bool)
        requires
            self.wf(),
            self.covered(),
        ensures
            ok == self.crossable(over.row as int, over.col as int),
    {
        let cell = WeaveCell::Over(over);
        let east = self.grid.east(cell);
        let west = self.grid.west(cell);
        let north = self.grid.north(cell);
        let south = self.grid.south(cell);
        match (east, west, north, south) {
            (Some(e), Some(w), Some(n), Some(s)) => {
                !self.grid.has_links(cell) && !crate::graph::graph_contains_node(
                    self.grid.graph(),
                    (over.row, over.col, 1),
                ) && self.can_merge(e, w) && self.can_merge(n, s) && self.can_merge(e, n)
                    && self.can_merge(e, s) && self.can_merge(w, n) && self.can_merge(w, s)
            },
            _ => false,
        }
    }

    /// Makes a crossing at a surface cell where one can be made: the cell
    /// becomes a passage from west to east with a tunnel from north to
    /// south beneath it, or, if not `along_row`, a passage from north to
    /// south with a tunnel from west to east beneath it. The sets of the
    /// cells that are linked are merged, the tunnel cell is in the set of
    /// the cells at its ends, and the pairs that hold the cell are looked
    /// at no more.
    pub fn cross(&mut self, over: OverCell, along_row: bool)
        requires
            old(self).wf(),
            old(self).covered(),
            old(self).crossable(over.row as int, over.col as int),
        ensures
            final(self).wf(),
            final(self).covered(),
            final(self).grid().kind() == old(self).grid().kind(),
            final(self).grid().marks() == old(self).grid().marks(),
            final(self).grid()@.extends(old(self).grid()@),
            ({
                let m = old(self).grid()@;
                let row = over.row as int;
                let col = over.col as int;
                let cell = WeaveCell::Over(over).node();
                let e = surface(m, row, col + 1)->Some_0;
                let w = surface(m, row, col - 1)->Some_0;
                let n = surface(m, row - 1, col)->Some_0;
                let s = surface(m, row + 1, col)->Some_0;
                let post = final(self).grid()@;
                if along_row {
                    &&& post == crossed(m, cell, w, e, n, s)
                    &&& post.links_of(cell) =~= set![w, e]
                    &&& post.links_of(under(cell)) =~= set![n, s]
                } else {
                    &&& post == crossed(m, cell, n, s, w, e)
                    &&& post.links_of(cell) =~= set![n, s]
                    &&& post.links_of(under(cell)) =~= set![w, e]
                }
            }),
            forall|k: int|
                0 <= k < final(self).pairs().len() ==> old(self).pairs().contains(
                    #[trigger] final(self).pairs()[k],
                ) && final(self).pairs()[k].0.node() != WeaveCell::Over(over).node()
                    && final(self).pairs()[k].1.node() != WeaveCell::Over(over).node(),
            forall|k: int|
                0 <= k < old(self).pairs().len() && (#[trigger] old(self).pairs()[k]).0.node()
                    != WeaveCell::Over(over).node() && old(self).pairs()[k].1.node()
                    != WeaveCell::Over(over).node() ==> final(self).pairs().contains(
                    old(self).pairs()[k],
                ),
            forall|a: Node, b: Node|
                old(self).sets().has(a) && old(self).sets().has(b) && old(self).sets().together(a, b)
                    ==> #[trigger] final(self).sets().together(a, b),
            forall|c: Node| old(self).sets().has(c) ==> #[trigger] final(self).sets().has(c),
            old(self).knit() ==> final(self).knit(),
            old(self).bound() ==> final(self).bound(),
            old(self).knit() ==> final(self).spare() == old(self).spare(),
    {
        let cell = WeaveCell::Over(over);
        let ghost m = self.grid()@;
        let ghost s0 = *self;
        let ghost rows = self.grid().kind().rows as nat;
        let ghost cols = self.grid().kind().cols as nat;
        let east = self.grid.east(cell).unwrap();
        let west = self.grid.west(cell).unwrap();
        let north = self.grid.north(cell).unwrap();
        let south = self.grid.south(cell).unwrap();
        proof {
            let row = over.row as int;
            let col = over.col as int;
            lemma_woven_surface(m, rows, cols, row, col);
            lemma_woven_surface(m, rows, cols, row, col + 1);
            lemma_woven_surface(m, rows, cols, row, col - 1);
            lemma_woven_surface(m, rows, cols, row - 1, col);
            lemma_woven_surface(m, rows, cols, row + 1, col);
        }
        self.neighbours = pairs_without(&self.neighbours, cell.to_node());
        let (a, b, c, d) = if along_row {
            (west, east, north, south)
        } else {
            (north, south, west, east)
        };
        proof {
            lemma_crossed(m, cell.node(), a.node(), b.node(), c.node(), d.node());
            lemma_between_near(m, a.node(), cell.node());
        }
        self.merge(a, cell);
        let ghost m1 = self.grid()@;
        let ghost s1 = *self;
        proof {
            assert(m1 == m.connect(a.node(), cell.node()));
            lemma_between_near(m1, cell.node(), b.node());
            m1.lemma_extends_cell(m, b.node());
            m1.lemma_extends_cell(m, cell.node());
        }
        self.merge(cell, b);
        let ghost m2 = self.grid()@;
        let ghost s2 = *self;
        proof {
            assert(m2 == m1.connect(cell.node(), b.node()));
            m2.lemma_extends_cell(m, c.node());
            m2.lemma_extends_cell(m, d.node());
            m2.lemma_extends_cell(m, cell.node());
        }
        let tunnel = self.grid.tunnel_under(c, over, d);
        let ghost m3 = self.grid()@;
        proof {
            assert(m3 == dug(m2, c.node(), under(cell.node()), d.node()));
            if s2.knit() {
                assert forall|x: Node, y: Node|
                    self.sets().has(x) && self.sets().has(y) && self.sets().together(
                        x,
                        y,
                    ) implies #[trigger] m3.joins(x, y) by {
                    m2.lemma_joins_grows(m3, x, y);
                }
            }
            assert(tunnel.node() == under(cell.node()));
            lemma_between_near(m3, c.node(), tunnel.node());
            assert(m3.cells == m2.cells.push(tunnel.node()));
            assert(m3.cells[m2.cells.len() as int] == tunnel.node());
            assert(m2.cells.is_prefix_of(m3.cells));
            m3.lemma_extends_cell(m2, c.node());
            m3.lemma_extends_cell(m2, d.node());
        }
        self.merge(c, tunnel);
        let ghost m4 = self.grid()@;
        let ghost s3 = *self;
        proof {
            assert(m4 == m3.connect(c.node(), tunnel.node()));
            lemma_between_near(m4, tunnel.node(), d.node());
        }
        self.merge(tunnel, d);
        proof {
            let m5 = self.grid()@;
            assert(m5 == m4.connect(tunnel.node(), d.node()));
            assert(m5 == crossed(m, cell.node(), a.node(), b.node(), c.node(), d.node()));
            assert forall|x: Node, y: Node|
                s0.sets().has(x) && s0.sets().has(y) && s0.sets().together(
                    x,
                    y,
                ) implies #[trigger] self.sets().together(x, y) by {
                assert(s1.sets().together(x, y));
                assert(s2.sets().together(x, y));
                assert(s3.sets().together(x, y));
            }
            assert forall|x: Node| s0.sets().has(x) implies #[trigger] self.sets().has(x) by {
                assert(s1.sets().has(x));
                assert(s2.sets().has(x));
                assert(s3.sets().has(x));
            }
            if s0.knit() {
                let x = cell.node();
                let u = tunnel.node();
                let ids0 = s0.sets().ids();
                assert(s0.sets().has(x) && s0.sets().has(a.node()) && s0.sets().has(b.node()));
                if ids0[a.node()] == ids0[x] {
                    m.lemma_joined_is_linked(a.node(), x);
                }
                if ids0[b.node()] == ids0[x] {
                    m.lemma_joined_is_linked(b.node(), x);
                }
                assert(ids0[a.node()] != ids0[b.node()]);
                assert(s1.alive() + 1 == s0.alive());
                assert(s1.sets().ids()[x] == ids0[a.node()]);
                assert(s1.sets().ids()[b.node()] == ids0[b.node()]);
                assert(s2.alive() + 1 == s1.alive());
                assert(s2.knit());
                assert(!m2.has_cell(u));
                assert(s3.alive() == s2.alive());
                assert(s0.sets().has(c.node()) && s0.sets().has(d.node()));
                if ids0[c.node()] == ids0[x] {
                    m.lemma_joined_is_linked(c.node(), x);
                }
                if ids0[d.node()] == ids0[x] {
                    m.lemma_joined_is_linked(d.node(), x);
                }
                assert(s1.sets().ids()[c.node()] == ids0[c.node()]);
                assert(s1.sets().ids()[d.node()] == ids0[d.node()]);
                assert(s2.sets().ids()[c.node()] == ids0[c.node()]);
                assert(s2.sets().ids()[d.node()] == ids0[d.node()]);
                assert(s3.sets().ids()[u] == ids0[c.node()]);
                assert(s3.sets().ids()[d.node()] == ids0[d.node()]);
                assert(self.alive() + 1 == s3.alive());
                lemma_crossed_count(m, x, a.node(), b.node(), c.node(), d.node());
            }
            if s0.bound() {
                assert(s1.bound());
                assert(s2.bound());
                let u = tunnel.node();
                lemma_edge_key(c.node(), u);
                lemma_edge_key(u, d.node());
                assert(s3.sets().together(c.node(), u));
                assert(self.sets().together(u, d.node()));
                assert forall|x: Node, y: Node| #[trigger] m5.linked(x, y) implies self.sets().has(x)
                    && self.sets().has(y) && self.sets().together(x, y) by {
                    if m2.linked(x, y) {
                        assert(s2.sets().has(x) && s2.sets().has(y) && s2.sets().together(x, y));
                        assert(s3.sets().has(x) && s3.sets().has(y) && s3.sets().together(x, y));
                    } else if edge_key(x, y) == edge_key(c.node(), u) {
                        lemma_edge_key_eq(x, y, c.node(), u);
                        assert(s3.sets().has(c.node()) && s3.sets().has(u));
                    } else {
                        lemma_edge_key_eq(x, y, u, d.node());
                        assert(s3.sets().has(u));
                    }
                }
            }
            assert forall|x: Node| m5.has_cell(x) implies #[trigger] self.sets().has(x) by {
                if !m.has_cell(x) {
                    let i = choose|i: int| 0 <= i < m3.cells.len() && m3.cells[i] == x;
                    if i < m2.cells.len() {
                        assert(m2.cells[i] == x);
                    }
                }
            }
        }
    }

    /// A crossing keeps the crossings that were made before as they were
    /// made, and is as it was made itself.
    pub proof fn lemma_crossing_made(&self, post: &Self, over: OverCell, along_row: bool)
        requires
            self.wf(),
            self.tunnels_ok(),
            self.crossable(over.row as int, over.col as int),
            ({
                let m = self.grid()@;
                let row = over.row as int;
                let col = over.col as int;
                let cell = WeaveCell::Over(over).node();
                let e = surface(m, row, col + 1)->Some_0;
                let w = surface(m, row, col - 1)->Some_0;
                let n = surface(m, row - 1, col)->Some_0;
                let s = surface(m, row + 1, col)->Some_0;
                if along_row {
                    &&& post.grid()@ == crossed(m, cell, w, e, n, s)
                    &&& post.grid()@.links_of(cell) =~= set![w, e]
                    &&& post.grid()@.links_of(under(cell)) =~= set![n, s]
                } else {
                    &&& post.grid()@ == crossed(m, cell, n, s, w, e)
                    &&& post.grid()@.links_of(cell) =~= set![n, s]
                    &&& post.grid()@.links_of(under(cell)) =~= set![w, e]
                }
            }),
            forall|k: int|
                0 <= k < post.pairs().len() ==> self.pairs().contains(#[trigger] post.pairs()[k])
                    && post.pairs()[k].0.node() != WeaveCell::Over(over).node()
                    && post.pairs()[k].1.node() != WeaveCell::Over(over).node(),
        ensures
            post.tunnels_ok(),
    {
        let m = self.grid()@;
        let after = post.grid()@;
        let row = over.row as int;
        let col = over.col as int;
        let cell = WeaveCell::Over(over).node();
        let u = under(cell);
        let e = surface(m, row, col + 1)->Some_0;
        let w = surface(m, row, col - 1)->Some_0;
        let n = surface(m, row - 1, col)->Some_0;
        let s = surface(m, row + 1, col)->Some_0;
        let (a, b, c, d) = if along_row {
            (w, e, n, s)
        } else {
            (n, s, w, e)
        };
        assert(after == crossed(m, cell, a, b, c, d));
        lemma_edge_key(a, cell);
        lemma_edge_key(cell, b);
        lemma_edge_key(c, u);
        lemma_edge_key(u, d);
        assert forall|k: int| 0 <= k < post.pairs().len() implies crate::generators::recursive_division::beside(
            (#[trigger] post.pairs()[k]).0.node(),
            post.pairs()[k].1.node(),
        ) by {
            let pair = post.pairs()[k];
            let j = choose|j: int| 0 <= j < self.pairs().len() && self.pairs()[j] == pair;
        }
        assert forall|x: Node| x.2 == 0 && #[trigger] after.has_cell(under(x)) implies crossing_ok(
            after,
            x,
        ) && post.spared(x) by {
            if x == cell {
                assert(pair_of(after, cell, a, b));
                assert(pair_of(after, u, c, d));
            } else {
                assert(m.has_cell(under(x))) by {
                    let i = choose|i: int| 0 <= i < after.cells.len() && after.cells[i] == under(x);
                    let m2 = m.connect(a, cell).connect(cell, b);
                    assert(after.cells == m2.with_cell(u).cells);
                    if i >= m.cells.len() {
                        assert(after.cells[i] == u);
                    } else {
                        assert(m.cells[i] == under(x));
                    }
                }
                assert(crossing_ok(m, x) && self.spared(x));
                assert(m.unlinked(cell));
                lemma_crossing_around(m, x);
                lemma_crossing_kept_crossed(m, x, cell, a, b, c, d);
                assert forall|k: int| 0 <= k < post.pairs().len() implies (
                #[trigger] post.pairs()[k]).0.node() != x && post.pairs()[k].1.node() != x by {
                    let pair = post.pairs()[k];
                    let j = choose|j: int| 0 <= j < self.pairs().len() && self.pairs()[j] == pair;
                }
            }
        }
    }

    /// After a crossing every pair of surface cells side by side is still
    /// to be looked at, in one set or at a crossing, if it was so before.
    pub proof fn lemma_crossing_looked(&self, post: &Self, over: OverCell, along_row: bool)
        requires
            self.wf(),
            self.looked(),
            self.crossable(over.row as int, over.col as int),
            post.grid()@.has_cell(under(WeaveCell::Over(over).node())),
            ({
                let m = self.grid()@;
                let row = over.row as int;
                let col = over.col as int;
                let cell = WeaveCell::Over(over).node();
                let e = surface(m, row, col + 1)->Some_0;
                let w = surface(m, row, col - 1)->Some_0;
                let n = surface(m, row - 1, col)->Some_0;
                let s = surface(m, row + 1, col)->Some_0;
                if along_row {
                    post.grid()@ == crossed(m, cell, w, e, n, s)
                } else {
                    post.grid()@ == crossed(m, cell, n, s, w, e)
                }
            }),
            forall|k: int|
                0 <= k < self.pairs().len() && (#[trigger] self.pairs()[k]).0.node()
                    != WeaveCell::Over(over).node() && self.pairs()[k].1.node() != WeaveCell::Over(
                    over,
                ).node() ==> post.pairs().contains(self.pairs()[k]),
            forall|a: Node, b: Node|
                self.sets().has(a) && self.sets().has(b) && self.sets().together(a, b)
                    ==> #[trigger] post.sets().together(a, b),
            forall|c: Node| self.sets().has(c) ==> #[trigger] post.sets().has(c),
        ensures
            post.looked(),
    {
        let m = self.grid()@;
        let after = post.grid()@;
        let cell = WeaveCell::Over(over).node();
        let u = under(cell);
        let row = over.row as int;
        let col = over.col as int;
        let e = surface(m, row, col + 1)->Some_0;
        let w = surface(m, row, col - 1)->Some_0;
        let n = surface(m, row - 1, col)->Some_0;
        let s = surface(m, row + 1, col)->Some_0;
        if along_row {
            assert(after.cells == m.connect(w, cell).connect(cell, e).with_cell(u).cells);
        } else {
            assert(after.cells == m.connect(n, cell).connect(cell, s).with_cell(u).cells);
        }
        assert(after.cells == m.cells.push(u));
        assert forall|a: Node, b: Node|
            after.has_cell(a) && after.has_cell(b) && #[trigger] crate::generators::recursive_division::beside(
                a,
                b,
            ) implies has_pair(post.pairs(), a, b) || (post.sets().has(a) && post.sets().has(b)
            && post.sets().together(a, b)) || after.has_cell(under(a)) || after.has_cell(
            under(b),
        ) by {
            lemma_crossed_cells(after, m, u, a);
            lemma_crossed_cells(after, m, u, b);
            if a != cell && b != cell {
                if has_pair(self.pairs(), a, b) {
                    let k = choose|k: int|
                        0 <= k < self.pairs().len() && (#[trigger] self.pairs()[k]).0.node() == a
                            && self.pairs()[k].1.node() == b;
                    let pair = self.pairs()[k];
                    assert(post.pairs().contains(pair));
                    let j = choose|j: int| 0 <= j < post.pairs().len() && post.pairs()[j] == pair;
                    assert(post.pairs()[j].0.node() == a && post.pairs()[j].1.node() == b);
                } else if m.has_cell(under(a)) {
                    after.lemma_extends_cell(m, under(a));
                } else if m.has_cell(under(b)) {
                    after.lemma_extends_cell(m, under(b));
                }
            }
        }
    }

    /// After a pair was looked at every pair of surface cells side by side
    /// is still to be looked at, in one set or at a crossing, if it was so
    /// before.
    pub proof fn lemma_pair_looked(&self, post: &Self)
        requires
            self.looked(),
            self.pairs().len() > 0,
            post.pairs() == self.pairs().drop_last(),
            post.grid()@.cells == self.grid()@.cells,
            post.sets().together(self.pairs().last().0.node(), self.pairs().last().1.node()),
            forall|a: Node, b: Node|
                self.sets().has(a) && self.sets().has(b) && self.sets().together(a, b)
                    ==> #[trigger] post.sets().together(a, b),
            forall|c: Node| self.sets().has(c) ==> #[trigger] post.sets().has(c),
            forall|c: Node| self.grid()@.has_cell(c) ==> #[trigger] self.sets().has(c),
        ensures
            post.looked(),
    {
        let m = self.grid()@;
        let after = post.grid()@;
        assert forall|a: Node, b: Node|
            after.has_cell(a) && after.has_cell(b) && #[trigger] crate::generators::recursive_division::beside(
                a,
                b,
            ) implies has_pair(post.pairs(), a, b) || (post.sets().has(a) && post.sets().has(b)
            && post.sets().together(a, b)) || after.has_cell(under(a)) || after.has_cell(
            under(b),
        ) by {
            assert(m.has_cell(a) && m.has_cell(b));
            assert(self.sets().has(a) && self.sets().has(b));
            if has_pair(self.pairs(), a, b) {
                let k = choose|k: int|
                    0 <= k < self.pairs().len() && (#[trigger] self.pairs()[k]).0.node() == a
                        && self.pairs()[k].1.node() == b;
                if k < self.pairs().len() - 1 {
                    assert(post.pairs()[k] == self.pairs()[k]);
                }
            }
        }
    }

    /// Whether every pair has been looked at, and the state is as the
    /// crossings and the pairs have left it.
    pub open spec fn finished(&self) -> bool {
        &&& self.wf()
        &&& self.covered()
        &&& self.bound()
        &&& self.tunnels_ok()
        &&& self.looked()
        &&& self.pairs().len() == 0
    }

    /// When every pair has been looked at, every surface cell is in the set
    /// of the cell in the north-western corner: the cell west or north of
    /// it is in its set, or the cell beyond a crossing there.
    pub proof fn lemma_to_corner(&self, i: int, j: int)
        requires
            self.finished(),
            in_rect(self.grid().kind().rows as nat, self.grid().kind().cols as nat, i, j),
        ensures
            self.sets().together(place(i, j), place(0, 0)),
        decreases i + j,
    {
        let m = self.grid()@;
        let rows = self.grid().kind().rows as nat;
        let cols = self.grid().kind().cols as nat;
        let a = place(i, j);
        lemma_woven_surface(m, rows, cols, i, j);
        assert(m.has_cell(a));
        if i == 0 && j == 0 {
        } else if m.has_cell(under(a)) {
            assert(crossing_ok(m, a));
            let w = place(i, j - 1);
            let e = place(i, j + 1);
            let n = place(i - 1, j);
            let s = place(i + 1, j);
            if pair_of(m, a, w, e) {
                assert(m.links_of(a).contains(w));
                m.lemma_linked_cells(a, w);
                lemma_woven_surface(m, rows, cols, i, j - 1);
                self.lemma_to_corner(i, j - 1);
            } else {
                assert(m.links_of(a).contains(n));
                m.lemma_linked_cells(a, n);
                lemma_woven_surface(m, rows, cols, i - 1, j);
                self.lemma_to_corner(i - 1, j);
            }
        } else if j >= 1 {
            let b = place(i, j - 1);
            lemma_woven_surface(m, rows, cols, i, j - 1);
            assert(m.has_cell(b));
            if m.has_cell(under(b)) {
                assert(crossing_ok(m, b));
                let w = place(i, j - 2);
                if pair_of(m, b, w, a) {
                    assert(m.links_of(b).contains(a));
                    self.lemma_to_corner(i, j - 1);
                } else {
                    let u = under(b);
                    assert(m.links_of(u).contains(a));
                    assert(m.links_of(u).contains(w));
                    m.lemma_linked_cells(u, w);
                    lemma_woven_surface(m, rows, cols, i, j - 2);
                    self.lemma_to_corner(i, j - 2);
                }
            } else {
                assert(crate::generators::recursive_division::beside(a, b));
                self.lemma_to_corner(i, j - 1);
            }
        } else {
            let b = place(i - 1, 0);
            lemma_woven_surface(m, rows, cols, i - 1, 0);
            assert(m.has_cell(b));
            if m.has_cell(under(b)) {
                assert(crossing_ok(m, b));
                let w = place(i - 1, -1);
                let u = under(b);
                if pair_of(m, b, w, place(i - 1, 1)) {
                    assert(m.links_of(b).contains(w));
                    m.lemma_linked_cells(b, w);
                } else {
                    assert(m.links_of(u).contains(w));
                    m.lemma_linked_cells(u, w);
                }
                lemma_woven_surface(m, rows, cols, i - 1, -1);
            }
            assert(crate::generators::recursive_division::beside(a, b));
            self.lemma_to_corner(i - 1, 0);
        }
    }

    /// When every pair has been looked at, all cells are in one set.
    pub proof fn lemma_one_set(&self, a: Node)
        requires
            self.finished(),
            self.grid()@.has_cell(a),
        ensures
            self.sets().together(a, place(0, 0)),
    {
        let m = self.grid()@;
        let rows = self.grid().kind().rows as nat;
        let cols = self.grid().kind().cols as nat;
        let base = grid_cells(rows, cols);
        let k = choose|k: int| 0 <= k < m.cells.len() && m.cells[k] == a;
        if k < base.len() {
            assert(base[k] == m.cells[k]);
            assert(base.contains(a));
            crate::rect::lemma_grid_cells_contains(rows, cols, a);
            self.lemma_to_corner(a.0 as int, a.1 as int);
        } else {
            let x = (a.0, a.1, 0usize);
            assert(a.2 == 1 && base.contains(x));
            crate::rect::lemma_grid_cells_contains(rows, cols, x);
            assert(under(x) == a);
            assert(crossing_ok(m, x));
            let w = place(x.0 as int, x.1 - 1);
            let n = place(x.0 - 1, x.1 as int);
            if pair_of(m, a, w, place(x.0 as int, x.1 + 1)) {
                assert(m.links_of(a).contains(w));
                m.lemma_linked_cells(a, w);
                lemma_woven_surface(m, rows, cols, x.0 as int, x.1 - 1);
                self.lemma_to_corner(x.0 as int, x.1 - 1);
            } else {
                assert(m.links_of(a).contains(n));
                m.lemma_linked_cells(a, n);
                lemma_woven_surface(m, rows, cols, x.0 - 1, x.1 as int);
                self.lemma_to_corner(x.0 - 1, x.1 as int);
            }
        }
    }

    /// When every pair has been looked at, one set has cells.
    pub proof fn lemma_one_alive(&self)
        requires
            self.finished(),
            self.knit(),
            self.grid().kind().rows >= 1,
            self.grid().kind().cols >= 1,
        ensures
            self.alive() == 1,
    {
        let m = self.grid()@;
        let rows = self.grid().kind().rows as nat;
        let cols = self.grid().kind().cols as nat;
        let corner = place(0, 0);
        let ids = self.sets().ids();
        let lists = self.sets().lists();
        lemma_woven_surface(m, rows, cols, 0, 0);
        assert(m.has_cell(corner));
        assert(self.sets().has(corner));
        let s0 = ids[corner] as int;
        assert(lists[s0].contains(corner));
        assert forall|j: int| 0 <= j < lists.len() && j != s0 implies (#[trigger] lists[j]).len() == 0 by {
            if lists[j].len() > 0 {
                let c = lists[j][0];
                assert(ids.dom().contains(c) && ids[c] == j);
                assert(self.sets().has(c));
                self.lemma_one_set(c);
            }
        }
        lemma_live_one(lists, s0);
    }

    /// The pairs in another order keep the crossings as they were made.
    pub proof fn lemma_pairs_shuffled(&self, post: &Self)
        requires
            self.tunnels_ok(),
            post.grid() == self.grid(),
            forall|k: int|
                0 <= k < post.pairs().len() ==> self.pairs().contains(#[trigger] post.pairs()[k]),
        ensures
            post.tunnels_ok(),
    {
        let m = self.grid()@;
        assert forall|k: int| 0 <= k < post.pairs().len() implies crate::generators::recursive_division::beside(
            (#[trigger] post.pairs()[k]).0.node(),
            post.pairs()[k].1.node(),
        ) by {
            let pair = post.pairs()[k];
            let j = choose|j: int| 0 <= j < self.pairs().len() && self.pairs()[j] == pair;
        }
        assert forall|x: Node| x.2 == 0 && #[trigger] m.has_cell(under(x)) implies post.spared(x) by {
            assert(self.spared(x));
            assert forall|k: int| 0 <= k < post.pairs().len() implies (
            #[trigger] post.pairs()[k]).0.node() != x && post.pairs()[k].1.node() != x by {
                let pair = post.pairs()[k];
                let j = choose|j: int| 0 <= j < self.pairs().len() && self.pairs()[j] == pair;
            }
        }
    }

    /// Looking at a pair keeps the crossings as they were made.
    pub proof fn lemma_pair_looked_at(&self, post: &Self)
        requires
            self.wf(),
            self.tunnels_ok(),
            self.pairs().len() > 0,
            post.pairs() == self.pairs().drop_last(),
            post.grid()@ == self.grid()@ || post.grid()@ == self.grid().kind().linking(
                self.grid()@,
                self.pairs().last().0.node(),
                self.pairs().last().1.node(),
            ),
        ensures
            post.tunnels_ok(),
    {
        let m = self.grid()@;
        let after = post.grid()@;
        let last = self.pairs()[self.pairs().len() - 1];
        let l = last.0.node();
        let r = last.1.node();
        assert(crate::generators::recursive_division::beside(l, r));
        lemma_between_near(m, l, r);
        assert(after == m || after == m.connect(l, r));
        assert forall|k: int| 0 <= k < post.pairs().len() implies crate::generators::recursive_division::beside(
            (#[trigger] post.pairs()[k]).0.node(),
            post.pairs()[k].1.node(),
        ) by {
            assert(post.pairs()[k] == self.pairs()[k]);
        }
        assert forall|x: Node| x.2 == 0 && #[trigger] after.has_cell(under(x)) implies crossing_ok(
            after,
            x,
        ) && post.spared(x) by {
            assert(m.has_cell(under(x)));
            assert(crossing_ok(m, x) && self.spared(x));
            if after != m {
                lemma_crossing_kept(m, x, l, r);
            }
            assert forall|k: int| 0 <= k < post.pairs().len() implies (
            #[trigger] post.pairs()[k]).0.node() != x && post.pairs()[k].1.node() != x by {
                assert(post.pairs()[k] == self.pairs()[k]);
            }
        }
    }

    /// Makes a crossing at a surface cell if one can be made there (see
    /// [`State::crossable`] and [`State::cross`]), with the passage on the
    /// surface along the row or along the column as a coin falls. Returns
    /// whether a crossing was made.
    pub fn add_crossing(&mut self, over: OverCell) -> (made: bool)
        requires
            old(self).wf(),
            old(self).covered(),
        ensures
            final(self).wf(),
            final(self).covered(),
            final(self).grid().kind() == old(self).grid().kind(),
            final(self).grid().marks() == old(self).grid().marks(),
            final(self).grid()@.extends(old(self).grid()@),
            made == old(self).crossable(over.row as int, over.col as int),
            old(self).tunnels_ok() ==> final(self).tunnels_ok(),
            old(self).knit() ==> final(self).knit(),
            old(self).bound() ==> final(self).bound(),
            old(self).knit() ==> final(self).spare() == old(self).spare(),
            old(self).looked() ==> final(self).looked(),
            !made ==> *final(self) == *old(self),
            made ==> ({
                let m = old(self).grid()@;
                let row = over.row as int;
                let col = over.col as int;
                let cell = WeaveCell::Over(over).node();
                let e = surface(m, row, col + 1)->Some_0;
                let w = surface(m, row, col - 1)->Some_0;
                let n = surface(m, row - 1, col)->Some_0;
                let s = surface(m, row + 1, col)->Some_0;
                final(self).grid()@ == crossed(m, cell, w, e, n, s) || final(self).grid()@ == crossed(
                    m,
                    cell,
                    n,
                    s,
                    w,
                    e,
                )
            }),
            made ==> final(self).grid()@.cells == old(self).grid()@.cells.push(
                under(WeaveCell::Over(over).node()),
            ) && final(self).grid()@.edges.len() == old(self).grid()@.edges.len() + 4,
            forall|k: int|
                0 <= k < final(self).pairs().len() ==> old(self).pairs().contains(
                    #[trigger] final(self).pairs()[k],
                ),
            made ==> final(self).grid()@.has_cell(under(WeaveCell::Over(over).node())) && crossing_ok(
                final(self).grid()@,
                WeaveCell::Over(over).node(),
            ),
    {
        if self.can_cross(over) {
            let along_row = random_bool();
            let ghost m = self.grid()@;
            let ghost before = *self;
            self.cross(over, along_row);
            proof {
                if before.tunnels_ok() {
                    before.lemma_crossing_made(self, over, along_row);
                }
                let row = over.row as int;
                let col = over.col as int;
                let cell = WeaveCell::Over(over).node();
                let e = surface(m, row, col + 1)->Some_0;
                let w = surface(m, row, col - 1)->Some_0;
                let n = surface(m, row - 1, col)->Some_0;
                let s = surface(m, row + 1, col)->Some_0;
                let post = self.grid()@;
                let end = if along_row {
                    n
                } else {
                    w
                };
                assert(post.links_of(under(cell)).contains(end));
                post.lemma_linked_cells(under(cell), end);
                assert(pair_of(post, cell, w, e) || pair_of(post, cell, n, s));
                if along_row {
                    lemma_crossed_count(m, cell, w, e, n, s);
                } else {
                    lemma_crossed_count(m, cell, n, s, w, e);
                }
                if before.looked() {
                    before.lemma_crossing_looked(self, over, along_row);
                }
            }
            true
        } else {
            false
        }
    }
}

impl Grid<Weave> {
    /// Kruskal's algorithm on a weave grid, with crossings made beforehand:
    /// as many times as the grid has cells, a crossing is made at a random
    /// place away from the boundary, if one can be made there (see
    /// [`State::add_crossing`]). Then every pair of adjacent cells is looked
    /// at, in random order, and linked if its cells are in different sets.
    /// The grid is preconfigured from then on. It must have at least four
    /// rows and four columns, the cells that it began with, and no links.
    ///
    /// In the result every crossing is as it was made: a straight passage
    /// on the surface and a straight tunnel across beneath it, each with
    /// its two links and no other (see [`crossing_ok`]). A walk along links
    /// leads from every cell to every other, and there is one link fewer
    /// than cells: the result is a perfect maze.
    pub fn kruskals_better_weave(self) -> (maze: Self)
        requires
            self.wf(),
            self.kind().rows >= 4,
            self.kind().cols >= 4,
            self@.cells == self.kind().first_cells(),
            self@.edges =~= Set::<(Node, Node)>::empty(),
        ensures
            maze.wf(),
            maze.kind().rows == self.kind().rows,
            maze.kind().cols == self.kind().cols,
            maze.kind().is_preconfigured,
            maze.marks() == self.marks(),
            maze@.extends(self@),
            forall|x: Node| x.2 == 0 && #[trigger] maze@.has_cell(under(x)) ==> crossing_ok(maze@, x),
            forall|a: Node, b: Node| maze@.has_cell(a) && maze@.has_cell(b) ==> #[trigger] maze@.joins(a, b),
            maze@.edges.len() + 1 == maze@.cells.len(),
            maze@.is_perfect(),
    {
        let mut grid = self;
        grid.kind.is_preconfigured = true;
        let rows = grid.kind.rows;
        let cols = grid.kind.cols;
        let size = grid.size();
        let mut state = State::new(grid);
        proof {
            assert forall|x: Node| x.2 == 0 implies !(#[trigger] grid@.has_cell(under(x))) by {
                crate::rect::lemma_grid_cells_contains(rows as nat, cols as nat, under(x));
            }
            assert forall|k: int| 0 <= k < state.pairs().len() implies crate::generators::recursive_division::beside(
                (#[trigger] state.pairs()[k]).0.node(),
                state.pairs()[k].1.node(),
            ) by {
                let a = state.pairs()[k].0.node();
                crate::rect::lemma_grid_cells_contains(rows as nat, cols as nat, a);
                lemma_compass_beside(grid@, a, state.pairs()[k].1.node());
            }
            assert forall|a: Node, b: Node|
                grid@.has_cell(a) && grid@.has_cell(b) && #[trigger] crate::generators::recursive_division::beside(
                    a,
                    b,
                ) implies has_pair(state.pairs(), a, b) by {
                crate::rect::lemma_beside(grid@, a, b);
                let near = grid.kind().adjacent(grid@, a);
                let i = choose|i: int| 0 <= i < near.len() && near[i] == b;
                assert(has_pair(state.pairs(), a, near[i]));
            }
        }
        let mut i: usize = 0;
        while i < size
            invariant
                state.wf(),
                state.covered(),
                state.tunnels_ok(),
                state.knit(),
                state.bound(),
                state.looked(),
                state.spare() == 0,
                state.grid().kind() == grid.kind(),
                state.grid().marks() == grid.marks(),
                state.grid()@.extends(grid@),
                grid@.extends(self@),
                rows >= 4,
                cols >= 4,
                rows <= isize::MAX,
                cols <= isize::MAX,
                forall|k: int|
                    0 <= k < state.pairs().len() ==> grid@.has_cell(
                        (#[trigger] state.pairs()[k]).0.node(),
                    ) && grid@.has_cell(state.pairs()[k].1.node()),
            decreases size - i,
        {
            let row = random_range(1, rows - 2);
            let col = random_range(1, cols - 2);
            let ghost before = state;
            state.add_crossing(OverCell::new(row as isize, col as isize));
            proof {
                assert forall|k: int| 0 <= k < state.pairs().len() implies grid@.has_cell(
                    (#[trigger] state.pairs()[k]).0.node(),
                ) && grid@.has_cell(state.pairs()[k].1.node()) by {
                    assert(before.pairs().contains(state.pairs()[k]));
                    let j = choose|j: int|
                        0 <= j < before.pairs().len() && before.pairs()[j] == state.pairs()[k];
                }
            }
            i += 1;
        }
        let ghost listed = state;
        let ghost base = state.grid();
        shuffle(&mut state.neighbours);
        proof {
            assert forall|k: int| 0 <= k < state.pairs().len() implies listed.pairs().contains(
                #[trigger] state.pairs()[k],
            ) by {
                let e = state.pairs()[k];
                assert(state.pairs().contains(e));
                vstd::seq_lib::to_multiset_contains(state.pairs(), e);
                vstd::seq_lib::to_multiset_contains(listed.pairs(), e);
            }
            assert forall|k: int| 0 <= k < state.pairs().len() implies base@.has_cell(
                (#[trigger] state.pairs()[k]).0.node(),
            ) && base@.has_cell(state.pairs()[k].1.node()) by {
                let e = state.pairs()[k];
                let j = choose|j: int| 0 <= j < listed.pairs().len() && listed.pairs()[j] == e;
                assert(grid@.has_cell(listed.pairs()[j].0.node()));
                base@.lemma_extends_cell(grid@, e.0.node());
                base@.lemma_extends_cell(grid@, e.1.node());
            }
            listed.lemma_pairs_shuffled(&state);
            assert forall|a: Node, b: Node| has_pair(listed.pairs(), a, b) implies has_pair(
                state.pairs(),
                a,
                b,
            ) by {
                lemma_has_pair_shuffled(listed.pairs(), state.pairs(), a, b);
            }
        }
        while state.neighbours.len() > 0
            invariant
                base.wf(),
                state.wf(),
                state.tunnels_ok(),
                state.knit(),
                state.bound(),
                state.looked(),
                state.spare() == 0,
                state.covered(),
                state.grid().kind() == base.kind(),
                state.grid().marks() == base.marks(),
                base.kind().is_preconfigured,
                !base.kind().flat(),
                state.grid()@.extends(base@),
                base@.extends(self@),
                forall|c: Node| base@.has_cell(c) ==> #[trigger] state.sets().has(c),
                forall|k: int|
                    0 <= k < state.pairs().len() ==> base@.has_cell(
                        (#[trigger] state.pairs()[k]).0.node(),
                    ) && base@.has_cell(state.pairs()[k].1.node()),
            decreases state.neighbours.len(),
        {
            let ghost before = state;
            state.step(Ghost(base));
            proof {
                assert forall|k: int| 0 <= k < state.pairs().len() implies base@.has_cell(
                    (#[trigger] state.pairs()[k]).0.node(),
                ) && base@.has_cell(state.pairs()[k].1.node()) by {
                    assert(state.pairs()[k] == before.pairs()[k]);
                }
                before.lemma_pair_looked_at(&state);
                let l = before.pairs().last().0.node();
                let r = before.pairs().last().1.node();
                lemma_between_near(before.grid()@, l, r);
                before.lemma_pair_looked(&state);
            }
        }
        proof {
            assert(state.finished());
            state.lemma_one_alive();
            assert forall|a: Node, b: Node|
                state.grid()@.has_cell(a) && state.grid()@.has_cell(b) implies #[trigger] state.grid()@.joins(
                a,
                b,
            ) by {
                state.lemma_one_set(a);
                state.lemma_one_set(b);
            }
        }
        state.grid
    }
}

} // verus!
