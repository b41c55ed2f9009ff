//! Eller's algorithm: the grid is passed through row by row, with sets of
//! cells that tell which cells of the row are joined already.

use crate::cell::CellKind;
use crate::cell::RegularCell;
use crate::generators::kruskals::is_forest;
use crate::generators::kruskals::lemma_forest_one_set;
use crate::generators::kruskals::lemma_merged_forest;
use crate::generators::sidewinder::place;
use crate::graph::Node;
use crate::grid::Grid;
use crate::kind::Kind;
use crate::model::Maze;
use crate::model::lemma_edge_key;
use crate::model::lemma_edge_key_eq;
use crate::random::random_bool;
use crate::random::random_range;
use crate::random::shuffle;
use crate::rect::grid_cells;
use crate::rect::lemma_grid_cells_contains;
use crate::rect::lemma_grid_cells_distinct;
use crate::regular::Regular;
use crate::sets::DisjointSets;
use crate::sets::agree;
use crate::sets::lemma_live_push;
use crate::sets::lemma_live_update;
use vstd::prelude::*;

verus! {

/// A cell that is in no set may make a set of its own in a forest.
pub proof fn lemma_forest_single(
    m: Maze,
    ids: Map<Node, usize>,
    lists: Seq<Seq<Node>>,
    count: nat,
    c: Node,
)
    requires
        m.wf(),
        agree(ids, lists),
        is_forest(m, ids, lists, count),
        !ids.dom().contains(c),
        m.has_cell(c),
        lists.len() <= usize::MAX,
    ensures
        is_forest(m, ids.insert(c, lists.len() as usize), lists.push(seq![c]), count + 1),
{
    let after = ids.insert(c, lists.len() as usize);
    lemma_live_push(lists, seq![c]);
    assert forall|a: Node, b: Node|
        after.dom().contains(a) && after.dom().contains(b) && after[a] == after[b] implies #[trigger] m.joins(
        a,
        b,
    ) by {
        if a == c || b == c {
            assert(a == b);
            m.lemma_joins_reflexive(a);
        }
    }
}

/// A cell that is in no set may be linked to a cell of a tree of a forest,
/// and join its set.
pub proof fn lemma_forest_grown(
    m: Maze,
    ids: Map<Node, usize>,
    lists: Seq<Seq<Node>>,
    count: nat,
    a: Node,
    b: Node,
)
    requires
        m.wf(),
        agree(ids, lists),
        is_forest(m, ids, lists, count),
        ids.dom().contains(a),
        !ids.dom().contains(b),
        m.has_cell(b),
    ensures
        is_forest(
            m.connect(a, b),
            ids.insert(b, ids[a]),
            lists.update(ids[a] as int, lists[ids[a] as int].push(b)),
            count + 1,
        ),
        m.connect(a, b).wf(),
{
    let post = m.connect(a, b);
    let after = ids.insert(b, ids[a]);
    let s = ids[a] as int;
    lemma_edge_key(a, b);
    assert(lists[s].contains(a));
    lemma_live_update(lists, s, lists[s].push(b));
    assert(!m.linked(a, b));
    assert forall|x: Node, y: Node|
        after.dom().contains(x) && after.dom().contains(y) && after[x] == after[y] implies #[trigger] post.joins(
        x,
        y,
    ) by {
        post.lemma_linked_symmetric(a, b);
        if x == b && y == b {
            post.lemma_joins_reflexive(b);
        } else if x == b {
            assert(m.joins(a, y));
            m.lemma_joins_grows(post, a, y);
            post.lemma_joins_reflexive(b);
            post.lemma_joins_step(b, b, a);
            post.lemma_joins_transitive(b, a, y);
        } else if y == b {
            assert(m.joins(x, a));
            m.lemma_joins_grows(post, x, a);
            post.lemma_joins_step(x, a, b);
        } else {
            assert(m.joins(x, y));
            m.lemma_joins_grows(post, x, y);
        }
    }
    assert forall|x: Node, y: Node| #[trigger] post.linked(x, y) implies after.dom().contains(x)
        && after.dom().contains(y) && after[x] == after[y] by {
        if !m.linked(x, y) {
            lemma_edge_key_eq(x, y, a, b);
        }
    }
}

/// Whether every set with cells has a cell in a row.
pub open spec fn reach_row(lists: Seq<Seq<Node>>, row: int) -> bool {
    forall|s: int|
        0 <= s < lists.len() && (#[trigger] lists[s]).len() > 0 ==> exists|k: int|
            0 <= k < lists[s].len() && (#[trigger] lists[s][k]).0 == row
}

/// The state of Eller's algorithm: the sets are the trees of a forest, the
/// cells in sets are those in `assigned`, no more set numbers are in use
/// than cells are in sets, and the cells in sets are cells of rows up to
/// `row`, among them every cell of the rows before `row`. Every link joins
/// two cells side by side.
pub open spec fn rowwise(
    m: Maze,
    sets: DisjointSets,
    assigned: Set<Node>,
    rows: nat,
    cols: nat,
    row: int,
) -> bool {
    &&& m.wf()
    &&& m.cells == grid_cells(rows, cols)
    &&& sets.wf()
    &&& assigned.finite()
    &&& sets.ids().dom() =~= assigned
    &&& sets.lists().len() <= assigned.len()
    &&& forall|a: Node, b: Node| #[trigger] m.linked(a, b) ==> crate::generators::recursive_division::beside(a, b)
    &&& is_forest(m, sets.ids(), sets.lists(), assigned.len())
    &&& forall|x: Node| #[trigger] m.has_cell(x) && x.0 < row ==> assigned.contains(x)
    &&& forall|x: Node| #[trigger] assigned.contains(x) ==> x.0 <= row
}

impl Grid<Regular> {
    /// The set of a cell, which is made for it if the cell is in none.
    fn set_for(
        &self,
        sets: &mut DisjointSets,
        cell: Node,
        Ghost(assigned): Ghost<Set<Node>>,
        Ghost(row): Ghost<int>,
    ) -> (got: (usize, Ghost<Set<Node>>))
        requires
            self.wf(),
            rowwise(
                self@,
                *old(sets),
                assigned,
                self.kind().rows as nat,
                self.kind().cols as nat,
                row,
            ),
            reach_row(old(sets).lists(), row),
            self@.has_cell(cell),
            cell.0 == row,
        ensures
            rowwise(
                self@,
                *final(sets),
                got.1@,
                self.kind().rows as nat,
                self.kind().cols as nat,
                row,
            ),
            reach_row(final(sets).lists(), row),
            got.1@ == assigned.insert(cell),
            final(sets).has(cell),
            got.0 == final(sets).ids()[cell],
            forall|a: Node| old(sets).has(a) ==> #[trigger] final(sets).ids()[a] == old(sets).ids()[a],
    {
        match sets.find(cell) {
            Some(id) => {
                assert(assigned.insert(cell) =~= assigned);
                (id, Ghost(assigned))
            },
            None => {
                let id = sets.count();
                let total = self.size();
                let ghost before = *sets;
                proof {
                    lemma_forest_single(self@, sets.ids(), sets.lists(), assigned.len(), cell);
                    let all = self@.cells.to_set();
                    self@.cells.lemma_cardinality_of_set();
                    assert(assigned.insert(cell).subset_of(all)) by {
                        assert forall|x: Node| assigned.insert(cell).contains(x) implies all.contains(
                            x,
                        ) by {
                            assert(self@.has_cell(x));
                        }
                    }
                    vstd::set_lib::lemma_len_subset(assigned.insert(cell), all);
                }
                sets.adopt(id, cell);
                proof {
                    assert(sets.lists() =~= before.lists().push(seq![cell]));
                    assert forall|s: int|
                        0 <= s < sets.lists().len() && (#[trigger] sets.lists()[s]).len()
                            > 0 implies exists|k: int|
                        0 <= k < sets.lists()[s].len() && (#[trigger] sets.lists()[s][k]).0
                            == row by {
                        if s < before.lists().len() {
                            assert(sets.lists()[s] == before.lists()[s]);
                            let k = choose|k: int|
                                0 <= k < before.lists()[s].len() && (#[trigger] before.lists()[s][k]).0
                                    == row;
                            assert(sets.lists()[s][k].0 == row);
                        } else {
                            assert(sets.lists()[s][0].0 == row);
                        }
                    }
                }
                (id, Ghost(assigned.insert(cell)))
            },
        }
    }

    /// Joins the cells of a row. Every cell that is in no set is given a set
    /// of its own. Then every cell is compared with the cell west of it, and
    /// the two are linked, and their sets merged, if they are in different
    /// sets and, where the row is not the last one, a coin falls heads.
    fn join_row(
        &mut self,
        sets: &mut DisjointSets,
        row: usize,
        Ghost(assigned): Ghost<Set<Node>>,
    ) -> (now: Ghost<Set<Node>>)
        requires
            old(self).wf(),
            row < old(self).kind().rows,
            old(self).kind().cols >= 1,
            rowwise(
                old(self)@,
                *old(sets),
                assigned,
                old(self).kind().rows as nat,
                old(self).kind().cols as nat,
                row as int,
            ),
            reach_row(old(sets).lists(), row as int),
        ensures
            final(self).wf(),
            final(self).kind() == old(self).kind(),
            final(self).marks() == old(self).marks(),
            rowwise(
                final(self)@,
                *final(sets),
                now@,
                old(self).kind().rows as nat,
                old(self).kind().cols as nat,
                row as int,
            ),
            reach_row(final(sets).lists(), row as int),
            forall|c: int| 0 <= c < old(self).kind().cols ==> now@.contains(#[trigger] place(row as int, c)),
            row + 1 == old(self).kind().rows ==> forall|c: int|
                0 <= c < old(self).kind().cols ==> final(sets).together(
                    #[trigger] place(row as int, c),
                    place(row as int, 0),
                ),
    {
        let rows = self.topology().rows;
        let cols = self.topology().cols;
        let last = row + 1 == rows;
        let first: Node = (row as isize, 0, 0);
        proof {
            lemma_grid_cells_contains(rows as nat, cols as nat, first);
            assert(first == place(row as int, 0));
        }
        let (_, a0) = self.set_for(sets, first, Ghost(assigned), Ghost(row as int));
        let mut assigned = a0;
        let mut c: usize = 1;
        while c < cols
            invariant
                1 <= c <= cols,
                row < rows,
                last == (row + 1 == rows),
                self.wf(),
                self.kind() == old(self).kind(),
                self.marks() == old(self).marks(),
                rows == self.kind().rows,
                cols == self.kind().cols,
                rowwise(self@, *sets, assigned@, rows as nat, cols as nat, row as int),
                reach_row(sets.lists(), row as int),
                forall|k: int| 0 <= k < c ==> assigned@.contains(#[trigger] place(row as int, k)),
                last ==> forall|k: int|
                    0 <= k < c ==> sets.together(#[trigger] place(row as int, k), place(row as int, 0)),
            decreases cols - c,
        {
            let cell: Node = (row as isize, c as isize, 0);
            let west: Node = (row as isize, (c - 1) as isize, 0);
            proof {
                lemma_grid_cells_contains(rows as nat, cols as nat, cell);
                lemma_grid_cells_contains(rows as nat, cols as nat, west);
                assert(cell == place(row as int, c as int));
                assert(west == place(row as int, c - 1));
            }
            let ghost start = *sets;
            let (set, a1) = self.set_for(sets, cell, Ghost(assigned@), Ghost(row as int));
            let (prior, a2) = self.set_for(sets, west, Ghost(a1@), Ghost(row as int));
            assigned = a2;
            let ghost mid = *sets;
            proof {
                assert(mid.ids()[cell] == set);
                assert forall|k: int| 0 <= k < c + 1 implies assigned@.contains(
                    #[trigger] place(row as int, k),
                ) by {
                    if k < c {
                        assert(start.has(place(row as int, k)));
                    }
                }
                if last {
                    assert forall|k: int| 0 <= k < c implies mid.together(
                        #[trigger] place(row as int, k),
                        place(row as int, 0),
                    ) by {
                        assert(start.together(place(row as int, k), place(row as int, 0)));
                        assert(start.has(place(row as int, k)));
                        assert(start.has(place(row as int, 0)));
                    }
                }
            }
            let link = set != prior && (last || random_bool());
            if link {
                let ghost before = self@;
                self.link(RegularCell::new(row as isize, c as isize), RegularCell::new(
                    row as isize,
                    (c - 1) as isize,
                ));
                proof {
                    crate::model::lemma_connect_links(before, cell, west);
                    lemma_edge_key(cell, west);
                    lemma_merged_forest(
                        before,
                        mid.ids(),
                        mid.lists(),
                        assigned@.len(),
                        west,
                        cell,
                    );
                    assert(before.connect(cell, west) == before.connect(west, cell));
                }
                sets.union(prior, set);
                proof {
                    assert(self@ == before.connect(west, cell));
                    assert(prior == mid.ids()[west] && set == mid.ids()[cell]);
                    assert(sets.ids().dom() =~= assigned@);
                    assert(is_forest(self@, sets.ids(), sets.lists(), assigned@.len()));
                    assert(self@.cells == grid_cells(rows as nat, cols as nat));
                    assert(self@.wf());
                    assert(sets.wf());
                    assert(assigned@.finite());
                    assert forall|x: Node| #[trigger] self@.has_cell(x) && x.0 < row implies assigned@.contains(
                        x,
                    ) by {
                        assert(before.has_cell(x));
                    }
                    assert(forall|x: Node| #[trigger] assigned@.contains(x) ==> x.0 <= row);
                    assert(rowwise(self@, *sets, assigned@, rows as nat, cols as nat, row as int));
                    lemma_reach_merged(mid.ids(), mid.lists(), prior, set, row as int, west);
                    if last {
                        assert forall|k: int| 0 <= k < c + 1 implies sets.together(
                            #[trigger] place(row as int, k),
                            place(row as int, 0),
                        ) by {
                            if k < c {
                                assert(mid.together(place(row as int, k), place(row as int, 0)));
                                assert(mid.together(place(row as int, c - 1), place(row as int, 0)));
                            }
                        }
                    }
                }
            } else {
                proof {
                    if last {
                        assert(set == prior);
                        assert forall|k: int| 0 <= k < c + 1 implies sets.together(
                            #[trigger] place(row as int, k),
                            place(row as int, 0),
                        ) by {
                            assert(mid.together(place(row as int, c - 1), place(row as int, 0)));
                            if k < c {
                                assert(mid.together(place(row as int, k), place(row as int, 0)));
                            }
                        }
                    }
                }
            }
            c += 1;
        }
        assigned
    }
}

/// After one set was merged into another, every set with cells still has a
/// cell in the row, if every set had one before.
pub proof fn lemma_reach_merged(
    ids: Map<Node, usize>,
    lists: Seq<Seq<Node>>,
    left: usize,
    right: usize,
    row: int,
    west: Node,
)
    requires
        agree(ids, lists),
        reach_row(lists, row),
        left < lists.len(),
        right < lists.len(),
        left != right,
        ids.dom().contains(west),
        ids[west] == left,
        west.0 == row,
    ensures
        reach_row(crate::sets::merged_lists(lists, left, right), row),
{
    let more = crate::sets::merged_lists(lists, left, right);
    assert forall|s: int| 0 <= s < more.len() && (#[trigger] more[s]).len() > 0 implies exists|k: int|
        0 <= k < more[s].len() && (#[trigger] more[s][k]).0 == row by {
        if s == left {
            let l = lists[left as int];
            assert(l.contains(west));
            let k = choose|k: int| 0 <= k < l.len() && l[k] == west;
            assert(more[s][k] == west);
        } else {
            assert(more[s] == lists[s]);
            let k = choose|k: int| 0 <= k < lists[s].len() && (#[trigger] lists[s][k]).0 == row;
            assert(more[s][k].0 == row);
        }
    }
}

/// The cells of a set that lie in a row, each once.
pub fn row_members(sets: &DisjointSets, id: usize, row: isize) -> (here: Vec<Node>)
    requires
        sets.wf(),
        id < sets.lists().len(),
    ensures
        here@.no_duplicates(),
        forall|x: Node| #[trigger]
            here@.contains(x) <==> sets.lists()[id as int].contains(x) && x.0 == row,
{
    let all = sets.members(id);
    let mut here: Vec<Node> = Vec::new();
    let mut i: usize = 0;
    while i < all.len()
        invariant
            i <= all.len(),
            all@ == sets.lists()[id as int],
            all@.no_duplicates(),
            here@.no_duplicates(),
            forall|x: Node| #[trigger]
                here@.contains(x) <==> all@.take(i as int).contains(x) && x.0 == row,
        decreases all.len() - i,
    {
        let x = all[i];
        let ghost before = here@;
        let ghost front = all@.take(i as int);
        let ghost next = all@.take(i + 1);
        proof {
            assert(next =~= front.push(x));
            if front.contains(x) {
                let j = choose|j: int| 0 <= j < front.len() && front[j] == x;
                assert(all@[j] == all@[i as int]);
            }
        }
        if x.0 == row {
            here.push(x);
            proof {
                assert(!before.contains(x));
                assert forall|a: int, b: int| 0 <= a < b < here@.len() implies here@[a] != here@[b] by {
                    if b == before.len() {
                        assert(before.contains(before[a]));
                    } else {
                        assert(before[a] != before[b]);
                    }
                }
            }
        }
        proof {
            assert forall|y: Node| #[trigger] here@.contains(y) <==> next.contains(y) && y.0 == row by {
                if before.contains(y) {
                    let j = choose|j: int| 0 <= j < before.len() && before[j] == y;
                    assert(here@[j] == y);
                }
                if front.contains(y) {
                    let j = choose|j: int| 0 <= j < front.len() && front[j] == y;
                    assert(next[j] == y);
                }
                if next.contains(y) {
                    let j = choose|j: int| 0 <= j < next.len() && next[j] == y;
                    if j < i {
                        assert(front[j] == y);
                    }
                }
                if here@.contains(y) && !before.contains(y) {
                    let j = choose|j: int| 0 <= j < here@.len() && here@[j] == y;
                    if j < before.len() {
                        assert(before[j] == y);
                    }
                }
                assert(next[i as int] == x);
                if x.0 == row {
                    assert(here@[before.len() as int] == x);
                }
            }
        }
        i += 1;
    }
    assert(all@.take(all.len() as int) =~= all@);
    here
}

/// Whether every cell of the row south of `row` that is in a set came into
/// it through the cell north of it: that cell is in a set with a lower number
/// than `id`, or in the set `id` and among the first `done` of `here`.
pub open spec fn sunk(
    sets: DisjointSets,
    assigned: Set<Node>,
    row: int,
    id: int,
    here: Seq<Node>,
    done: int,
) -> bool {
    forall|x: Node|
        assigned.contains(x) && x.0 == row + 1 ==> {
            let north = #[trigger] place(row, x.1 as int);
            &&& sets.has(north)
            &&& sets.ids()[north] < id || (sets.ids()[north] == id && exists|j: int|
                0 <= j < done && #[trigger] here[j] == north)
        }
}

/// Whether a list has a cell in a row.
pub open spec fn has_in_row(list: Seq<Node>, row: int) -> bool {
    exists|k: int| 0 <= k < list.len() && (#[trigger] list[k]).0 == row
}

/// Whether every set with cells among the first `upto` has a cell in a row.
pub open spec fn reach_below(lists: Seq<Seq<Node>>, upto: int, row: int) -> bool {
    forall|s: int| 0 <= s < upto && s < lists.len() && (#[trigger] lists[s]).len() > 0 ==> has_in_row(lists[s], row)
}

/// One more cell in a set leaves every set with a cell in the row.
pub proof fn lemma_reach_grown(lists: Seq<Seq<Node>>, id: int, south: Node, row: int)
    requires
        0 <= id < lists.len(),
        lists[id].len() > 0,
        reach_row(lists, row),
    ensures
        reach_row(lists.update(id, lists[id].push(south)), row),
{
    let more = lists.update(id, lists[id].push(south));
    assert forall|s: int| 0 <= s < more.len() && (#[trigger] more[s]).len() > 0 implies exists|k: int|
        0 <= k < more[s].len() && (#[trigger] more[s][k]).0 == row by {
        if s == id {
            let k = choose|k: int| 0 <= k < lists[s].len() && (#[trigger] lists[s][k]).0 == row;
            assert(more[s][k] == lists[s][k]);
        } else {
            let k = choose|k: int| 0 <= k < lists[s].len() && (#[trigger] lists[s][k]).0 == row;
            assert(more[s][k].0 == row);
        }
    }
}

/// One more cell in the set `id` leaves the sets before `upto` as they
/// are, where `upto` is no more than `id`.
pub proof fn lemma_reach_below(lists: Seq<Seq<Node>>, id: int, south: Node, upto: int, row: int)
    requires
        0 <= id < lists.len(),
        upto <= id,
        reach_below(lists, upto, row),
    ensures
        reach_below(lists.update(id, lists[id].push(south)), upto, row),
{
    let more = lists.update(id, lists[id].push(south));
    assert forall|s: int|
        0 <= s < upto && s < more.len() && (#[trigger] more[s]).len() > 0 implies has_in_row(
        more[s],
        row,
    ) by {
        assert(more[s] == lists[s]);
    }
}

/// The sets before `id` and the set `id` make the sets before `id + 1`.
pub proof fn lemma_reach_next(lists: Seq<Seq<Node>>, id: int, row: int)
    requires
        0 <= id < lists.len(),
        reach_below(lists, id, row),
        lists[id].len() > 0 ==> has_in_row(lists[id], row),
    ensures
        reach_below(lists, id + 1, row),
{
}

/// Where every set has a cell in a row, every set has.
pub proof fn lemma_reach_all(lists: Seq<Seq<Node>>, row: int)
    requires
        reach_below(lists, lists.len() as int, row),
    ensures
        reach_row(lists, row),
{
    assert forall|s: int| 0 <= s < lists.len() && (#[trigger] lists[s]).len() > 0 implies exists|k: int|
        0 <= k < lists[s].len() && (#[trigger] lists[s][k]).0 == row by {
        assert(has_in_row(lists[s], row));
    }
}

/// A cell that is passed over leaves the cells south of the row as they are.
pub proof fn lemma_sunk_skip(
    sets: DisjointSets,
    assigned: Set<Node>,
    row: int,
    id: int,
    here: Seq<Node>,
    done: int,
)
    requires
        sunk(sets, assigned, row, id, here, done),
    ensures
        sunk(sets, assigned, row, id, here, done + 1),
{
    assert forall|x: Node| assigned.contains(x) && x.0 == row + 1 implies {
        let north = #[trigger] place(row, x.1 as int);
        &&& sets.has(north)
        &&& sets.ids()[north] < id || (sets.ids()[north] == id && exists|j: int|
            0 <= j < done + 1 && #[trigger] here[j] == north)
    } by {
        let north = place(row, x.1 as int);
        if sets.ids()[north] == id {
            let j = choose|j: int| 0 <= j < done && #[trigger] here[j] == north;
            assert(0 <= j < done + 1 && here[j] == north);
        }
    }
}

/// When a set is done with, the next set begins.
pub proof fn lemma_sunk_next(sets: DisjointSets, assigned: Set<Node>, row: int, id: int, here: Seq<Node>)
    requires
        sunk(sets, assigned, row, id, here, here.len() as int),
    ensures
        sunk(sets, assigned, row, id + 1, Seq::<Node>::empty(), 0),
{
    assert forall|x: Node| assigned.contains(x) && x.0 == row + 1 implies {
        let north = #[trigger] place(row, x.1 as int);
        &&& sets.has(north)
        &&& sets.ids()[north] < id + 1 || (sets.ids()[north] == id + 1 && exists|j: int|
            0 <= j < 0 && #[trigger] Seq::<Node>::empty()[j] == north)
    } by {}
}

/// A cell that is linked to the cell south of it brings that cell into
/// its set.
pub proof fn lemma_sunk_step(
    held: DisjointSets,
    now: DisjointSets,
    assigned: Set<Node>,
    row: int,
    id: usize,
    here: Seq<Node>,
    done: int,
    south: Node,
)
    requires
        0 <= done < here.len(),
        sunk(held, assigned.remove(south), row, id as int, here, done),
        !held.has(south),
        assigned.contains(south),
        now.ids() == held.ids().insert(south, id),
        held.has(here[done]),
        held.ids()[here[done]] == id,
        here[done] == place(row, south.1 as int),
        south.0 == row + 1,
        isize::MIN < row + 1 <= isize::MAX,
    ensures
        sunk(now, assigned, row, id as int, here, done + 1),
{
    assert forall|x: Node| assigned.contains(x) && x.0 == row + 1 implies {
        let north = #[trigger] place(row, x.1 as int);
        &&& now.has(north)
        &&& now.ids()[north] < id || (now.ids()[north] == id && exists|j: int|
            0 <= j < done + 1 && #[trigger] here[j] == north)
    } by {
        let north = place(row, x.1 as int);
        assert(north != south);
        if x == south {
            assert(0 <= done < done + 1 && here[done] == north);
        } else {
            assert(assigned.remove(south).contains(x));
            if held.ids()[north] == id {
                let j = choose|j: int| 0 <= j < done && #[trigger] here[j] == north;
                assert(0 <= j < done + 1 && here[j] == north);
            }
        }
    }
}

/// After the last row was joined, the maze is perfect.
pub proof fn lemma_last_row(
    m: Maze,
    sets: DisjointSets,
    assigned: Set<Node>,
    rows: nat,
    cols: nat,
    row: int,
)
    requires
        0 < rows <= isize::MAX,
        1 <= cols <= isize::MAX,
        row + 1 == rows,
        rowwise(m, sets, assigned, rows, cols, row),
        reach_row(sets.lists(), row),
        forall|c: int| 0 <= c < cols ==> assigned.contains(#[trigger] place(row, c)),
        forall|c: int| 0 <= c < cols ==> sets.together(#[trigger] place(row, c), place(row, 0)),
    ensures
        m.is_perfect(),
        rowwise(m, sets, assigned, rows, cols, row + 1),
{
    let ids = sets.ids();
    let lists = sets.lists();
    let first = place(row, 0);
    let s0 = ids[first];
    lemma_grid_cells_distinct(rows, cols);
    assert forall|x: Node| #[trigger] m.has_cell(x) implies assigned.contains(x) by {
        lemma_grid_cells_contains(rows, cols, x);
        if x.0 == row {
            assert(x == place(row, x.1 as int));
        }
    }
    assert(assigned =~= m.cells.to_set()) by {
        assert forall|x: Node| assigned.contains(x) <==> m.cells.to_set().contains(x) by {
            if assigned.contains(x) {
                assert(ids.dom().contains(x));
            }
            if m.cells.to_set().contains(x) {
                assert(m.has_cell(x));
            }
        }
    }
    m.cells.unique_seq_to_set();
    lemma_grid_cells_contains(rows, cols, first);
    assert(m.cells.len() > 0) by {
        assert(m.has_cell(first));
    }
    assert forall|c: Node| #[trigger] m.has_cell(c) implies ids.dom().contains(c) && ids[c] == s0 by {
        assert(assigned.contains(c));
        let s = ids[c] as int;
        assert(sets.has(c));
        assert(lists[s].contains(c));
        let k = choose|k: int| 0 <= k < lists[s].len() && (#[trigger] lists[s][k]).0 == row;
        let y = lists[s][k];
        assert(sets.has(y) && ids[y] == s);
        assert(m.has_cell(y));
        lemma_grid_cells_contains(rows, cols, y);
        assert(y == place(row, y.1 as int));
        assert(sets.together(place(row, y.1 as int), place(row, 0)));
    }
    lemma_forest_one_set(m, ids, lists, s0);
}

impl Grid<Regular> {
    /// Links cells of a row to the cells south of them: of every set, the
    /// cells that lie in the row are taken in random order, and the first of
    /// them, and each of the others with a chance of one in three, is linked
    /// to the cell south of it, which joins the set.
    fn descend(&mut self, sets: &mut DisjointSets, row: usize, Ghost(assigned): Ghost<Set<Node>>) -> (now:
        Ghost<Set<Node>>)
        requires
            old(self).wf(),
            row + 1 < old(self).kind().rows,
            old(self).kind().cols >= 1,
            rowwise(
                old(self)@,
                *old(sets),
                assigned,
                old(self).kind().rows as nat,
                old(self).kind().cols as nat,
                row as int,
            ),
            reach_row(old(sets).lists(), row as int),
            forall|c: int| 0 <= c < old(self).kind().cols ==> assigned.contains(#[trigger] place(row as int, c)),
        ensures
            final(self).wf(),
            final(self).kind() == old(self).kind(),
            final(self).marks() == old(self).marks(),
            rowwise(
                final(self)@,
                *final(sets),
                now@,
                old(self).kind().rows as nat,
                old(self).kind().cols as nat,
                row + 1,
            ),
            reach_row(final(sets).lists(), row + 1),
    {
        let rows = self.topology().rows;
        let cols = self.topology().cols;
        let count = sets.count();
        let mut assigned = Ghost(assigned);
        let mut id: usize = 0;
        proof {
            assert forall|x: Node| #[trigger] self@.has_cell(x) && x.0 < row + 1 implies assigned@.contains(
                x,
            ) by {
                lemma_grid_cells_contains(rows as nat, cols as nat, x);
                if x.0 == row {
                    assert(x == place(row as int, x.1 as int));
                }
            }
        }
        while id < count
            invariant
                id <= count,
                count == sets.lists().len(),
                row + 1 < rows,
                cols >= 1,
                self.wf(),
                self.kind() == old(self).kind(),
                self.marks() == old(self).marks(),
                rows == self.kind().rows,
                cols == self.kind().cols,
                rowwise(self@, *sets, assigned@, rows as nat, cols as nat, row + 1),
                reach_row(sets.lists(), row as int),
                sunk(*sets, assigned@, row as int, id as int, Seq::<Node>::empty(), 0),
                reach_below(sets.lists(), id as int, row + 1),
            decreases count - id,
        {
            let mut here = row_members(sets, id, row as isize);
            let ghost found = here@;
            shuffle(&mut here);
            proof {
                found.lemma_multiset_has_no_duplicates();
                here@.lemma_multiset_has_no_duplicates_conv();
                assert forall|x: Node| #[trigger]
                    here@.contains(x) <==> sets.lists()[id as int].contains(x) && x.0 == row by {
                    vstd::seq_lib::to_multiset_contains(found, x);
                    vstd::seq_lib::to_multiset_contains(here@, x);
                }
            }
            let ghost was = sets.lists()[id as int];
            let mut idx: usize = 0;
            while idx < here.len()
                invariant
                    idx <= here.len(),
                    id < count,
                    count == sets.lists().len(),
                    row + 1 < rows,
                    cols >= 1,
                    self.wf(),
                    self.kind() == old(self).kind(),
                    self.marks() == old(self).marks(),
                    rows == self.kind().rows,
                    cols == self.kind().cols,
                    rowwise(self@, *sets, assigned@, rows as nat, cols as nat, row + 1),
                    reach_row(sets.lists(), row as int),
                    sunk(*sets, assigned@, row as int, id as int, here@, idx as int),
                    here@.no_duplicates(),
                    forall|x: Node| #[trigger] here@.contains(x) ==> sets.has(x) && sets.ids()[x] == id
                        && x.0 == row,
                    forall|x: Node| was.contains(x) && x.0 == row ==> #[trigger] here@.contains(x),
                    was.len() > 0 ==> sets.lists()[id as int].len() > 0,
                    forall|k: int| 0 <= k < was.len() ==> sets.lists()[id as int].contains(#[trigger] was[k]),
                    idx > 0 ==> has_in_row(sets.lists()[id as int], row + 1),
                    idx == 0 ==> sets.lists()[id as int] == was,
                    reach_below(sets.lists(), id as int, row + 1),
                decreases here.len() - idx,
            {
                if idx == 0 || random_range(0, 3) == 0 {
                    let cell = here[idx];
                    let south: Node = ((row + 1) as isize, cell.1, 0);
                    let ghost before = self@;
                    let ghost held = *sets;
                    proof {
                        assert(here@.contains(cell));
                        assert(before.has_cell(cell));
                        lemma_grid_cells_contains(rows as nat, cols as nat, cell);
                        lemma_grid_cells_contains(rows as nat, cols as nat, south);
                        assert(cell == place(row as int, cell.1 as int));
                        if assigned@.contains(south) {
                            assert(place(row as int, south.1 as int) == cell);
                            let j = choose|j: int| 0 <= j < idx && #[trigger] here@[j] == cell;
                            assert(here@[j] == here@[idx as int]);
                        }
                        lemma_forest_grown(
                            before,
                            sets.ids(),
                            sets.lists(),
                            assigned@.len(),
                            cell,
                            south,
                        );
                    }
                    self.link(
                        RegularCell::new(row as isize, cell.1),
                        RegularCell::new((row + 1) as isize, cell.1),
                    );
                    sets.adopt(id, south);
                    assigned = Ghost(assigned@.insert(south));
                    proof {
                        crate::model::lemma_connect_links(before, cell, south);
                        assert(sets.lists() =~= held.lists().update(
                            id as int,
                            held.lists()[id as int].push(south),
                        ));
                        assert(sets.ids().dom() =~= assigned@);
                        lemma_sunk_step(
                            held,
                            *sets,
                            assigned@,
                            row as int,
                            id,
                            here@,
                            idx as int,
                            south,
                        );
                        assert(held.lists()[id as int].contains(cell));
                        lemma_reach_grown(held.lists(), id as int, south, row as int);
                        lemma_reach_below(held.lists(), id as int, south, id as int, row + 1);
                        assert forall|x: Node| #[trigger] self@.has_cell(x) && x.0 < row
                            + 1 implies assigned@.contains(x) by {
                            assert(before.has_cell(x));
                        }
                        let grown = sets.lists()[id as int];
                        assert(grown[held.lists()[id as int].len() as int] == south);
                        assert(has_in_row(grown, row + 1));
                        assert forall|k: int| 0 <= k < was.len() implies grown.contains(
                            #[trigger] was[k],
                        ) by {
                            let j = choose|j: int|
                                0 <= j < held.lists()[id as int].len() && held.lists()[id as int][j]
                                    == was[k];
                            assert(grown[j] == was[k]);
                        }
                    }
                } else {
                    proof {
                        lemma_sunk_skip(*sets, assigned@, row as int, id as int, here@, idx as int);
                    }
                }
                idx += 1;
            }
            proof {
                lemma_sunk_next(*sets, assigned@, row as int, id as int, here@);
                let list = sets.lists()[id as int];
                if list.len() > 0 && here.len() == 0 {
                    assert(list == was);
                    let k = choose|k: int| 0 <= k < was.len() && (#[trigger] was[k]).0 == row;
                    assert(was.contains(was[k]));
                    assert(here@.contains(was[k]));
                    let j = choose|j: int| 0 <= j < here@.len() && here@[j] == was[k];
                }
                lemma_reach_next(sets.lists(), id as int, row + 1);
            }
            id += 1;
        }
        proof {
            lemma_reach_all(sets.lists(), row + 1);
        }
        assigned
    }

    /// Passes through the grid row by row. In every row each cell that is in
    /// no set yet gets a set of its own, and the cells are joined from west
    /// to east (cells in different sets are linked and their sets merged, in
    /// the last row always and as a coin falls else). Then, in every row but
    /// the last, cells of every set are linked to the cells south of them,
    /// which join their sets: one cell of the set at least.
    ///
    /// Every link joins two cells side by side, and in a grid with a cell
    /// the result is a perfect maze.
    pub fn ellers(self) -> (maze: Self)
        requires
            self.wf(),
            self@.edges =~= Set::<(Node, Node)>::empty(),
        ensures
            maze.wf(),
            maze.kind() == self.kind(),
            maze.marks() == self.marks(),
            maze@.cells == self@.cells,
            maze@.extends(self@),
            forall|a: Node, b: Node| #[trigger]
                maze@.linked(a, b) ==> crate::generators::recursive_division::beside(a, b),
            self.kind().rows >= 1 && self.kind().cols >= 1 ==> maze@.is_perfect(),
    {
        let rows = self.topology().rows;
        let cols = self.topology().cols;
        if cols < 1 {
            return self;
        }
        let mut grid = self;
        let mut sets = DisjointSets::new();
        let mut assigned: Ghost<Set<Node>> = Ghost(Set::empty());
        let mut row: usize = 0;
        proof {
            assert(sets.ids().dom() =~= assigned@);
            crate::sets::lemma_live_none(sets.lists());
            assert(grid@.edges.len() == 0);
            assert forall|a: Node, b: Node| #[trigger] grid@.linked(a, b) implies sets.ids().dom().contains(
                a,
            ) && sets.ids().dom().contains(b) && sets.ids()[a] == sets.ids()[b] by {}
            assert forall|x: Node| #[trigger] grid@.has_cell(x) && x.0 < 0 implies assigned@.contains(
                x,
            ) by {
                lemma_grid_cells_contains(rows as nat, cols as nat, x);
            }
            assert(is_forest(grid@, sets.ids(), sets.lists(), assigned@.len()));
            assert(rowwise(grid@, sets, assigned@, rows as nat, cols as nat, 0));
        }
        while row < rows
            invariant
                row <= rows,
                cols >= 1,
                grid.wf(),
                grid.kind() == self.kind(),
                grid.marks() == self.marks(),
                rows == grid.kind().rows,
                cols == grid.kind().cols,
                grid@.cells == self@.cells,
                rowwise(grid@, sets, assigned@, rows as nat, cols as nat, row as int),
                row < rows ==> reach_row(sets.lists(), row as int),
                row == rows && rows >= 1 ==> grid@.is_perfect(),
            decreases rows - row,
        {
            assigned = grid.join_row(&mut sets, row, Ghost(assigned@));
            if row + 1 < rows {
                assigned = grid.descend(&mut sets, row, Ghost(assigned@));
            } else {
                proof {
                    lemma_last_row(grid@, sets, assigned@, rows as nat, cols as nat, row as int);
                }
            }
            row += 1;
        }
        grid
    }
}

} // verus!
