//! Disjoint sets of cells, as the generators that merge sets keep them: a
//! set number for every cell, and the cells of every set.

use crate::cell_map::map_entries;
use crate::cell_map::map_get;
use crate::cell_map::map_insert;
use crate::cell_map::map_new;
use crate::cell_map::set_entries;
use crate::cell_map::set_map_get;
use crate::cell_map::set_map_insert;
use crate::cell_map::set_map_new;
use crate::cell_map::set_map_remove;
use crate::cell_map::CellMap;
use crate::cell_map::SetMap;
use crate::graph::Node;
use vstd::prelude::*;

verus! {

/// Disjoint sets of cells. Sets are numbered, and a number may stand for a
/// set without cells: the numbers below `in_use` are in use, and the map
/// holds the cells of those sets that have any had.
pub struct DisjointSets {
    pub(crate) set_for_cell: CellMap,
    pub(crate) cells_in_set: SetMap,
    pub(crate) in_use: usize,
}

/// The number of lists that are not empty.
pub open spec fn live(lists: Seq<Seq<Node>>) -> nat
    decreases lists.len(),
{
    if lists.len() == 0 {
        0
    } else {
        live(lists.drop_last()) + (if lists.last().len() > 0 {
            1nat
        } else {
            0nat
        })
    }
}

/// Replacing one list changes the number of lists that are not empty by
/// what the one list contributes.
pub proof fn lemma_live_update(lists: Seq<Seq<Node>>, i: int, list: Seq<Node>)
    requires
        0 <= i < lists.len(),
    ensures
        live(lists.update(i, list)) + (if lists[i].len() > 0 {
            1int
        } else {
            0int
        }) == live(lists) + (if list.len() > 0 {
            1int
        } else {
            0int
        }),
    decreases lists.len(),
{
    let changed = lists.update(i, list);
    if i == lists.len() - 1 {
        assert(changed.drop_last() =~= lists.drop_last());
    } else {
        lemma_live_update(lists.drop_last(), i, list);
        assert(changed.drop_last() =~= lists.drop_last().update(i, list));
    }
}

/// One more list makes one more list that is not empty, if it is not.
pub proof fn lemma_live_push(lists: Seq<Seq<Node>>, list: Seq<Node>)
    ensures
        live(lists.push(list)) == live(lists) + (if list.len() > 0 {
            1nat
        } else {
            0nat
        }),
{
    assert(lists.push(list).drop_last() =~= lists);
}

/// Where only one list is not empty, the number of such lists is one.
pub proof fn lemma_live_one(lists: Seq<Seq<Node>>, i: int)
    requires
        0 <= i < lists.len(),
        lists[i].len() > 0,
        forall|j: int| 0 <= j < lists.len() && j != i ==> (#[trigger] lists[j]).len() == 0,
    ensures
        live(lists) == 1,
    decreases lists.len(),
{
    let front = lists.drop_last();
    if i == lists.len() - 1 {
        lemma_live_none(front);
    } else {
        lemma_live_one(front, i);
    }
}

/// Where every list is empty, none is not.
pub proof fn lemma_live_none(lists: Seq<Seq<Node>>)
    requires
        forall|j: int| 0 <= j < lists.len() ==> (#[trigger] lists[j]).len() == 0,
    ensures
        live(lists) == 0,
    decreases lists.len(),
{
    if lists.len() > 0 {
        lemma_live_none(lists.drop_last());
    }
}

/// Whether set numbers and lists of cells agree: a cell is listed in the set
/// whose number it has, once, and in no other.
pub open spec fn agree(ids: Map<Node, usize>, lists: Seq<Seq<Node>>) -> bool {
    &&& forall|c: Node| #[trigger]
        ids.dom().contains(c) ==> ids[c] < lists.len() && lists[ids[c] as int].contains(c)
    &&& forall|s: int, k: int|
        0 <= s < lists.len() && 0 <= k < lists[s].len() ==> ids.dom().contains(
            #[trigger] lists[s][k],
        ) && ids[lists[s][k]] == s
    &&& forall|s: int| 0 <= s < lists.len() ==> (#[trigger] lists[s]).no_duplicates()
}

/// More numbers in use, for sets without cells, change nothing.
pub proof fn lemma_agree_grown(ids: Map<Node, usize>, lists: Seq<Seq<Node>>, more: Seq<Seq<Node>>)
    requires
        agree(ids, lists),
        lists.len() <= more.len(),
        forall|s: int|
            0 <= s < more.len() ==> #[trigger] more[s] == (if s < lists.len() {
                lists[s]
            } else {
                Seq::<Node>::empty()
            }),
    ensures
        agree(ids, more),
{
    assert forall|c: Node| #[trigger] ids.dom().contains(c) implies ids[c] < more.len()
        && more[ids[c] as int].contains(c) by {
        assert(more[ids[c] as int] == lists[ids[c] as int]);
    }
    assert forall|s: int, k: int| 0 <= s < more.len() && 0 <= k < more[s].len() implies ids.dom().contains(
        #[trigger] more[s][k],
    ) && ids[more[s][k]] == s by {
        assert(more[s] == lists[s]);
    }
    assert forall|s: int| 0 <= s < more.len() implies (#[trigger] more[s]).no_duplicates() by {
        if s < lists.len() {
            assert(more[s] == lists[s]);
        }
    }
}

/// A new set without cells changes nothing.
pub proof fn lemma_agree_more(ids: Map<Node, usize>, lists: Seq<Seq<Node>>)
    requires
        agree(ids, lists),
    ensures
        agree(ids, lists.push(Seq::<Node>::empty())),
{
    let more = lists.push(Seq::<Node>::empty());
    assert forall|c: Node| #[trigger] ids.dom().contains(c) implies ids[c] < more.len()
        && more[ids[c] as int].contains(c) by {
        assert(more[ids[c] as int] == lists[ids[c] as int]);
    }
    assert forall|s: int, k: int| 0 <= s < more.len() && 0 <= k < more[s].len() implies ids.dom().contains(
        #[trigger] more[s][k],
    ) && ids[more[s][k]] == s by {
        assert(more[s] == lists[s]);
    }
    assert forall|s: int| 0 <= s < more.len() implies (#[trigger] more[s]).no_duplicates() by {
        if s < lists.len() {
            assert(more[s] == lists[s]);
        }
    }
}

/// A cell that was in no set may join any set.
pub proof fn lemma_agree_adopt(ids: Map<Node, usize>, lists: Seq<Seq<Node>>, id: usize, c: Node)
    requires
        agree(ids, lists),
        !ids.dom().contains(c),
        id < lists.len(),
    ensures
        agree(ids.insert(c, id), lists.update(id as int, lists[id as int].push(c))),
{
    let after = ids.insert(c, id);
    let more = lists.update(id as int, lists[id as int].push(c));
    assert forall|x: Node| #[trigger] after.dom().contains(x) implies after[x] < more.len()
        && more[after[x] as int].contains(x) by {
        if x == c {
            assert(more[id as int][lists[id as int].len() as int] == c);
        } else {
            let s = ids[x] as int;
            let k = choose|k: int| 0 <= k < lists[s].len() && lists[s][k] == x;
            assert(more[s][k] == x);
        }
    }
    assert forall|s: int, k: int| 0 <= s < more.len() && 0 <= k < more[s].len() implies after.dom().contains(
        #[trigger] more[s][k],
    ) && after[more[s][k]] == s by {
        if s == id && k == lists[s].len() {
        } else {
            assert(more[s][k] == lists[s][k]);
            assert(ids.dom().contains(lists[s][k]));
        }
    }
    assert forall|s: int| 0 <= s < more.len() implies (#[trigger] more[s]).no_duplicates() by {
        assert(lists[s].no_duplicates());
        if s == id {
            assert forall|i: int| 0 <= i < lists[s].len() implies lists[s][i] != c by {
                assert(ids.dom().contains(lists[s][i]));
            }
        }
    }
}

/// The set numbers after the set `right` was merged into the set `left`.
pub open spec fn merged_ids(ids: Map<Node, usize>, left: usize, right: usize) -> Map<Node, usize> {
    Map::new(
        |c: Node| ids.dom().contains(c),
        |c: Node|
            if ids[c] == right {
                left
            } else {
                ids[c]
            },
    )
}

/// The lists after the set `right` was merged into the set `left`.
pub open spec fn merged_lists(lists: Seq<Seq<Node>>, left: usize, right: usize) -> Seq<Seq<Node>> {
    lists.update(left as int, lists[left as int] + lists[right as int]).update(
        right as int,
        Seq::<Node>::empty(),
    )
}

/// Merging one set into another keeps numbers and lists in agreement, and
/// leaves one set fewer that is not empty if neither was.
pub proof fn lemma_agree_merged(ids: Map<Node, usize>, lists: Seq<Seq<Node>>, left: usize, right: usize)
    requires
        agree(ids, lists),
        left < lists.len(),
        right < lists.len(),
        left != right,
    ensures
        agree(merged_ids(ids, left, right), merged_lists(lists, left, right)),
        lists[left as int].len() > 0 && lists[right as int].len() > 0 ==> live(
            merged_lists(lists, left, right),
        ) + 1 == live(lists),
{
    let after = merged_ids(ids, left, right);
    let more = merged_lists(lists, left, right);
    let l = lists[left as int];
    let r = lists[right as int];
    assert forall|x: Node| #[trigger] after.dom().contains(x) implies after[x] < more.len()
        && more[after[x] as int].contains(x) by {
        let s = ids[x] as int;
        let k = choose|k: int| 0 <= k < lists[s].len() && lists[s][k] == x;
        if s == right {
            assert((l + r)[l.len() + k] == x);
        } else if s == left {
            assert((l + r)[k] == x);
        } else {
            assert(more[s][k] == x);
        }
    }
    assert forall|s: int, k: int| 0 <= s < more.len() && 0 <= k < more[s].len() implies after.dom().contains(
        #[trigger] more[s][k],
    ) && after[more[s][k]] == s by {
        if s == left {
            if k < l.len() {
                assert(more[s][k] == l[k]);
                assert(ids.dom().contains(lists[left as int][k]));
            } else {
                assert(more[s][k] == r[k - l.len()]);
                assert(ids.dom().contains(lists[right as int][k - l.len()]));
            }
        } else {
            assert(more[s][k] == lists[s][k]);
            assert(ids.dom().contains(lists[s][k]));
        }
    }
    assert forall|s: int| 0 <= s < more.len() implies (#[trigger] more[s]).no_duplicates() by {
        assert(lists[s].no_duplicates());
        if s == left {
            assert forall|i: int, j: int| 0 <= i < l.len() && 0 <= j < r.len() implies l[i]
                != r[j] by {
                assert(ids.dom().contains(lists[left as int][i]));
                assert(ids.dom().contains(lists[right as int][j]));
            }
            vstd::seq_lib::lemma_no_dup_in_concat(l, r);
        }
    }
    let mid = lists.update(left as int, l + r);
    lemma_live_update(lists, left as int, l + r);
    lemma_live_update(mid, right as int, Seq::<Node>::empty());
}

impl DisjointSets {
    /// The number of the set of every cell that is in a set.
    pub open(crate) spec fn ids(&self) -> Map<Node, usize> {
        map_entries(self.set_for_cell)
    }

    /// The cells of every set, by the number of the set.
    pub open(crate) spec fn lists(&self) -> Seq<Seq<Node>> {
        Seq::new(
            self.in_use as nat,
            |s: int|
                if set_entries(self.cells_in_set).dom().contains(s as usize) {
                    set_entries(self.cells_in_set)[s as usize]
                } else {
                    Seq::empty()
                },
        )
    }

    /// Whether the map holds lists for numbers in use only.
    pub open(crate) spec fn tidy(&self) -> bool {
        forall|k: usize| #[trigger] set_entries(self.cells_in_set).dom().contains(k) ==> k < self.in_use
    }

    /// Whether a cell is in a set.
    pub open spec fn has(&self, c: Node) -> bool {
        self.ids().dom().contains(c)
    }

    /// Whether two cells have the same set number.
    pub open spec fn together(&self, a: Node, b: Node) -> bool {
        self.ids()[a] == self.ids()[b]
    }

    /// The numbers and the lists agree: a cell is listed in the set whose
    /// number it has, once, and in no other.
    pub open spec fn wf(&self) -> bool {
        agree(self.ids(), self.lists()) && self.tidy()
    }

    /// No sets.
    pub fn new() -> (sets: Self)
        ensures
            sets.wf(),
            sets.lists().len() == 0,
            forall|c: Node| !sets.has(c),
    {
        Self { set_for_cell: map_new(), cells_in_set: set_map_new(), in_use: 0 }
    }

    /// The number of set numbers in use.
    pub fn count(&self) -> (n: usize)
        ensures
            n == self.lists().len(),
    {
        self.in_use
    }

    /// The number of the set that a cell is in.
    pub fn find(&self, cell: Node) -> (id: Option<usize>)
        ensures
            id == if self.has(cell) {
                Some(self.ids()[cell])
            } else {
                None
            },
    {
        map_get(&self.set_for_cell, cell)
    }

    /// Whether two cells, each in a set, are in the same set.
    pub fn same_set(&self, left: Node, right: Node) -> (same: bool)
        requires
            self.has(left),
            self.has(right),
        ensures
            same == (self.ids()[left] == self.ids()[right]),
    {
        let a = map_get(&self.set_for_cell, left).unwrap();
        let b = map_get(&self.set_for_cell, right).unwrap();
        a == b
    }

    /// The cells of a set.
    pub fn members(&self, id: usize) -> (list: Vec<Node>)
        requires
            id < self.lists().len(),
        ensures
            list@ == self.lists()[id as int],
    {
        match set_map_get(&self.cells_in_set, id) {
            Some(list) => list,
            None => Vec::new(),
        }
    }

    /// Puts a cell that is in no set into the set with a number, which may
    /// be a number that was not in use: the numbers up to it are in use
    /// then.
    pub fn adopt(&mut self, id: usize, cell: Node)
        requires
            old(self).wf(),
            !old(self).has(cell),
            id < usize::MAX,
        ensures
            final(self).wf(),
            final(self).ids() == old(self).ids().insert(cell, id),
            final(self).lists().len() == if id < old(self).lists().len() {
                old(self).lists().len()
            } else {
                (id + 1) as nat
            },
            forall|s: int|
                0 <= s < final(self).lists().len() ==> #[trigger] final(self).lists()[s] == (if s
                    == id {
                    (if s < old(self).lists().len() {
                        old(self).lists()[s]
                    } else {
                        Seq::<Node>::empty()
                    }).push(cell)
                } else if s < old(self).lists().len() {
                    old(self).lists()[s]
                } else {
                    Seq::<Node>::empty()
                }),
    {
        let ghost was = self.lists();
        let ghost numbers = self.ids();
        if self.in_use <= id {
            self.in_use = id + 1;
        }
        let ghost before = self.lists();
        proof {
            assert forall|s: int| 0 <= s < before.len() implies #[trigger] before[s] == (if s
                < was.len() {
                was[s]
            } else {
                Seq::<Node>::empty()
            }) by {}
            lemma_agree_grown(numbers, was, before);
        }
        let mut list = self.members(id);
        list.push(cell);
        set_map_insert(&mut self.cells_in_set, id, list);
        map_insert(&mut self.set_for_cell, cell, id);
        proof {
            lemma_agree_adopt(numbers, before, id, cell);
            assert(self.lists() =~= before.update(id as int, before[id as int].push(cell)));
        }
    }

    /// Merges the set with the number `right` into the set with the number
    /// `left`: the cells of the one come behind those of the other, and the
    /// number `right` stands for a set without cells.
    pub fn union(&mut self, left: usize, right: usize)
        requires
            old(self).wf(),
            left < old(self).lists().len(),
            right < old(self).lists().len(),
            left != right,
        ensures
            final(self).wf(),
            final(self).ids() == merged_ids(old(self).ids(), left, right),
            final(self).lists() == merged_lists(old(self).lists(), left, right),
    {
        let moved = self.members(right);
        let mut list = self.members(left);
        let ghost ids = self.ids();
        let ghost lists = self.lists();
        let ghost l = lists[left as int];
        let ghost r = lists[right as int];
        let mut i: usize = 0;
        while i < moved.len()
            invariant
                i <= moved.len(),
                moved@ == r,
                list@ == l + r.take(i as int),
                self.lists() == lists,
                self.tidy(),
                left < self.in_use,
                agree(ids, lists),
                right < lists.len(),
                r == lists[right as int],
                self.ids().dom() == ids.dom(),
                forall|c: Node|
                    ids.dom().contains(c) ==> #[trigger] self.ids()[c] == (if ids[c] == right
                        && r.take(i as int).contains(c) {
                        left
                    } else {
                        ids[c]
                    }),
            decreases moved.len() - i,
        {
            let cell = moved[i];
            proof {
                assert(ids.dom().contains(lists[right as int][i as int]));
                assert(r.take(i + 1) =~= r.take(i as int).push(cell));
                assert(self.ids().insert(cell, left).dom() =~= ids.dom());
            }
            let ghost before = self.ids();
            map_insert(&mut self.set_for_cell, cell, left);
            list.push(cell);
            proof {
                assert(list@ =~= l + r.take(i + 1));
                assert forall|c: Node| ids.dom().contains(c) implies #[trigger] self.ids()[c] == (
                if ids[c] == right && r.take(i + 1).contains(c) {
                    left
                } else {
                    ids[c]
                }) by {
                    if c == cell {
                        assert(r.take(i + 1)[i as int] == cell);
                    } else {
                        let short = r.take(i as int);
                        let long = r.take(i + 1);
                        if short.contains(c) {
                            let k = choose|k: int| 0 <= k < short.len() && short[k] == c;
                            assert(long[k] == c);
                        }
                        if long.contains(c) {
                            let k = choose|k: int| 0 <= k < long.len() && long[k] == c;
                            assert(short[k] == c);
                        }
                    }
                }
            }
            i += 1;
        }
        set_map_insert(&mut self.cells_in_set, left, list);
        set_map_remove(&mut self.cells_in_set, right);
        proof {
            assert(r.take(r.len() as int) =~= r);
            lemma_agree_merged(ids, lists, left, right);
            assert(self.lists() =~= merged_lists(lists, left, right));
            assert forall|c: Node| ids.dom().contains(c) implies self.ids()[c] == merged_ids(
                ids,
                left,
                right,
            )[c] by {
                if ids[c] == right {
                    assert(lists[right as int].contains(c));
                }
            }
            assert(self.ids() =~= merged_ids(ids, left, right));
        }
    }
}

} // verus!
