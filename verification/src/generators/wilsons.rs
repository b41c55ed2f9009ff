//! Wilson's algorithm: loop-erased random walks from cells outside the tree
//! to the tree.

use crate::cell::nodes_of;
use crate::cell::CellKind;
use crate::generators::growing_tree::position_of;
use crate::graph::swap_removed;
use crate::graph::Node;
use crate::grid::Grid;
use crate::kind::Kind;
use crate::model::lemma_joined_symmetric;
use crate::model::Maze;
use crate::random::choose_index;
use crate::random::random_range;
use crate::weighted::lemma_swap_removed;
use vstd::prelude::*;

verus! {

/// The path of a walk after a step to `cell`: cut back to `cell` where the
/// path holds it already, so that the loop is gone, and with `cell` at its
/// end else.
pub open spec fn loop_erased(path: Seq<Node>, cell: Node) -> Seq<Node> {
    if path.contains(cell) {
        path.take(path.index_of(cell) + 1)
    } else {
        path.push(cell)
    }
}

/// Takes a step of a loop-erased walk (see [`loop_erased`]).
pub fn erase_loop<C: CellKind>(path: &mut Vec<C>, cell: C)
    requires
        nodes_of(old(path)@).no_duplicates(),
        old(path).len() > 0,
    ensures
        nodes_of(final(path)@) == loop_erased(nodes_of(old(path)@), cell.node()),
        final(path)[0].node() == old(path)[0].node(),
        nodes_of(final(path)@).no_duplicates(),
        final(path).len() > 0,
        final(path)[final(path).len() - 1].node() == cell.node(),
        forall|i: int|
            0 <= i < final(path).len() - 1 ==> nodes_of(old(path)@).contains(
                (#[trigger] final(path)[i]).node(),
            ),
{
    let ghost before = nodes_of(path@);
    match position_of(path, &cell) {
        Some(pos) => {
            proof {
                assert(before[pos as int] == cell.node());
                assert(before.contains(cell.node()));
                let at = before.index_of(cell.node());
                assert(before[at] == cell.node());
            }
            path.truncate(pos + 1);
            assert(nodes_of(path@) =~= before.take(pos + 1));
            assert forall|i: int| 0 <= i < path.len() - 1 implies before.contains(
                (#[trigger] path[i]).node(),
            ) by {
                assert(before[i] == path[i].node());
            }
        },
        None => {
            path.push(cell);
            assert(nodes_of(path@) =~= before.push(cell.node()));
            assert forall|i: int, j: int| 0 <= i < j < path.len() implies nodes_of(path@)[i]
                != nodes_of(path@)[j] by {
                if j == path.len() - 1 {
                    assert(before.contains(before[i]));
                }
            }
            assert forall|i: int| 0 <= i < path.len() - 1 implies before.contains(
                (#[trigger] path[i]).node(),
            ) by {
                assert(before[i] == path[i].node());
            }
        },
    }
}

/// Whether `outside` lists exactly the cells of `origin` that are not in
/// the tree grown from `root` in `m`, each once, and every cell that `m` has
/// beyond those of `origin` is in the tree.
pub open spec fn left_outside(origin: Maze, m: Maze, root: Node, outside: Seq<Node>) -> bool {
    &&& outside.no_duplicates()
    &&& forall|n: Node| #[trigger]
        outside.contains(n) <==> origin.has_cell(n) && !m.touched(root).contains(n)
    &&& forall|n: Node| !origin.has_cell(n) && #[trigger] m.has_cell(n) ==> m.touched(root).contains(n)
}

/// Linking a cell outside the tree to a cell of the tree, and taking it
/// off the list of cells outside, keeps the list right.
pub proof fn lemma_left_outside(
    origin: Maze,
    m: Maze,
    post: Maze,
    root: Node,
    outside: Seq<Node>,
    at: int,
    next: Node,
)
    requires
        m.wf(),
        m.extends(origin),
        m.grown_from(root),
        left_outside(origin, m, root, outside),
        0 <= at < outside.len(),
        m.touched(root).contains(next),
        crate::model::joined(m, outside[at], next, post),
    ensures
        post.grown_from(root),
        post.extends(origin),
        left_outside(origin, post, root, swap_removed(outside, at)),
        post.touched(root).contains(outside[at]),
        m.touched(root).subset_of(post.touched(root)),
        post.cells.len() - post.touched(root).len() == m.cells.len() - m.touched(root).len() - 1,
{
    let c = outside[at];
    let rest = swap_removed(outside, at);
    let was = m.touched(root);
    let now = post.touched(root);
    assert(outside.contains(c));
    assert(origin.has_cell(c) && !was.contains(c));
    m.lemma_extends_cell(origin, c);
    assert(m.unlinked(c) && c != root);
    assert(m.has_cell(next));
    lemma_joined_symmetric(m, c, next, post);
    m.lemma_grow(root, next, c, post);
    m.lemma_grow_only(root, next, c, post);
    lemma_swap_removed(outside, at);
    assert forall|n: Node| #[trigger] rest.contains(n) implies origin.has_cell(n) && !now.contains(
        n,
    ) by {
        assert(outside.contains(n) && n != c);
        m.lemma_extends_cell(origin, n);
        assert(!was.contains(n));
        assert(n != next);
    }
    assert forall|n: Node| origin.has_cell(n) && !now.contains(n) implies #[trigger] rest.contains(
        n,
    ) by {
        assert(!was.contains(n));
        assert(outside.contains(n));
    }
    assert forall|n: Node| !origin.has_cell(n) && #[trigger] post.has_cell(n) implies now.contains(
        n,
    ) by {
        if m.has_cell(n) {
            assert(was.contains(n));
        }
    }
}

/// The maze after every cell of a path, from the place `from` on, was linked
/// to the next, the last link first.
pub open spec fn laid<K: Kind>(kind: K, m: Maze, path: Seq<Node>, from: int) -> Maze
    decreases path.len() - from,
{
    if from < 0 || from >= path.len() - 1 {
        m
    } else {
        kind.linking(laid(kind, m, path, from + 1), path[from], path[from + 1])
    }
}

impl<K: Kind> Grid<K> {
    /// Whether every cell of a path lies near the next (see
    /// [`Kind::near`]).
    pub open spec fn path_near(&self, path: Seq<Node>) -> bool {
        forall|i: int|
            0 <= i < path.len() - 1 ==> self.kind().near(self@.cells, #[trigger] path[i], path[i + 1])
    }

    /// A step of a loop-erased walk to a cell adjacent to its last cell
    /// keeps every cell of the path near the next.
    pub proof fn lemma_path_near(&self, path: Seq<Node>, cell: Node)
        requires
            self.wf(),
            path.len() > 0,
            self.path_near(path),
            self.kind().adjacent(self@, path.last()).contains(cell),
        ensures
            self.path_near(loop_erased(path, cell)),
    {
        self.kind().lemma_near(self@, path.last(), cell);
        let now = loop_erased(path, cell);
        assert forall|i: int| 0 <= i < now.len() - 1 implies self.kind().near(
            self@.cells,
            #[trigger] now[i],
            now[i + 1],
        ) by {
            if path.contains(cell) {
                assert(now[i] == path[i] && now[i + 1] == path[i + 1]);
            } else if i < path.len() - 1 {
                assert(now[i] == path[i] && now[i + 1] == path[i + 1]);
            }
        }
    }

    /// Links every cell of a walk's path to the next, from the end of the
    /// path backwards (see [`laid`]), and takes each cell that joins the
    /// tree in this way off the list of cells outside the tree.
    fn link_path(
        &mut self,
        path: &Vec<K::Cell>,
        unvisited: &mut Vec<K::Cell>,
        Ghost(origin): Ghost<Maze>,
        Ghost(root): Ghost<Node>,
    )
        requires
            old(self).wf(),
            old(self)@.extends(origin),
            old(self)@.grown_from(root),
            old(self).grown_near(origin),
            old(self).path_near(nodes_of(path@)),
            left_outside(origin, old(self)@, root, nodes_of(old(unvisited)@)),
            path.len() > 0,
            nodes_of(path@).no_duplicates(),
            old(self)@.touched(root).contains(path[path.len() - 1].node()),
            forall|i: int|
                0 <= i < path.len() - 1 ==> nodes_of(old(unvisited)@).contains(
                    (#[trigger] path[i]).node(),
                ),
        ensures
            final(self).wf(),
            final(self).kind() == old(self).kind(),
            final(self).marks() == old(self).marks(),
            final(self)@.extends(origin),
            final(self)@.grown_from(root),
            final(self).grown_near(origin),
            final(self)@ == laid(old(self).kind(), old(self)@, nodes_of(path@), 0),
            left_outside(origin, final(self)@, root, nodes_of(final(unvisited)@)),
            final(unvisited).len() == old(unvisited).len() - (path.len() - 1),
    {
        let mut idx: usize = path.len() - 1;
        while idx > 0
            invariant
                idx < path.len(),
                self.wf(),
                self.kind() == old(self).kind(),
                self.marks() == old(self).marks(),
                self@.extends(origin),
                self@.grown_from(root),
                self.grown_near(origin),
                self.path_near(nodes_of(path@)),
                self@ == laid(old(self).kind(), old(self)@, nodes_of(path@), idx as int),
                left_outside(origin, self@, root, nodes_of(unvisited@)),
                nodes_of(path@).no_duplicates(),
                self@.touched(root).contains(path[idx as int].node()),
                forall|i: int|
                    0 <= i < idx ==> nodes_of(unvisited@).contains((#[trigger] path[i]).node()),
                unvisited.len() == old(unvisited).len() - (path.len() - 1 - idx),
            decreases idx,
        {
            let cell = path[idx - 1];
            let next = path[idx];
            let ghost before = self@;
            let ghost was = *self;
            let ghost held = nodes_of(unvisited@);
            let found = position_of(unvisited, &cell);
            let at = found.unwrap();
            proof {
                assert(held[at as int] == cell.node());
                before.lemma_extends_cell(origin, cell.node());
                assert(before.touched(root).contains(next.node()));
            }
            self.link(cell, next);
            unvisited.swap_remove(at);
            proof {
                assert(nodes_of(path@)[idx - 1] == cell.node());
                assert(nodes_of(path@)[idx - 1 + 1] == next.node());
                was.kind().lemma_near(before, cell.node(), next.node());
                was.lemma_grown_near(self, origin, cell.node(), next.node());
                lemma_left_outside(origin, before, self@, root, held, at as int, next.node());
                lemma_swap_removed(held, at as int);
                assert(nodes_of(unvisited@) =~= swap_removed(held, at as int));
                assert forall|i: int| 0 <= i < idx - 1 implies nodes_of(unvisited@).contains(
                    (#[trigger] path[i]).node(),
                ) by {
                    assert(nodes_of(path@)[i] != nodes_of(path@)[idx - 1]);
                    assert(held.contains(path[i].node()));
                }
            }
            idx -= 1;
        }
    }

    /// Grows a tree from a random cell by loop-erased random walks: each
    /// walk begins at a random cell outside the tree, steps to random
    /// neighbours, with every loop cut out of its path as it closes, and
    /// ends at the first cell of the tree that it meets; then every cell of
    /// the path is linked to the next. The walks end when no cell is left
    /// outside the tree; they are given up at a cell without neighbours, and
    /// after as many steps as the machine can count. What is left of the
    /// tree is then grown as hunt and kill grows it (see
    /// [`Grid::hunt_on`]), which does nothing where no cell is left
    /// outside.
    ///
    /// The links of the result form a tree that holds the first cell, every
    /// cell with a link and every cell that a link has brought into the
    /// grid, and each joins two cells that lie near each other. No cell
    /// without links has a neighbour with links, and the first cell has a
    /// link unless no cell is adjacent to it. Where adjacent cells of the
    /// grid are adjacent to each other, and a walk from cell to adjacent
    /// cell leads from every cell to every other, the result is a perfect
    /// maze.
    pub fn wilsons(self) -> (maze: Self)
        requires
            self.wf(),
            self@.cells.len() > 0,
            self@.edges =~= Set::<(Node, Node)>::empty(),
        ensures
            maze.wf(),
            maze.kind() == self.kind(),
            maze.marks() == self.marks(),
            maze@.extends(self@),
            maze.grown_near(self@),
            self.evenly_steady() && self.all_reachable() ==> maze@.is_perfect(),
            exists|root: Node|
                {
                    &&& self@.has_cell(root)
                    &&& #[trigger] maze@.grown_from(root)
                    &&& maze.hunted_out()
                    &&& maze.settled(root)
                    &&& maze.brought_in(self@, root)
                    &&& maze.slack(root) == 0 ==> maze@.is_perfect()
                },
    {
        let mut grid = self;
        let mut unvisited = grid.cells();
        let first = random_range(0, unvisited.len());
        let start = unvisited[first];
        let ghost root = unvisited[first as int].node();
        let ghost all = nodes_of(unvisited@);
        proof {
            assert(all[first as int] == root);
            grid@.lemma_tree_start(root);
            lemma_swap_removed(all, first as int);
        }
        unvisited.swap_remove(first);
        assert(nodes_of(unvisited@) =~= swap_removed(all, first as int));
        let mut steps: usize = 0;
        let mut stuck = false;
        while unvisited.len() > 0 && !stuck
            invariant
                grid.wf(),
                grid.kind() == self.kind(),
                grid.marks() == self.marks(),
                grid@.extends(self@),
                self@.has_cell(root),
                grid@.grown_from(root),
                grid.grown_near(self@),
                left_outside(self@, grid@, root, nodes_of(unvisited@)),
            decreases
                    unvisited.len() + (if stuck {
                        0int
                    } else {
                        1int
                    }),
        {
            let begin = choose_index(unvisited.len()).unwrap();
            let mut cell = unvisited[begin];
            let mut path: Vec<K::Cell> = Vec::new();
            path.push(cell);
            proof {
                assert(nodes_of(unvisited@)[begin as int] == cell.node());
                assert(nodes_of(unvisited@).contains(cell.node()));
                assert(nodes_of(path@)[0] == cell.node());
                grid@.lemma_extends_cell(self@, cell.node());
            }
            let mut outside = true;
            while outside && !stuck
                invariant
                    grid.wf(),
                    grid@.extends(self@),
                    left_outside(self@, grid@, root, nodes_of(unvisited@)),
                    path.len() > 0,
                    nodes_of(path@).no_duplicates(),
                    grid.path_near(nodes_of(path@)),
                    path[path.len() - 1].node() == cell.node(),
                    grid@.has_cell(cell.node()),
                    nodes_of(unvisited@).contains(path[0].node()),
                    forall|i: int|
                        0 <= i < path.len() - 1 ==> nodes_of(unvisited@).contains(
                            (#[trigger] path[i]).node(),
                        ),
                    outside ==> nodes_of(unvisited@).contains(cell.node()),
                    !outside ==> grid@.touched(root).contains(cell.node()),
                decreases
                        usize::MAX - steps + (if stuck {
                            0int
                        } else {
                            1int
                        }),
            {
                if steps == usize::MAX {
                    stuck = true;
                } else {
                    steps += 1;
                    let around = grid.neighbours(cell);
                    match choose_index(around.len()) {
                        Some(i) => {
                            let ghost came = nodes_of(path@);
                            proof {
                                assert forall|n: Node| came.contains(n) implies nodes_of(
                                    unvisited@,
                                ).contains(n) by {
                                    let j = choose|j: int| 0 <= j < came.len() && came[j] == n;
                                    assert(came[j] == path[j].node());
                                }
                            }
                            cell = around[i];
                            proof {
                                assert(nodes_of(around@)[i as int] == cell.node());
                                assert(came.last() == path[path.len() - 1].node());
                                grid.lemma_path_near(came, cell.node());
                            }
                            erase_loop(&mut path, cell);
                            let found = position_of(&unvisited, &cell);
                            proof {
                                if found is Some {
                                    assert(nodes_of(unvisited@)[found->Some_0 as int]
                                        == cell.node());
                                }
                            }
                            outside = found.is_some();
                        },
                        None => {
                            stuck = true;
                        },
                    }
                }
            }
            if !stuck {
                assert(path.len() > 1);
                grid.link_path(&path, &mut unvisited, Ghost(self@), Ghost(root));
            }
        }
        let maze = grid.hunt_on(start, Ghost(self@));
        proof {
            if maze.slack(root) == 0 {
                maze@.lemma_full_tree(root);
            }
            if self.evenly_steady() && self.all_reachable() {
                maze.lemma_spans_hunted(&self, root);
            }
        }
        maze
    }
}

} // verus!
