use mazes::cell::CellKind;
use mazes::cell::HexCell;
use mazes::cell::OverCell;
use mazes::cell::PolarCell;
use mazes::cell::RegularCell;
use mazes::cell::TriangleCell;
use mazes::cell::UnderCell;
use mazes::cell::WeaveCell;
use mazes::generators::growing_tree::position_of;
use mazes::generators::kruskals::pairs_without;
use mazes::generators::kruskals::State;
use mazes::generators::prims::cheapest;
use mazes::generators::wilsons::erase_loop;
use mazes::kind::Hex;
use mazes::kind::Kind;
use mazes::kind::Masked;
use mazes::kind::Polar;
use mazes::kind::Regular;
use mazes::kind::Triangle;
use mazes::kind::Weave;
use mazes::kind::Weighted;
use mazes::sets::DisjointSets;
use mazes::Grid;
use mazes::Mask;

fn cell(row: isize, col: isize) -> RegularCell {
    RegularCell::new(row, col)
}

fn link_count<K: Kind>(grid: &Grid<K>) -> usize {
    let mut total = 0;
    for cell in grid.cells() {
        total += grid.links(cell).len();
    }
    total / 2
}

fn reached<K: Kind>(grid: &Grid<K>) -> usize
where
    K::Cell: PartialEq,
{
    let cells = grid.cells();
    let mut seen = vec![cells[0]];
    let mut next = 0;
    while next < seen.len() {
        let at = seen[next];
        next += 1;
        for other in grid.links(at) {
            if !seen.contains(&other) {
                seen.push(other);
            }
        }
    }
    seen.len()
}

fn is_perfect<K: Kind>(grid: &Grid<K>) -> bool
where
    K::Cell: PartialEq,
{
    let cells = grid.size();
    link_count(grid) == cells - 1 && reached(grid) == cells
}

#[test]
fn binary_tree_with_north_every_time() {
    let mut grid = Grid::new(Regular::new(4, 4), None, None);
    for at in grid.cells() {
        grid.binary_tree_at(at, true);
    }
    for row in 0..4 {
        for col in 0..4 {
            let at = cell(row, col);
            let mut linked = grid.links(at);
            linked.sort();
            let mut expected = Vec::new();
            if row == 0 {
                // the top row is one corridor
                if col > 0 {
                    expected.push(cell(0, col - 1));
                }
                if col < 3 {
                    expected.push(cell(0, col + 1));
                }
                expected.push(cell(1, col));
            } else {
                // every other cell is linked north, and south if there is a south
                expected.push(cell(row - 1, col));
                if row < 3 {
                    expected.push(cell(row + 1, col));
                }
            }
            expected.sort();
            assert_eq!(linked, expected);
        }
    }
    assert_eq!(link_count(&grid), 15);
    assert!(is_perfect(&grid));
}

#[test]
fn binary_tree_with_east_every_time() {
    let mut grid = Grid::new(Regular::new(3, 3), None, None);
    for at in grid.cells() {
        grid.binary_tree_at(at, false);
    }
    for row in 0..3 {
        for col in 0..2 {
            assert!(grid.are_linked(cell(row, col), cell(row, col + 1)));
        }
    }
    assert!(grid.are_linked(cell(1, 2), cell(0, 2)));
    assert!(grid.are_linked(cell(2, 2), cell(1, 2)));
    assert!(!grid.are_linked(cell(1, 0), cell(0, 0)));
    assert_eq!(link_count(&grid), 8);
}

#[test]
fn binary_tree_at_the_corner_links_nothing() {
    let mut grid = Grid::new(Regular::new(2, 2), None, None);
    grid.binary_tree_at(cell(0, 1), true);
    assert_eq!(link_count(&grid), 0);
    grid.binary_tree_at(cell(0, 0), true);
    assert!(grid.are_linked(cell(0, 0), cell(0, 1)));
    grid.binary_tree_at(cell(1, 1), false);
    assert!(grid.are_linked(cell(1, 1), cell(0, 1)));
}

#[test]
fn sidewinder_steps() {
    let mut grid = Grid::new(Regular::new(2, 3), None, None);
    // the top row is one run, closed at the east without a link north
    grid.sidewinder_at(0, 0, false, 0);
    grid.sidewinder_at(0, 1, false, 0);
    grid.sidewinder_at(0, 2, true, 1);
    assert!(grid.are_linked(cell(0, 0), cell(0, 1)));
    assert!(grid.are_linked(cell(0, 1), cell(0, 2)));
    assert_eq!(link_count(&grid), 2);
    // a run of two, closed through its first cell, and a run of one
    grid.sidewinder_at(1, 0, false, 0);
    grid.sidewinder_at(1, 1, true, 0);
    grid.sidewinder_at(1, 2, true, 2);
    assert!(grid.are_linked(cell(1, 0), cell(1, 1)));
    assert!(grid.are_linked(cell(1, 0), cell(0, 0)));
    assert!(!grid.are_linked(cell(1, 1), cell(0, 1)));
    assert!(!grid.are_linked(cell(1, 1), cell(1, 2)));
    assert!(grid.are_linked(cell(1, 2), cell(0, 2)));
    assert!(is_perfect(&grid));
}

#[test]
fn hex_binary_tree_and_sidewinder() {
    for _ in 0..5 {
        let grid = Grid::new(Hex::new(4, 5), None, None).binary_tree();
        assert!(is_perfect(&grid));
        let grid = Grid::new(Hex::new(4, 5), None, None).sidewinder();
        assert!(is_perfect(&grid));
    }
    let mut grid = Grid::new(Hex::new(2, 2), None, None);
    grid.binary_tree_at(HexCell::new(1, 0), true);
    assert!(grid.are_linked(HexCell::new(1, 0), HexCell::new(0, 0)));
    grid.sidewinder_at(1, 0, false, 0);
    assert!(grid.are_linked(HexCell::new(1, 0), HexCell::new(1, 1)));
}

#[test]
fn generators_on_every_topology() {
    let grid = Grid::new(Polar::new(5), None, None).recursive_backtracker();
    assert!(is_perfect(&grid));
    assert!(grid.links(PolarCell::new(0, 0)).len() >= 1);
    let grid = Grid::new(Hex::new(4, 4), None, None).hunt_and_kill();
    assert!(is_perfect(&grid));
    let grid = Grid::new(Triangle::new(4, 7), None, None).simplified_prims();
    assert!(is_perfect(&grid));
    assert!(grid.links(TriangleCell::new(0, 0)).len() >= 1);
    let grid = Grid::new(Weighted::new(4, 4), None, None).true_prims();
    assert!(is_perfect(&grid));
    let grid = Grid::new(Polar::new(4), None, None).kruskals();
    assert!(is_perfect(&grid));
    let grid = Grid::new(Hex::new(3, 4), None, None).wilsons();
    assert!(is_perfect(&grid));
    let grid = Grid::new(Triangle::new(3, 5), None, None).aldous_broder();
    assert!(is_perfect(&grid));
    let grid = Grid::new(Hex::new(3, 3), None, None).growing_tree(|list| list.last());
    assert!(is_perfect(&grid));
}

#[test]
fn a_masked_grid_is_a_tree_where_it_is_connected() {
    let mut mask = Mask::new(4, 4);
    mask.set(0, 0, false);
    mask.set(3, 3, false);
    mask.set(1, 2, false);
    let grid = Grid::new(Masked::new(mask), None, None).recursive_backtracker();
    assert_eq!(grid.size(), 13);
    assert!(is_perfect(&grid));
}

#[test]
fn a_generator_leaves_a_cut_off_part_of_a_mask_alone() {
    let mut mask = Mask::new(1, 3);
    mask.set(0, 1, false);
    for _ in 0..10 {
        let grid = Grid::new(Masked::new(mask_copy(&mask)), None, None).recursive_backtracker();
        assert_eq!(link_count(&grid), 0);
        let grid = Grid::new(Masked::new(mask_copy(&mask)), None, None).hunt_and_kill();
        assert_eq!(link_count(&grid), 0);
        let grid = Grid::new(Masked::new(mask_copy(&mask)), None, None).aldous_broder();
        assert_eq!(link_count(&grid), 0);
        let grid = Grid::new(Masked::new(mask_copy(&mask)), None, None).wilsons();
        assert_eq!(link_count(&grid), 0);
    }
}

fn mask_copy(mask: &Mask) -> Mask {
    let mut copy = Mask::new(mask.num_rows(), mask.num_cols());
    for row in 0..mask.num_rows() {
        for col in 0..mask.num_cols() {
            copy.set(row, col, mask.get(row, col));
        }
    }
    copy
}

#[test]
fn a_grid_of_one_cell_stays_without_links() {
    let one = || Grid::new(Regular::new(1, 1), None, None);
    assert_eq!(link_count(&one().recursive_backtracker()), 0);
    assert_eq!(link_count(&one().hunt_and_kill()), 0);
    assert_eq!(link_count(&one().aldous_broder()), 0);
    assert_eq!(link_count(&one().wilsons()), 0);
    assert_eq!(link_count(&one().simplified_prims()), 0);
    assert_eq!(link_count(&one().true_prims()), 0);
    assert_eq!(link_count(&one().kruskals()), 0);
    assert_eq!(link_count(&one().binary_tree()), 0);
    assert_eq!(link_count(&one().sidewinder()), 0);
    assert_eq!(link_count(&one().ellers()), 0);
    assert_eq!(link_count(&one().growing_tree(|list| list.first())), 0);
}

#[test]
fn growing_tree_ends_when_nothing_is_picked() {
    let grid = Grid::new(Regular::new(3, 3), None, None).growing_tree(|_| None);
    assert_eq!(link_count(&grid), 0);
}

fn spanning_tree_of_two_by_two(grid: &Grid<Regular>) -> usize {
    // a spanning tree of the 2 by 2 grid leaves out one of the four possible links
    let north = grid.are_linked(cell(0, 0), cell(0, 1));
    let south = grid.are_linked(cell(1, 0), cell(1, 1));
    let west = grid.are_linked(cell(0, 0), cell(1, 0));
    let east = grid.are_linked(cell(0, 1), cell(1, 1));
    assert_eq!([north, south, west, east].iter().filter(|l| **l).count(), 3);
    [north, south, west, east].iter().position(|l| !*l).unwrap()
}

#[test]
fn wilsons_finds_every_spanning_tree() {
    let mut seen = [0usize; 4];
    for _ in 0..1000 {
        let grid = Grid::new(Regular::new(2, 2), None, None).wilsons();
        seen[spanning_tree_of_two_by_two(&grid)] += 1;
    }
    for count in seen {
        assert!(count > 150);
    }
}

#[test]
fn aldous_broder_finds_every_spanning_tree() {
    let mut seen = [0usize; 4];
    for _ in 0..1000 {
        let grid = Grid::new(Regular::new(2, 2), None, None).aldous_broder();
        seen[spanning_tree_of_two_by_two(&grid)] += 1;
    }
    for count in seen {
        assert!(count > 150);
    }
}

#[test]
fn a_walk_step_links_a_cell_without_links() {
    let mut grid = Grid::new(Regular::new(2, 2), None, None);
    assert!(grid.walk_step(cell(0, 0), cell(0, 1)));
    assert!(grid.are_linked(cell(0, 0), cell(0, 1)));
    assert!(!grid.walk_step(cell(1, 0), cell(0, 0)));
    assert!(!grid.are_linked(cell(1, 0), cell(0, 0)));
}

#[test]
fn the_hunt_finds_the_first_cell_next_to_the_maze() {
    let mut grid = Grid::new(Regular::new(2, 3), None, None);
    assert_eq!(grid.hunt(), None);
    grid.link(cell(0, 1), cell(0, 2));
    // (0, 0) is the first cell without links that has a linked neighbour
    assert_eq!(grid.hunt(), Some(cell(0, 0)));
    assert!(grid.are_linked(cell(0, 0), cell(0, 1)));
    assert_eq!(link_count(&grid), 2);
}

#[test]
fn a_loop_is_cut_out_of_a_walk() {
    let mut path = vec![cell(0, 0), cell(0, 1), cell(1, 1), cell(1, 0)];
    erase_loop(&mut path, cell(0, 1));
    assert_eq!(path, vec![cell(0, 0), cell(0, 1)]);
    erase_loop(&mut path, cell(0, 2));
    assert_eq!(path, vec![cell(0, 0), cell(0, 1), cell(0, 2)]);
    erase_loop(&mut path, cell(0, 2));
    assert_eq!(path, vec![cell(0, 0), cell(0, 1), cell(0, 2)]);
    erase_loop(&mut path, cell(0, 0));
    assert_eq!(path, vec![cell(0, 0)]);
}

#[test]
fn the_first_place_of_a_cell_in_a_list() {
    let list = vec![cell(0, 0), cell(0, 1), cell(0, 0)];
    assert_eq!(position_of(&list, &cell(0, 0)), Some(0));
    assert_eq!(position_of(&list, &cell(0, 1)), Some(1));
    assert_eq!(position_of(&list, &cell(1, 1)), None);
    assert_eq!(position_of(&Vec::<RegularCell>::new(), &cell(0, 0)), None);
}

#[test]
fn the_cheapest_cell_is_the_first_of_least_cost() {
    let grid = Grid::new(Regular::new(3, 3), None, None);
    let costs = grid.random_costs();
    let cells = grid.cells();
    let best = cheapest(&costs, &cells).unwrap();
    let cost = |c: &RegularCell| *costs.get(&c.to_node()).unwrap();
    for (at, other) in cells.iter().enumerate() {
        assert!(cost(other) < 100);
        assert!(cost(&cells[best]) <= cost(other));
        if at < best {
            assert!(cost(&cells[best]) < cost(other));
        }
    }
    assert_eq!(cheapest(&costs, &Vec::<RegularCell>::new()), None);
    // a cell without a cost costs nothing
    assert_eq!(cheapest(&costs, &vec![cells[0], cell(9, 9)]).map(|i| i == 1 || cost(&cells[0]) == 0), Some(true));
}

#[test]
fn disjoint_sets() {
    let mut sets = DisjointSets::new();
    assert_eq!(sets.count(), 0);
    assert_eq!(sets.find((0, 0, 0)), None);
    sets.adopt(0, (0, 0, 0));
    sets.adopt(1, (0, 1, 0));
    sets.adopt(3, (0, 2, 0));
    assert_eq!(sets.count(), 4);
    assert_eq!(sets.find((0, 2, 0)), Some(3));
    assert!(sets.members(2).is_empty());
    assert!(!sets.same_set((0, 0, 0), (0, 1, 0)));
    sets.adopt(1, (1, 1, 0));
    assert_eq!(sets.members(1), vec![(0, 1, 0), (1, 1, 0)]);
    sets.union(0, 1);
    assert!(sets.same_set((0, 0, 0), (1, 1, 0)));
    assert!(!sets.same_set((0, 0, 0), (0, 2, 0)));
    assert_eq!(sets.members(0), vec![(0, 0, 0), (0, 1, 0), (1, 1, 0)]);
    assert!(sets.members(1).is_empty());
    assert_eq!(sets.find((0, 1, 0)), Some(0));
    assert_eq!(sets.count(), 4);
}

#[test]
fn kruskals_state_merges_sets() {
    let grid = Grid::new(Regular::new(2, 2), None, None);
    let mut state = State::new(grid);
    assert!(state.can_merge(cell(0, 0), cell(0, 1)));
    state.merge(cell(0, 0), cell(0, 1));
    assert!(!state.can_merge(cell(0, 0), cell(0, 1)));
    assert!(!state.can_merge(cell(0, 1), cell(0, 0)));
    assert!(state.can_merge(cell(0, 0), cell(1, 0)));
    state.merge(cell(1, 1), cell(1, 0));
    state.merge(cell(1, 0), cell(0, 0));
    assert!(!state.can_merge(cell(0, 1), cell(1, 1)));
    let grid = state.into_grid();
    assert!(grid.are_linked(cell(0, 0), cell(0, 1)));
    assert!(grid.are_linked(cell(1, 0), cell(1, 1)));
    assert!(grid.are_linked(cell(0, 0), cell(1, 0)));
    assert_eq!(link_count(&grid), 3);
}

#[test]
fn every_pair_of_adjacent_cells() {
    let grid = Grid::new(Regular::new(2, 2), None, None);
    let pairs = grid.neighbouring_cells();
    assert_eq!(pairs.len(), 8);
    assert_eq!(pairs[0], (cell(0, 0), cell(1, 0)));
    assert_eq!(pairs[1], (cell(0, 0), cell(0, 1)));
    let kept = pairs_without(&pairs, (0, 0, 0));
    assert_eq!(kept.len(), 4);
    for (left, right) in kept {
        assert_ne!(left, cell(0, 0));
        assert_ne!(right, cell(0, 0));
    }
}

fn preconfigured(rows: usize, cols: usize) -> Grid<Weave> {
    let mut kind = Weave::new(rows, cols);
    kind.is_preconfigured = true;
    Grid::new(kind, None, None)
}

#[test]
fn a_crossing_has_a_passage_above_and_a_tunnel_beneath() {
    let over = |row, col| WeaveCell::new(row, col);
    let tunnel = WeaveCell::Under(UnderCell::new(OverCell::new(1, 1)));
    for along_row in [true, false] {
        let mut state = State::new(preconfigured(3, 3));
        assert!(state.can_cross(OverCell::new(1, 1)));
        assert!(!state.can_cross(OverCell::new(0, 1)));
        state.cross(OverCell::new(1, 1), along_row);
        assert!(!state.can_cross(OverCell::new(1, 1)));
        let grid = state.into_grid();
        let mut above = grid.links(over(1, 1));
        above.sort();
        let mut below = grid.links(tunnel);
        below.sort();
        let row = vec![over(1, 0), over(1, 2)];
        let column = vec![over(0, 1), over(2, 1)];
        if along_row {
            assert_eq!(above, row);
            assert_eq!(below, column);
        } else {
            assert_eq!(above, column);
            assert_eq!(below, row);
        }
        assert_eq!(grid.size(), 10);
    }
}

#[test]
fn crossings_are_made_where_they_can_be() {
    let mut state = State::new(preconfigured(5, 5));
    assert!(state.add_crossing(OverCell::new(2, 2)));
    // the cell is linked now
    assert!(!state.add_crossing(OverCell::new(2, 2)));
    // its neighbours are linked too
    assert!(!state.add_crossing(OverCell::new(2, 1)));
    // a cell at the boundary has no cell on one side
    assert!(!state.add_crossing(OverCell::new(0, 2)));
    let grid = state.into_grid();
    let tunnel = WeaveCell::Under(UnderCell::new(OverCell::new(2, 2)));
    assert_eq!(grid.links(tunnel).len(), 2);
    assert_eq!(grid.links(WeaveCell::new(2, 2)).len(), 2);
}

#[test]
fn kruskals_with_crossings_weaves_a_connected_maze() {
    for _ in 0..10 {
        let grid = Grid::new(Weave::new(6, 6), None, None).kruskals_better_weave();
        let cells = grid.cells();
        assert!(cells.len() >= 36);
        assert_eq!(reached(&grid), cells.len());
        let mut crossings = 0;
        for at in &cells {
            if !at.is_over() {
                crossings += 1;
                assert_eq!(grid.links(*at).len(), 2);
                let above = WeaveCell::new(at.row(), at.col());
                assert_eq!(grid.links(above).len(), 2);
            }
        }
        assert_eq!(cells.len(), 36 + crossings);
        let links = link_count(&grid);
        assert_eq!(links, cells.len() - 1);
    }
}

#[test]
fn kruskals_with_crossings_keeps_each_crossing_straight() {
    let mut crossings = 0;
    for _ in 0..10 {
        let grid = Grid::new(Weave::new(7, 7), None, None).kruskals_better_weave();
        for at in grid.cells() {
            if at.is_over() {
                continue;
            }
            crossings += 1;
            let (row, col) = (at.row(), at.col());
            let above = WeaveCell::new(row, col);
            let north = WeaveCell::new(row - 1, col);
            let south = WeaveCell::new(row + 1, col);
            let west = WeaveCell::new(row, col - 1);
            let east = WeaveCell::new(row, col + 1);
            let on_top = grid.links(above);
            let beneath = grid.links(at);
            assert_eq!(on_top.len(), 2);
            assert_eq!(beneath.len(), 2);
            if on_top.contains(&west) {
                assert!(on_top.contains(&east));
                assert!(beneath.contains(&north) && beneath.contains(&south));
            } else {
                assert!(on_top.contains(&north) && on_top.contains(&south));
                assert!(beneath.contains(&west) && beneath.contains(&east));
            }
        }
    }
    assert!(crossings > 0);
}

#[test]
fn kruskals_joins_the_cells_that_were_adjacent() {
    for _ in 0..10 {
        let grid = Grid::new(Weave::new(5, 5), None, None).kruskals();
        assert_eq!(reached(&grid), grid.cells().len());
    }
}

#[test]
fn recursive_backtracker_weaves_a_tree() {
    for _ in 0..10 {
        let grid = Grid::new(Weave::new(6, 6), None, None).recursive_backtracker();
        assert!(is_perfect(&grid));
        for at in grid.cells() {
            if !at.is_over() {
                assert_eq!(grid.links(at).len(), 2);
            }
        }
    }
}

#[test]
fn walls_with_one_passage() {
    let mut grid = Grid::new(Regular::new(3, 3), None, None);
    grid.link_all();
    assert_eq!(link_count(&grid), 12);
    grid.build_wall(true, 0, 0, 3, 1);
    assert!(!grid.are_linked(cell(0, 0), cell(1, 0)));
    assert!(grid.are_linked(cell(0, 1), cell(1, 1)));
    assert!(!grid.are_linked(cell(0, 2), cell(1, 2)));
    assert_eq!(link_count(&grid), 10);
    grid.build_wall(false, 1, 1, 2, 0);
    assert!(grid.are_linked(cell(1, 1), cell(1, 2)));
    assert!(!grid.are_linked(cell(2, 1), cell(2, 2)));
    assert_eq!(link_count(&grid), 9);
    grid.divide(0, 0, 1, 3);
    grid.divide(0, 0, 3, 1);
    assert_eq!(link_count(&grid), 9);
}

#[test]
fn dividing_a_large_grid_severs_links() {
    let grid = Grid::new(Regular::new(10, 10), None, None).recursive_division();
    assert!(link_count(&grid) < 180);
    assert_eq!(reached(&grid), 100);
    for at in grid.cells() {
        for other in grid.links(at) {
            assert_eq!((at.row - other.row).abs() + (at.col - other.col).abs(), 1);
        }
    }
}

#[test]
fn generators_weave_perfect_mazes() {
    for _ in 0..5 {
        assert!(is_perfect(&Grid::new(Weave::new(5, 5), None, None).kruskals()));
        assert!(is_perfect(&Grid::new(Weave::new(5, 5), None, None).hunt_and_kill()));
        assert!(is_perfect(&Grid::new(Weave::new(5, 5), None, None).simplified_prims()));
        assert!(is_perfect(&Grid::new(Weave::new(5, 5), None, None).true_prims()));
        assert!(is_perfect(&Grid::new(Weave::new(5, 5), None, None).wilsons()));
        assert!(is_perfect(&Grid::new(Weave::new(5, 5), None, None).aldous_broder()));
        assert!(is_perfect(&Grid::new(Weave::new(5, 5), None, None).growing_tree(|list| list.last())));
    }
}

#[test]
fn generators_on_a_polar_grid() {
    for _ in 0..5 {
        assert!(is_perfect(&Grid::new(Polar::new(6), None, None).hunt_and_kill()));
        assert!(is_perfect(&Grid::new(Polar::new(6), None, None).simplified_prims()));
        assert!(is_perfect(&Grid::new(Polar::new(6), None, None).wilsons()));
        assert!(is_perfect(&Grid::new(Polar::new(6), None, None).aldous_broder()));
    }
}

#[test]
fn a_triangle_grid_of_one_column_cannot_be_spanned() {
    let grid = Grid::new(Triangle::new(3, 1), None, None).recursive_backtracker();
    assert!(link_count(&grid) < 2);
}

#[test]
fn prims_step_takes_the_cheapest_cell_and_its_cheapest_neighbour() {
    let mut grid = Grid::new(Regular::new(2, 3), None, None);
    let mut costs = mazes::cell_map::CellMap::default();
    costs.insert((0, 0, 0), 9);
    costs.insert((0, 1, 0), 4);
    costs.insert((0, 2, 0), 7);
    costs.insert((1, 0, 0), 2);
    costs.insert((1, 1, 0), 4);
    costs.insert((1, 2, 0), 1);
    grid.link(cell(0, 0), cell(0, 1));
    let mut active = vec![cell(0, 0), cell(0, 1)];
    // (0, 1) is the cheaper active cell; of its neighbours without links,
    // (1, 1) costs less than (0, 2)
    let (at, linked) = grid.prims_step(&mut active, &costs);
    assert_eq!(at, 1);
    assert_eq!(linked, Some(cell(1, 1)));
    assert!(grid.are_linked(cell(0, 1), cell(1, 1)));
    assert_eq!(active, vec![cell(0, 0), cell(0, 1), cell(1, 1)]);
    // now (0, 1) and (1, 1) cost the same: the first counts, and links (0, 2)
    let (at, linked) = grid.prims_step(&mut active, &costs);
    assert_eq!(at, 1);
    assert_eq!(linked, Some(cell(0, 2)));
    // (0, 1) has no neighbour without links left: it leaves the list, and
    // the last cell takes its place
    let (at, linked) = grid.prims_step(&mut active, &costs);
    assert_eq!(at, 1);
    assert_eq!(linked, None);
    assert_eq!(active, vec![cell(0, 0), cell(0, 2), cell(1, 1)]);
}

#[test]
fn generators_keep_start_and_goal() {
    let start = cell(0, 0);
    let goal = cell(2, 2);
    let grid = Grid::new(Regular::new(3, 3), Some(start), Some(goal)).recursive_backtracker();
    assert_eq!(grid.start_cell(), Some(start));
    assert_eq!(grid.goal_cell(), Some(goal));
    let grid = Grid::new(Regular::new(3, 3), Some(start), Some(goal)).kruskals().braid(1, 1);
    assert_eq!(grid.start_cell(), Some(start));
    assert_eq!(grid.goal_cell(), Some(goal));
}

#[test]
fn a_crossing_is_not_made_between_cells_of_one_set() {
    let mut state = State::new(preconfigured(5, 5));
    // north and west of (2, 2) in one set: a crossing there would close a loop
    state.merge(WeaveCell::new(1, 2), WeaveCell::new(1, 1));
    state.merge(WeaveCell::new(1, 1), WeaveCell::new(2, 1));
    assert!(!state.can_cross(OverCell::new(2, 2)));
    assert!(!state.add_crossing(OverCell::new(2, 2)));
    assert!(state.can_cross(OverCell::new(3, 3)));
}
