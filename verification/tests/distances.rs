use mazes::cell::RegularCell;
use mazes::cell::WeightedCell;
use mazes::kind::Regular;
use mazes::kind::Weighted;
use mazes::search::pop_nearest;
use mazes::Distances;
use mazes::Grid;

fn cell(row: isize, col: isize) -> RegularCell {
    RegularCell::new(row, col)
}

/// A 3 by 3 grid linked in a snake: along row 0 to the east, down, along
/// row 1 to the west, down, along row 2 to the east.
fn snake() -> Grid<Regular> {
    let mut grid = Grid::new(Regular::new(3, 3), None, None);
    grid.link(cell(0, 0), cell(0, 1));
    grid.link(cell(0, 1), cell(0, 2));
    grid.link(cell(0, 2), cell(1, 2));
    grid.link(cell(1, 2), cell(1, 1));
    grid.link(cell(1, 1), cell(1, 0));
    grid.link(cell(1, 0), cell(2, 0));
    grid.link(cell(2, 0), cell(2, 1));
    grid.link(cell(2, 1), cell(2, 2));
    grid
}

fn fully_linked() -> Grid<Regular> {
    let mut grid = Grid::new(Regular::new(3, 3), None, None);
    grid.link_all();
    grid
}

fn brute_force(grid: &Grid<Regular>, root: RegularCell) -> Vec<(RegularCell, usize)> {
    let mut found = vec![(root, 0)];
    let mut next = 0;
    while next < found.len() {
        let (at, distance) = found[next];
        next += 1;
        for linked in grid.links(at) {
            if !found.iter().any(|(c, _)| *c == linked) {
                found.push((linked, distance + 1));
            }
        }
    }
    found
}

#[test]
fn distances_in_a_fully_linked_grid() {
    let grid = fully_linked();
    let distances = grid.distances_from(cell(0, 0));
    let mut all: Vec<usize> = grid.cells().iter().map(|c| distances.at(*c)).collect();
    all.sort();
    assert_eq!(all, vec![0, 1, 1, 2, 2, 2, 3, 3, 4]);
    assert_eq!(distances.get(&cell(2, 2)), Some(4));
    assert_eq!(distances.get(&cell(1, 1)), Some(2));
    let from_centre = grid.distances_from(cell(1, 1));
    let mut all: Vec<usize> = grid.cells().iter().map(|c| from_centre.at(*c)).collect();
    all.sort();
    assert_eq!(all, vec![0, 1, 1, 1, 1, 2, 2, 2, 2]);
}

#[test]
fn distances_along_a_snake() {
    let grid = snake();
    let distances = grid.distances_from(cell(0, 0));
    assert_eq!(distances.at(cell(0, 0)), 0);
    assert_eq!(distances.at(cell(0, 2)), 2);
    assert_eq!(distances.at(cell(1, 2)), 3);
    assert_eq!(distances.at(cell(1, 0)), 5);
    assert_eq!(distances.at(cell(2, 0)), 6);
    assert_eq!(distances.at(cell(2, 2)), 8);
    assert_eq!(distances.max(), (cell(2, 2), 8));
    assert_eq!(distances.root_cell(), cell(0, 0));
}

#[test]
fn distances_are_those_of_a_search_by_hand() {
    for _ in 0..10 {
        let grid = Grid::new(Regular::new(5, 6), None, None).recursive_backtracker().braid(1, 2);
        let root = grid.get_random_cell();
        let distances = grid.distances_from(root);
        let expected = brute_force(&grid, root);
        assert_eq!(expected.len(), 30);
        for (at, distance) in expected {
            assert_eq!(distances.get(&at), Some(distance));
        }
        assert_eq!(distances.cells().len(), 30);
    }
}

#[test]
fn a_cell_out_of_reach_has_no_distance() {
    let mut grid = Grid::new(Regular::new(2, 2), None, None);
    grid.link(cell(0, 0), cell(0, 1));
    let distances = grid.distances_from(cell(0, 0));
    assert_eq!(distances.get(&cell(0, 1)), Some(1));
    assert_eq!(distances.get(&cell(1, 0)), None);
    assert_eq!(distances.get(&cell(1, 1)), None);
    let mut cells = distances.cells();
    cells.sort();
    assert_eq!(cells, vec![cell(0, 0), cell(0, 1)]);
}

#[test]
fn the_way_back_from_the_goal() {
    let grid = snake();
    let distances = grid.distances_from(cell(0, 0));
    let way = distances.path_to(cell(1, 1), &grid);
    let mut cells = way.cells();
    cells.sort();
    assert_eq!(cells, vec![cell(0, 0), cell(0, 1), cell(0, 2), cell(1, 1), cell(1, 2)]);
    assert_eq!(way.get(&cell(1, 1)), Some(4));
    assert_eq!(way.get(&cell(1, 2)), Some(3));
    assert_eq!(way.get(&cell(0, 0)), Some(0));
    assert_eq!(way.get(&cell(1, 0)), None);
    assert_eq!(way.root_cell(), cell(0, 0));
    let stay = distances.path_to(cell(0, 0), &grid);
    assert_eq!(stay.cells(), vec![cell(0, 0)]);
}

#[test]
fn the_longest_path_of_a_snake_runs_from_end_to_end() {
    let grid = snake();
    let (one_end, _) = grid.distances_from(cell(1, 1)).max();
    let (other_end, length) = grid.distances_from(one_end).max();
    assert_eq!(length, 8);
    let mut ends = vec![one_end, other_end];
    ends.sort();
    assert_eq!(ends, vec![cell(0, 0), cell(2, 2)]);
}

#[test]
fn new_distances_hold_the_root() {
    let mut distances: Distances<Regular> = Distances::new(cell(1, 2));
    assert_eq!(distances.get(&cell(1, 2)), Some(0));
    assert_eq!(distances.get(&cell(0, 0)), None);
    assert_eq!(distances.max(), (cell(1, 2), 0));
    distances.insert(cell(0, 0), 7);
    distances.insert(cell(0, 1), 3);
    assert_eq!(distances.at(cell(0, 0)), 7);
    assert_eq!(distances.max(), (cell(0, 0), 7));
    distances.insert(cell(0, 0), 2);
    assert_eq!(distances.max(), (cell(0, 1), 3));
}

#[test]
fn a_heavy_cell_is_walked_around() {
    let mut grid = Grid::new(Weighted::new(2, 3), None, None);
    let at = |row, col| WeightedCell::new(row, col);
    grid.link(at(0, 0), at(0, 1));
    grid.link(at(0, 1), at(0, 2));
    grid.link(at(0, 0), at(1, 0));
    grid.link(at(1, 0), at(1, 1));
    grid.link(at(1, 1), at(1, 2));
    grid.link(at(1, 2), at(0, 2));
    let light = grid.distances_from(at(0, 0));
    assert_eq!(light.get(&at(0, 2)), Some(2));
    grid.set_weight(0, 1, 50);
    let heavy = WeightedCell { row: 0, col: 1, weight: 50 };
    let around = grid.distances_from(at(0, 0));
    assert_eq!(around.get(&at(0, 2)), Some(4));
    assert_eq!(around.get(&heavy), Some(50));
    assert_eq!(around.get(&at(1, 2)), Some(3));
    grid.set_start(at(0, 0));
    grid.set_goal(at(0, 2));
    let way = grid.distances().unwrap();
    let mut cells = way.cells();
    cells.sort();
    assert_eq!(cells, vec![at(0, 0), at(0, 2), at(1, 0), at(1, 1), at(1, 2)]);
}

#[test]
fn a_cost_beyond_counting_reaches_nothing() {
    let mut grid = Grid::new(Weighted::new(1, 3), None, None);
    let at = |row, col| WeightedCell::new(row, col);
    grid.link(at(0, 0), at(0, 1));
    grid.link(at(0, 1), at(0, 2));
    grid.set_weight(0, 1, usize::MAX);
    let wall = WeightedCell { row: 0, col: 1, weight: usize::MAX };
    let distances = grid.distances_from(at(0, 0));
    assert_eq!(distances.get(&wall), Some(usize::MAX));
    assert_eq!(distances.get(&at(0, 2)), None);
}

#[test]
fn the_nearest_waiting_cell_is_taken_first() {
    let mut waiting = vec![(5, (0, 0, 0)), (2, (1, 1, 0)), (2, (1, 2, 0)), (9, (0, 1, 0))];
    assert_eq!(pop_nearest(&mut waiting), (2, (1, 2, 0)));
    assert_eq!(waiting, vec![(5, (0, 0, 0)), (2, (1, 1, 0)), (9, (0, 1, 0))]);
    assert_eq!(pop_nearest(&mut waiting), (2, (1, 1, 0)));
    assert_eq!(pop_nearest(&mut waiting), (5, (0, 0, 0)));
    assert_eq!(pop_nearest(&mut waiting), (9, (0, 1, 0)));
    assert!(waiting.is_empty());
}

#[test]
fn the_way_back_ends_where_no_link_leads_closer() {
    let mut grid = Grid::new(Regular::new(1, 3), None, None);
    grid.link(cell(0, 0), cell(0, 1));
    grid.link(cell(0, 1), cell(0, 2));
    let mut wrong: Distances<Regular> = Distances::new(cell(0, 0));
    wrong.insert(cell(0, 1), 5);
    wrong.insert(cell(0, 2), 3);
    assert!(wrong.try_path_to(cell(0, 2), &grid).is_none());
    // from the cell beside the root the way back is there all the same
    let way = wrong.try_path_to(cell(0, 1), &grid).unwrap();
    assert_eq!(way.cells().len(), 2);
    assert_eq!(way.get(&cell(0, 1)), Some(5));
    // a goal without a distance has no way back
    let bare: Distances<Regular> = Distances::new(cell(0, 0));
    assert!(bare.try_path_to(cell(0, 2), &grid).is_none());
    let right = grid.distances_from(cell(0, 0));
    let way = right.try_path_to(cell(0, 2), &grid).unwrap();
    assert_eq!(way.cells().len(), 3);
    assert_eq!(way.get(&cell(0, 2)), Some(2));
}
