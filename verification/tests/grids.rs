use mazes::cell::HexCell;
use mazes::cell::OverCell;
use mazes::cell::PolarCell;
use mazes::cell::RegularCell;
use mazes::cell::TriangleCell;
use mazes::cell::UnderCell;
use mazes::cell::WeaveCell;
use mazes::cell::WeightedCell;
use mazes::kind::Hex;
use mazes::kind::Masked;
use mazes::kind::Polar;
use mazes::kind::Regular;
use mazes::kind::Triangle;
use mazes::kind::Weave;
use mazes::kind::Weighted;
use mazes::Grid;
use mazes::Mask;

fn regular(rows: usize, cols: usize) -> Grid<Regular> {
    Grid::new(Regular::new(rows, cols), None, None)
}

fn cell(row: isize, col: isize) -> RegularCell {
    RegularCell::new(row, col)
}

#[test]
fn a_regular_grid_lists_its_cells_row_by_row() {
    let grid = regular(2, 3);
    assert_eq!(grid.size(), 6);
    assert_eq!(grid.num_rows(), 2);
    assert_eq!(grid.num_cols(), 3);
    assert_eq!(
        grid.cells(),
        vec![cell(0, 0), cell(0, 1), cell(0, 2), cell(1, 0), cell(1, 1), cell(1, 2)]
    );
    assert_eq!(
        grid.rows(),
        vec![
            vec![cell(0, 0), cell(0, 1), cell(0, 2)],
            vec![cell(1, 0), cell(1, 1), cell(1, 2)]
        ]
    );
}

#[test]
fn a_grid_without_rows_has_no_cells() {
    let grid = regular(0, 5);
    assert_eq!(grid.size(), 0);
    assert!(grid.cells().is_empty());
    assert!(grid.dead_ends().is_empty());
}

#[test]
fn a_new_grid_has_no_links() {
    let grid = regular(3, 3);
    for a in grid.cells() {
        assert!(grid.links(a).is_empty());
        assert!(!grid.has_links(a));
        for b in grid.cells() {
            assert!(!grid.are_linked(a, b));
        }
    }
}

#[test]
fn links_run_both_ways() {
    let mut grid = regular(3, 3);
    grid.link(cell(0, 0), cell(0, 1));
    grid.link(cell(1, 1), cell(0, 1));
    for a in grid.cells() {
        for b in grid.cells() {
            assert_eq!(grid.are_linked(a, b), grid.are_linked(b, a));
        }
    }
    assert!(grid.are_linked(cell(0, 0), cell(0, 1)));
    assert!(grid.are_linked(cell(0, 1), cell(0, 0)));
    assert!(grid.are_linked(cell(0, 1), cell(1, 1)));
    assert!(!grid.are_linked(cell(0, 0), cell(1, 1)));
    assert_eq!(grid.size(), 9);
}

#[test]
fn links_of_a_cell() {
    let mut grid = regular(3, 3);
    grid.link(cell(1, 1), cell(0, 1));
    grid.link(cell(1, 1), cell(1, 2));
    grid.link(cell(1, 1), cell(1, 2));
    let mut linked = grid.links(cell(1, 1));
    linked.sort();
    assert_eq!(linked, vec![cell(0, 1), cell(1, 2)]);
    assert_eq!(grid.links(cell(0, 1)), vec![cell(1, 1)]);
    assert!(grid.links(cell(2, 2)).is_empty());
}

#[test]
fn unlinking_takes_the_link_away() {
    let mut grid = regular(2, 2);
    grid.link(cell(0, 0), cell(0, 1));
    grid.link(cell(0, 0), cell(1, 0));
    grid.unlink(cell(0, 1), cell(0, 0));
    assert!(!grid.are_linked(cell(0, 0), cell(0, 1)));
    assert!(grid.are_linked(cell(0, 0), cell(1, 0)));
    grid.unlink(cell(1, 1), cell(0, 1));
    assert_eq!(grid.links(cell(0, 0)), vec![cell(1, 0)]);
    assert_eq!(grid.size(), 4);
}

#[test]
fn connect_adds_the_plain_link() {
    let mut grid = regular(2, 2);
    grid.connect(cell(0, 0), cell(1, 1));
    assert!(grid.are_linked(cell(1, 1), cell(0, 0)));
    assert_eq!(grid.cells().len(), 4);
}

#[test]
fn regular_neighbours_in_compass_order() {
    let grid = regular(3, 3);
    assert_eq!(
        grid.neighbours(cell(1, 1)),
        vec![cell(0, 1), cell(2, 1), cell(1, 0), cell(1, 2)]
    );
    assert_eq!(grid.neighbours(cell(0, 0)), vec![cell(1, 0), cell(0, 1)]);
    assert_eq!(grid.neighbours(cell(2, 2)), vec![cell(1, 2), cell(2, 1)]);
    assert!(grid.neighbours(cell(7, 7)).is_empty());
    assert!(regular(1, 1).neighbours(cell(0, 0)).is_empty());
}

#[test]
fn regular_directions() {
    let grid = regular(2, 2);
    assert_eq!(grid.get(1, 1), Some(cell(1, 1)));
    assert_eq!(grid.get(2, 0), None);
    assert_eq!(grid.get(0, -1), None);
    assert_eq!(grid.north(cell(1, 0)), Some(cell(0, 0)));
    assert_eq!(grid.north(cell(0, 0)), None);
    assert_eq!(grid.south(cell(0, 1)), Some(cell(1, 1)));
    assert_eq!(grid.south(cell(1, 1)), None);
    assert_eq!(grid.west(cell(0, 1)), Some(cell(0, 0)));
    assert_eq!(grid.west(cell(0, 0)), None);
    assert_eq!(grid.east(cell(1, 0)), Some(cell(1, 1)));
    assert_eq!(grid.east(cell(1, 1)), None);
    assert_eq!(grid.north(cell(isize::MIN, 0)), None);
    assert_eq!(grid.east(cell(0, isize::MAX)), None);
}

#[test]
fn unvisited_and_visited_neighbours() {
    let mut grid = regular(3, 3);
    grid.link(cell(0, 1), cell(0, 2));
    assert_eq!(grid.unvisited_neighbours(cell(1, 1)), vec![cell(2, 1), cell(1, 0), cell(1, 2)]);
    assert_eq!(grid.visited_neighbours(cell(1, 1)), vec![cell(0, 1)]);
}

#[test]
fn a_random_cell_is_a_cell_of_the_grid() {
    let grid = regular(3, 4);
    let cells = grid.cells();
    for _ in 0..50 {
        assert!(cells.contains(&grid.get_random_cell()));
    }
}

#[test]
fn start_and_goal_ask_for_distances() {
    let mut grid = regular(1, 3);
    grid.link(cell(0, 0), cell(0, 1));
    grid.link(cell(0, 1), cell(0, 2));
    assert!(grid.distances().is_none());
    grid.set_start(cell(0, 0));
    let from_start = grid.distances().unwrap();
    assert_eq!(from_start.get(&cell(0, 2)), Some(2));
    grid.set_goal(cell(0, 1));
    let way = grid.distances().unwrap();
    assert_eq!(way.get(&cell(0, 0)), Some(0));
    assert_eq!(way.get(&cell(0, 1)), Some(1));
    assert_eq!(way.get(&cell(0, 2)), None);
    let only_goal = Grid::new(Regular::new(1, 2), None, Some(cell(0, 1)));
    assert_eq!(only_goal.distances().unwrap().get(&cell(0, 1)), Some(0));
}

#[test]
fn dead_ends_have_one_link() {
    let mut grid = regular(2, 2);
    grid.link(cell(0, 0), cell(0, 1));
    grid.link(cell(0, 1), cell(1, 1));
    assert_eq!(grid.dead_ends(), vec![cell(0, 0), cell(1, 1)]);
    assert!(grid.is_dead_end(cell(0, 0)));
    assert!(!grid.is_dead_end(cell(0, 1)));
    assert!(!grid.is_dead_end(cell(1, 0)));
}

#[test]
fn braiding_a_dead_end_prefers_another_dead_end() {
    // a corridor along the top and down the east side of a 2 by 3 grid,
    // with a spur at the south-west
    let mut grid = regular(2, 3);
    grid.link(cell(0, 0), cell(0, 1));
    grid.link(cell(0, 1), cell(0, 2));
    grid.link(cell(0, 2), cell(1, 2));
    grid.link(cell(1, 2), cell(1, 1));
    grid.link(cell(1, 1), cell(1, 0));
    // (0, 0) is a dead end; its only unlinked neighbour is (1, 0), a dead end
    assert!(grid.braid_at(cell(0, 0)));
    assert!(grid.are_linked(cell(0, 0), cell(1, 0)));
    assert!(grid.dead_ends().is_empty());
    // no longer a dead end: nothing happens
    assert!(!grid.braid_at(cell(0, 0)));
    assert!(!grid.braid_at(cell(0, 1)));
}

#[test]
fn braiding_leaves_a_boxed_in_dead_end_alone() {
    let mut grid = regular(1, 2);
    grid.link(cell(0, 0), cell(0, 1));
    assert!(!grid.braid_at(cell(0, 0)));
    let grid = grid.braid(1, 1);
    assert_eq!(grid.dead_ends().len(), 2);
    assert_eq!(grid.links(cell(0, 0)), vec![cell(0, 1)]);
}

#[test]
fn braiding_for_certain_leaves_fewer_dead_ends() {
    for _ in 0..20 {
        let grid = regular(6, 6).recursive_backtracker();
        let before = grid.dead_ends().len();
        let links_before: usize = grid.cells().iter().map(|c| grid.links(*c).len()).sum();
        let grid = grid.braid(1, 1);
        let after = grid.dead_ends().len();
        let links_after: usize = grid.cells().iter().map(|c| grid.links(*c).len()).sum();
        let added = (links_after - links_before) / 2;
        assert!(after < before);
        assert!(after + added <= before);
        assert!(before <= after + 2 * added);
        assert_eq!(after, 0);
    }
}

#[test]
fn braiding_with_no_chance_changes_nothing() {
    let grid = regular(5, 5).recursive_backtracker();
    let before = grid.dead_ends();
    let grid = grid.braid(0, 1);
    assert_eq!(grid.dead_ends(), before);
}

#[test]
fn a_single_cell_has_no_dead_end_to_braid() {
    let grid = regular(1, 1).recursive_backtracker().braid(1, 1);
    assert_eq!(grid.dead_ends().len(), 0);
    assert!(grid.links(cell(0, 0)).is_empty());
}

#[test]
fn a_masked_grid_has_cells_at_open_places() {
    let mut mask = Mask::new(2, 3);
    mask.set(0, 0, false);
    mask.set(1, 1, false);
    let grid = Grid::new(Masked::new(mask), None, None);
    assert_eq!(grid.num_rows(), 2);
    assert_eq!(grid.num_cols(), 3);
    assert_eq!(grid.cells(), vec![cell(0, 1), cell(0, 2), cell(1, 0), cell(1, 2)]);
    assert_eq!(grid.get(0, 0), None);
    assert_eq!(grid.get(0, 1), Some(cell(0, 1)));
    assert_eq!(grid.neighbours(cell(0, 1)), vec![cell(0, 2)]);
    assert_eq!(grid.neighbours(cell(1, 0)), vec![]);
    assert_eq!(grid.north(cell(1, 2)), Some(cell(0, 2)));
    assert_eq!(grid.south(cell(0, 1)), None);
    assert_eq!(grid.west(cell(0, 1)), None);
    assert_eq!(grid.east(cell(0, 1)), Some(cell(0, 2)));
}

#[test]
fn hex_neighbours() {
    let grid = Grid::new(Hex::new(3, 3), None, None);
    let hex = HexCell::new;
    assert_eq!(grid.num_cols(), 3);
    assert_eq!(grid.cells().len(), 9);
    // an odd column sits half a row lower
    assert_eq!(
        grid.neighbours(hex(1, 1)),
        vec![hex(1, 0), hex(0, 1), hex(1, 2), hex(2, 0), hex(2, 1), hex(2, 2)]
    );
    assert_eq!(grid.neighbours(hex(0, 0)), vec![hex(1, 0), hex(0, 1)]);
    assert_eq!(grid.north_west(hex(1, 2)), Some(hex(0, 1)));
    assert_eq!(grid.north(hex(1, 2)), Some(hex(0, 2)));
    assert_eq!(grid.north_east(hex(1, 0)), Some(hex(0, 1)));
    assert_eq!(grid.south_west(hex(1, 2)), Some(hex(1, 1)));
    assert_eq!(grid.south(hex(1, 2)), Some(hex(2, 2)));
    assert_eq!(grid.south_east(hex(1, 0)), Some(hex(1, 1)));
    assert_eq!(grid.south_east(hex(2, 1)), None);
    assert_eq!(grid.get_next_in_row(hex(1, 1)), Some(hex(1, 2)));
    assert_eq!(grid.get_next_in_row(hex(1, 2)), None);
    assert_eq!(grid.get(2, 2), Some(hex(2, 2)));
    assert_eq!(grid.get(3, 0), None);
    assert_eq!(grid.rows()[2], vec![hex(2, 0), hex(2, 1), hex(2, 2)]);
}

#[test]
fn triangle_neighbours() {
    let grid = Grid::new(Triangle::new(2, 3), None, None);
    let tri = TriangleCell::new;
    assert_eq!(grid.num_cols(), 3);
    // (0, 0) points up: its base is to the south
    assert_eq!(grid.north(tri(0, 0)), None);
    assert_eq!(grid.south(tri(0, 0)), Some(tri(1, 0)));
    assert_eq!(grid.neighbours(tri(0, 0)), vec![tri(1, 0), tri(0, 1)]);
    // (1, 0) points down: its base is to the north
    assert_eq!(grid.north(tri(1, 0)), Some(tri(0, 0)));
    assert_eq!(grid.south(tri(1, 0)), None);
    // (0, 1) points down, but nothing lies north of row 0
    assert_eq!(grid.neighbours(tri(0, 1)), vec![tri(0, 0), tri(0, 2)]);
    assert_eq!(grid.west(tri(1, 1)), Some(tri(1, 0)));
    assert_eq!(grid.east(tri(1, 2)), None);
    assert_eq!(grid.get(1, 2), Some(tri(1, 2)));
    assert_eq!(grid.get(2, 2), None);
}

fn float_ring_sizes(rows: usize) -> Vec<usize> {
    let mut sizes = vec![1];
    let row_height = 1.0 / rows as f32;
    for row in 1..rows {
        let radius = row as f32 / rows as f32;
        let circumference = 2.0 * std::f32::consts::PI * radius;
        let previous = sizes[row - 1];
        let width = circumference / previous as f32;
        let ratio = (width / row_height).round() as usize;
        sizes.push(previous * ratio);
    }
    sizes
}

#[test]
fn polar_rings_grow_as_the_circle_does() {
    let grid = Grid::new(Polar::new(5), None, None);
    let cells = grid.cells();
    let count = |row: isize| cells.iter().filter(|c| c.row == row).count();
    assert_eq!(count(0), 1);
    assert_eq!(count(1), 6);
    assert_eq!(count(2), 12);
    assert_eq!(count(3), 24);
    assert_eq!(count(4), 24);
    assert_eq!(grid.size(), 67);
    assert_eq!(cells[0], PolarCell::new(0, 0));
    assert_eq!(cells[1], PolarCell::new(1, 0));
    assert_eq!(cells[7], PolarCell::new(2, 0));
}

#[test]
fn polar_rings_are_those_of_the_rounded_circumference() {
    for rows in [1usize, 2, 3, 8, 20, 40] {
        let grid = Grid::new(Polar::new(rows), None, None);
        let cells = grid.cells();
        let sizes = float_ring_sizes(rows);
        for row in 0..rows {
            let count = cells.iter().filter(|c| c.row == row as isize).count();
            assert_eq!(count, sizes[row]);
        }
    }
}

#[test]
fn polar_without_rings_has_the_central_cell() {
    let grid = Grid::new(Polar::new(0), None, None);
    assert_eq!(grid.cells(), vec![PolarCell::new(0, 0)]);
    assert!(grid.neighbours(PolarCell::new(0, 0)).is_empty());
}

#[test]
fn polar_neighbours() {
    let grid = Grid::new(Polar::new(3), None, None);
    let polar = PolarCell::new;
    // the centre has no neighbour in its own ring; the whole first ring lies outward
    assert_eq!(
        grid.neighbours(polar(0, 0)),
        vec![polar(1, 0), polar(1, 1), polar(1, 2), polar(1, 3), polar(1, 4), polar(1, 5)]
    );
    assert_eq!(grid.clockwise(polar(0, 0)), Some(polar(0, 0)));
    assert_eq!(grid.inward(polar(0, 0)), None);
    // ring 1 has 6 cells, ring 2 has 12: each cell of ring 1 spans two of ring 2
    assert_eq!(
        grid.neighbours(polar(1, 2)),
        vec![polar(1, 3), polar(1, 1), polar(0, 0), polar(2, 4), polar(2, 5)]
    );
    assert_eq!(grid.outward(polar(1, 2)), vec![polar(2, 4), polar(2, 5)]);
    assert!(grid.outward(polar(2, 0)).is_empty());
    assert_eq!(grid.inward(polar(2, 5)), Some(polar(1, 2)));
    // the ring is walked round in both directions
    assert_eq!(grid.clockwise(polar(1, 5)), Some(polar(1, 0)));
    assert_eq!(grid.counter_clockwise(polar(1, 0)), Some(polar(1, 5)));
    assert_eq!(grid.counter_clockwise(polar(1, 3)), Some(polar(1, 2)));
    assert_eq!(grid.get(1, 7), Some(polar(1, 1)));
    assert_eq!(grid.get(1, -1), Some(polar(1, 5)));
    assert_eq!(grid.get(1, -7), Some(polar(1, 5)));
    assert_eq!(grid.get(1, -6), Some(polar(1, 0)));
    assert_eq!(grid.get(3, 0), None);
}

#[test]
fn weighted_cells_keep_their_place_when_their_weight_changes() {
    let mut grid = Grid::new(Weighted::new(2, 2), None, None);
    let at = |row, col| WeightedCell::new(row, col);
    assert_eq!(grid.num_cols(), 2);
    assert_eq!(grid.cells(), vec![at(0, 0), at(0, 1), at(1, 0), at(1, 1)]);
    grid.link(at(0, 0), at(0, 1));
    grid.link(at(0, 0), at(1, 0));
    grid.set_weight(0, 0, 50);
    let heavy = WeightedCell { row: 0, col: 0, weight: 50 };
    assert_eq!(grid.get(0, 0), Some(heavy));
    // the last cell took the place of the old one; the new one is the last
    assert_eq!(grid.cells(), vec![at(1, 1), at(0, 1), at(1, 0), heavy]);
    assert!(grid.are_linked(heavy, at(0, 1)));
    assert!(grid.are_linked(at(1, 0), heavy));
    assert!(!grid.are_linked(at(0, 0), at(0, 1)));
    assert!(grid.links(at(0, 0)).is_empty());
    let mut linked = grid.links(heavy);
    linked.sort();
    assert_eq!(linked, vec![at(0, 1), at(1, 0)]);
    assert_eq!(grid.neighbours(at(0, 1)), vec![at(1, 1), heavy]);
    assert_eq!(grid.north(at(1, 0)), Some(heavy));
    assert_eq!(grid.west(at(0, 1)), Some(heavy));
    assert_eq!(grid.south(heavy), Some(at(1, 0)));
    assert_eq!(grid.east(heavy), Some(at(0, 1)));
    assert_eq!(grid.size(), 4);
}

#[test]
fn weave_neighbours_reach_beyond_passages() {
    let mut grid = Grid::new(Weave::new(3, 3), None, None);
    let over = |row, col| WeaveCell::new(row, col);
    assert_eq!(grid.num_cols(), 3);
    assert_eq!(
        grid.neighbours(over(1, 1)),
        vec![over(0, 1), over(2, 1), over(1, 0), over(1, 2)]
    );
    // make (1, 1) a passage from west to east
    grid.link(over(1, 0), over(1, 1));
    grid.link(over(1, 1), over(1, 2));
    assert!(grid.is_horizontal_passage(over(1, 1)));
    assert!(!grid.is_vertical_passage(over(1, 1)));
    assert!(!grid.is_horizontal_passage(over(1, 0)));
    // now the cell north of it may tunnel to the cell south of it
    assert_eq!(grid.neighbours(over(0, 1)), vec![over(1, 1), over(0, 0), over(0, 2), over(2, 1)]);
    assert_eq!(grid.neighbours(over(2, 1)), vec![over(1, 1), over(2, 0), over(2, 2), over(0, 1)]);
}

#[test]
fn linking_across_a_cell_digs_a_tunnel() {
    let mut grid = Grid::new(Weave::new(3, 3), None, None);
    let over = |row, col| WeaveCell::new(row, col);
    let tunnel = WeaveCell::Under(UnderCell::new(OverCell::new(1, 1)));
    grid.link(over(1, 0), over(1, 1));
    grid.link(over(1, 1), over(1, 2));
    grid.link(over(0, 1), over(2, 1));
    assert_eq!(grid.size(), 10);
    assert_eq!(grid.cells()[9], tunnel);
    assert!(!grid.are_linked(over(0, 1), over(2, 1)));
    assert!(grid.are_linked(over(0, 1), tunnel));
    assert!(grid.are_linked(tunnel, over(2, 1)));
    let mut through = grid.links(tunnel);
    through.sort();
    assert_eq!(through, vec![over(0, 1), over(2, 1)]);
    let mut above = grid.links(over(1, 1));
    above.sort();
    assert_eq!(above, vec![over(1, 0), over(1, 2)]);
    assert!(grid.is_vertical_passage(tunnel));
    // a second link across the same cell is a plain link: the tunnel is dug
    grid.link(over(2, 1), over(0, 1));
    assert!(grid.are_linked(over(0, 1), over(2, 1)));
    assert_eq!(grid.size(), 10);
}

#[test]
fn tunnel_under_returns_the_tunnel_cell() {
    let mut grid = Grid::new(Weave::new(3, 3), None, None);
    let over = |row, col| WeaveCell::new(row, col);
    let tunnel = grid.tunnel_under(over(1, 0), OverCell::new(1, 1), over(1, 2));
    assert_eq!(tunnel, WeaveCell::Under(UnderCell::new(OverCell::new(1, 1))));
    assert_eq!(grid.north(tunnel), Some(over(0, 1)));
    assert_eq!(grid.south(tunnel), Some(over(2, 1)));
    assert_eq!(grid.west(tunnel), Some(over(1, 0)));
    assert_eq!(grid.east(tunnel), Some(over(1, 2)));
    assert_eq!(grid.get(1, 1), Some(over(1, 1)));
    assert!(grid.are_linked(tunnel, over(1, 0)));
    assert!(grid.are_linked(tunnel, over(1, 2)));
    assert!(grid.links(over(1, 1)).is_empty());
}

#[test]
fn a_preconfigured_weave_grid_offers_no_tunnels() {
    let mut kind = Weave::new(3, 3);
    kind.is_preconfigured = true;
    let mut grid = Grid::new(kind, None, None);
    let over = |row, col| WeaveCell::new(row, col);
    grid.link(over(1, 0), over(1, 1));
    grid.link(over(1, 1), over(1, 2));
    assert_eq!(grid.neighbours(over(0, 1)), vec![over(1, 1), over(0, 0), over(0, 2)]);
}
