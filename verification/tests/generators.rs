use mazes::cell::RegularCell;
use mazes::grid::Grid;
use mazes::regular::Regular;

fn link_total(grid: &Grid<Regular>) -> usize {
    let mut total = 0;
    for cell in grid.cells() {
        total += grid.links(cell).len();
    }
    total / 2
}

fn reached_from(grid: &Grid<Regular>, start: RegularCell) -> usize {
    let mut seen = vec![start];
    let mut next = 0;
    while next < seen.len() {
        let cell = seen[next];
        next += 1;
        for other in grid.links(cell) {
            if !seen.contains(&other) {
                seen.push(other);
            }
        }
    }
    seen.len()
}

fn assert_perfect(grid: &Grid<Regular>) {
    let cells = grid.cells();
    assert_eq!(link_total(grid), cells.len() - 1);
    assert_eq!(reached_from(grid, cells[0]), cells.len());
}

#[test]
fn recursive_backtracker_makes_a_perfect_maze() {
    let grid = Grid::new(Regular::new(6, 5), None, None).recursive_backtracker();
    assert_eq!(grid.size(), 30);
    assert_perfect(&grid);
}

#[test]
fn hunt_and_kill_makes_a_perfect_maze() {
    let grid = Grid::new(Regular::new(6, 5), None, None).hunt_and_kill();
    assert_perfect(&grid);
}

#[test]
fn growing_tree_makes_a_perfect_maze() {
    let grid = Grid::new(Regular::new(6, 5), None, None).growing_tree(|list| list.last());
    assert_perfect(&grid);
    let grid = Grid::new(Regular::new(6, 5), None, None).growing_tree(|list| list.first());
    assert_perfect(&grid);
}

#[test]
fn prims_make_perfect_mazes() {
    let grid = Grid::new(Regular::new(6, 5), None, None).simplified_prims();
    assert_perfect(&grid);
    let grid = Grid::new(Regular::new(6, 5), None, None).true_prims();
    assert_perfect(&grid);
}

#[test]
fn aldous_broder_makes_a_perfect_maze() {
    let grid = Grid::new(Regular::new(6, 5), None, None).aldous_broder();
    assert_perfect(&grid);
}

#[test]
fn wilsons_makes_a_perfect_maze() {
    let grid = Grid::new(Regular::new(5, 4), None, None).wilsons();
    assert_perfect(&grid);
}

#[test]
fn kruskals_makes_a_perfect_maze() {
    let grid = Grid::new(Regular::new(6, 5), None, None).kruskals();
    assert_perfect(&grid);
}

#[test]
fn binary_tree_makes_a_perfect_maze() {
    let grid = Grid::new(Regular::new(6, 5), None, None).binary_tree();
    assert_perfect(&grid);
}

#[test]
fn sidewinder_makes_a_perfect_maze() {
    let grid = Grid::new(Regular::new(6, 5), None, None).sidewinder();
    assert_perfect(&grid);
}

#[test]
fn ellers_makes_a_perfect_maze() {
    let grid = Grid::new(Regular::new(6, 5), None, None).ellers();
    assert_perfect(&grid);
    let grid = Grid::new(Regular::new(1, 7), None, None).ellers();
    assert_perfect(&grid);
}

#[test]
fn ellers_links_a_single_column_from_north_to_south() {
    let grid = Grid::new(Regular::new(3, 1), None, None).ellers();
    assert!(grid.are_linked(RegularCell::new(0, 0), RegularCell::new(1, 0)));
    assert!(grid.are_linked(RegularCell::new(1, 0), RegularCell::new(2, 0)));
    assert_eq!(link_total(&grid), 2);
    let grid = Grid::new(Regular::new(4, 1), None, None).ellers();
    assert_perfect(&grid);
    let grid = Grid::new(Regular::new(1, 1), None, None).ellers();
    assert_eq!(link_total(&grid), 0);
    assert_eq!(grid.size(), 1);
}

#[test]
fn sidewinder_makes_one_corridor_of_a_single_row() {
    let grid = Grid::new(Regular::new(1, 4), None, None).sidewinder();
    assert!(grid.are_linked(RegularCell::new(0, 0), RegularCell::new(0, 1)));
    assert!(grid.are_linked(RegularCell::new(0, 1), RegularCell::new(0, 2)));
    assert!(grid.are_linked(RegularCell::new(0, 2), RegularCell::new(0, 3)));
    assert_eq!(link_total(&grid), 3);
    let ends = grid.dead_ends();
    assert_eq!(ends.len(), 2);
    assert!(ends.contains(&RegularCell::new(0, 0)) && ends.contains(&RegularCell::new(0, 3)));
}

#[test]
fn recursive_division_builds_a_wall_across_a_large_grid() {
    for _ in 0..10 {
        let grid = Grid::new(Regular::new(6, 9), None, None).recursive_division();
        // the grid is wider than high: the first wall runs from north to south
        let mut walls = 0;
        for col in 0..8 {
            let mut open = 0;
            for row in 0..6 {
                if grid.are_linked(RegularCell::new(row, col), RegularCell::new(row, col + 1)) {
                    open += 1;
                }
            }
            if open <= 1 {
                walls += 1;
            }
        }
        assert!(walls >= 1);
    }
}

#[test]
fn generators_link_neighbours_only() {
    let near = |a: RegularCell, b: RegularCell| {
        (a.row - b.row).abs() + (a.col - b.col).abs() == 1
    };
    let grids = vec![
        Grid::new(Regular::new(5, 6), None, None).recursive_backtracker(),
        Grid::new(Regular::new(5, 6), None, None).hunt_and_kill(),
        Grid::new(Regular::new(5, 6), None, None).aldous_broder(),
        Grid::new(Regular::new(5, 6), None, None).wilsons(),
        Grid::new(Regular::new(5, 6), None, None).simplified_prims(),
        Grid::new(Regular::new(5, 6), None, None).true_prims(),
        Grid::new(Regular::new(5, 6), None, None).kruskals(),
        Grid::new(Regular::new(5, 6), None, None).recursive_backtracker().braid(1, 1),
    ];
    for grid in grids {
        for cell in grid.cells() {
            for other in grid.links(cell) {
                assert!(near(cell, other));
            }
        }
    }
}

#[test]
fn recursive_division_keeps_the_grid_connected() {
    let grid = Grid::new(Regular::new(8, 7), None, None).recursive_division();
    let cells = grid.cells();
    assert_eq!(reached_from(&grid, cells[0]), cells.len());
}

#[test]
fn sidewinder_gives_every_run_one_link_north() {
    for _ in 0..10 {
        let grid = Grid::new(Regular::new(5, 6), None, None).sidewinder();
        for col in 0..5 {
            assert!(grid.are_linked(RegularCell::new(0, col), RegularCell::new(0, col + 1)));
        }
        for row in 1..5 {
            let mut north = 0;
            for col in 0..6 {
                if grid.are_linked(RegularCell::new(row, col), RegularCell::new(row - 1, col)) {
                    north += 1;
                }
                let run_ends = col == 5
                    || !grid.are_linked(RegularCell::new(row, col), RegularCell::new(row, col + 1));
                if run_ends {
                    assert_eq!(north, 1);
                    north = 0;
                }
            }
        }
    }
}

#[test]
fn binary_tree_and_sidewinder_leave_an_empty_grid_alone() {
    let grid = Grid::new(Regular::new(0, 3), None, None).binary_tree();
    assert_eq!(grid.size(), 0);
    let grid = Grid::new(Regular::new(3, 0), None, None).sidewinder();
    assert_eq!(grid.size(), 0);
    let grid = Grid::new(Regular::new(1, 1), None, None).binary_tree();
    assert_eq!(grid.size(), 1);
    assert_eq!(link_total(&grid), 0);
}

#[test]
fn the_random_walks_span_a_grid_of_two_cells() {
    for _ in 0..5 {
        let grid = Grid::new(Regular::new(1, 2), None, None).aldous_broder();
        assert!(grid.are_linked(RegularCell::new(0, 0), RegularCell::new(0, 1)));
        let grid = Grid::new(Regular::new(1, 2), None, None).wilsons();
        assert!(grid.are_linked(RegularCell::new(0, 0), RegularCell::new(0, 1)));
        let grid = Grid::new(Regular::new(4, 5), None, None).wilsons();
        assert_perfect(&grid);
        let grid = Grid::new(Regular::new(4, 5), None, None).aldous_broder();
        assert_perfect(&grid);
    }
}
