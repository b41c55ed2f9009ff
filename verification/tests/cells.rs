use mazes::cell::CellKind;
use mazes::cell::HexCell;
use mazes::cell::OverCell;
use mazes::cell::PolarCell;
use mazes::cell::RegularCell;
use mazes::cell::TriangleCell;
use mazes::cell::UnderCell;
use mazes::cell::WeaveCell;
use mazes::cell::WeightedCell;
use mazes::Mask;

#[test]
fn cells_are_made_of_row_and_column() {
    let cell = RegularCell::new(3, 4);
    assert_eq!((cell.row, cell.col), (3, 4));
    let cell = PolarCell::new(2, 5);
    assert_eq!((cell.row, cell.col), (2, 5));
    let cell = HexCell::new(-1, 0);
    assert_eq!((cell.row, cell.col), (-1, 0));
    let cell = TriangleCell::new(7, 8);
    assert_eq!((cell.row, cell.col), (7, 8));
    let cell = OverCell::new(1, 2);
    assert_eq!((cell.row, cell.col), (1, 2));
    assert_eq!(UnderCell::new(cell).over, cell);
}

#[test]
fn cells_compare_by_value() {
    assert_eq!(RegularCell::new(1, 2), RegularCell::new(1, 2));
    assert_ne!(RegularCell::new(1, 2), RegularCell::new(2, 1));
    assert!(RegularCell::new(1, 2) < RegularCell::new(1, 3));
    assert!(RegularCell::new(1, 9) < RegularCell::new(2, 0));
    let over = WeaveCell::new(1, 1);
    let under = WeaveCell::Under(UnderCell::new(OverCell::new(1, 1)));
    assert_ne!(over, under);
}

#[test]
fn a_weighted_cell_weighs_one_at_first() {
    let cell = WeightedCell::new(2, 3);
    assert_eq!(cell.weight, 1);
    assert_eq!(cell.weight(), 1);
    let heavy = WeightedCell { row: 2, col: 3, weight: 50 };
    assert_eq!(heavy.weight(), 50);
    assert_ne!(cell, heavy);
    assert_eq!(RegularCell::new(0, 0).weight(), 1);
}

#[test]
fn rows_of_cells() {
    assert_eq!(RegularCell::new(4, 1).row(), 4);
    assert_eq!(PolarCell::new(5, 1).row(), 5);
    assert_eq!(HexCell::new(6, 1).row(), 6);
    assert_eq!(TriangleCell::new(7, 1).row(), 7);
    assert_eq!(WeightedCell::new(8, 1).row(), 8);
    assert_eq!(WeaveCell::new(9, 1).row(), 9);
    assert_eq!(WeaveCell::Under(UnderCell::new(OverCell::new(3, 2))).row(), 3);
}

#[test]
fn nodes_stand_for_cells() {
    assert_eq!(RegularCell::new(4, 1).to_node(), (4, 1, 0));
    assert_eq!(RegularCell::from_node((4, 1, 0)), RegularCell::new(4, 1));
    assert_eq!(WeightedCell { row: 1, col: 2, weight: 9 }.to_node(), (1, 2, 9));
    assert_eq!(WeightedCell::from_node((1, 2, 9)), WeightedCell { row: 1, col: 2, weight: 9 });
    let under = WeaveCell::Under(UnderCell::new(OverCell::new(3, 2)));
    assert_eq!(under.to_node(), (3, 2, 1));
    assert_eq!(WeaveCell::from_node((3, 2, 1)), under);
    assert_eq!(WeaveCell::new(3, 2).to_node(), (3, 2, 0));
    assert_eq!(WeaveCell::from_node((3, 2, 0)), WeaveCell::new(3, 2));
}

#[test]
fn hex_diagonal_rows() {
    assert_eq!(HexCell::new(3, 2).north_diagonal_row(), 2);
    assert_eq!(HexCell::new(3, 2).south_diagonal_row(), 3);
    assert_eq!(HexCell::new(3, 5).north_diagonal_row(), 3);
    assert_eq!(HexCell::new(3, 5).south_diagonal_row(), 4);
    assert_eq!(HexCell::new(0, -1).north_diagonal_row(), 0);
    assert_eq!(HexCell::new(0, -1).south_diagonal_row(), 1);
}

#[test]
fn triangles_point_up_and_down_in_turn() {
    assert!(TriangleCell::new(0, 0).is_upright());
    assert!(!TriangleCell::new(0, 1).is_upright());
    assert!(!TriangleCell::new(1, 0).is_upright());
    assert!(TriangleCell::new(1, 1).is_upright());
    assert!(!TriangleCell::new(0, -1).is_upright());
    assert!(TriangleCell::new(-1, -1).is_upright());
}

#[test]
fn weave_cells_know_their_column_and_level() {
    let over = WeaveCell::new(4, 6);
    let under = WeaveCell::Under(UnderCell::new(OverCell::new(4, 6)));
    assert_eq!(over.col(), 6);
    assert_eq!(under.col(), 6);
    assert!(over.is_over());
    assert!(!under.is_over());
}

#[test]
fn a_new_mask_is_open_everywhere() {
    let mask = Mask::new(3, 4);
    assert_eq!(mask.num_rows(), 3);
    assert_eq!(mask.num_cols(), 4);
    for row in 0..3 {
        for col in 0..4 {
            assert!(mask.get(row, col));
        }
    }
}

#[test]
fn a_mask_remembers_what_was_closed() {
    let mut mask = Mask::new(2, 2);
    mask.set(0, 1, false);
    assert!(mask.get(0, 0));
    assert!(!mask.get(0, 1));
    assert!(mask.get(1, 0));
    assert!(mask.get(1, 1));
    mask.set(0, 1, true);
    assert!(mask.get(0, 1));
}

#[test]
fn a_mask_from_rows_is_as_wide_as_its_first_row() {
    let mask = Mask::from_rows(vec![vec![true, false], vec![false, true]]).unwrap();
    assert_eq!(mask.num_rows(), 2);
    assert_eq!(mask.num_cols(), 2);
    assert!(mask.get(0, 0));
    assert!(!mask.get(0, 1));
    assert!(!mask.get(1, 0));
    assert!(mask.get(1, 1));
    assert!(Mask::from_rows(vec![]).is_none());
    // of a longer row the bits beyond the width are left out
    let wider = Mask::from_rows(vec![vec![true], vec![false, true]]).unwrap();
    assert_eq!(wider.num_rows(), 2);
    assert_eq!(wider.num_cols(), 1);
    assert!(wider.get(0, 0));
    assert!(!wider.get(1, 0));
    // a row shorter than the first is refused
    assert!(Mask::from_rows(vec![vec![true, false], vec![true]]).is_none());
    let empty_rows = Mask::from_rows(vec![vec![], vec![]]).unwrap();
    assert_eq!(empty_rows.num_rows(), 2);
    assert_eq!(empty_rows.num_cols(), 0);
}

#[test]
fn hex_diagonal_rows_at_the_ends_of_the_range() {
    // in an odd column nothing is taken from the row to the north
    assert_eq!(HexCell::new(isize::MIN, 1).north_diagonal_row(), isize::MIN);
    // in an even column nothing is added to the row to the south
    assert_eq!(HexCell::new(isize::MAX, 2).south_diagonal_row(), isize::MAX);
    assert_eq!(HexCell::new(3, 2).north_diagonal_row(), 2);
    assert_eq!(HexCell::new(3, 1).south_diagonal_row(), 4);
}
