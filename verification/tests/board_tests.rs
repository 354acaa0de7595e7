use minesweeper::GameError;
use minesweeper::board::{Board, Kind};

#[test]
fn create_blank_makes_covered_empty_grid() {
    let b = Board::create_blank(4, 3, 2).unwrap();
    assert_eq!(b.width, 4);
    assert_eq!(b.height, 3);
    assert_eq!(b.num_mines, 2);
    for y in 0..3 {
        for x in 0..4 {
            let c = b.cell_at(x, y).unwrap();
            assert!(c.covered);
            assert!(!c.marked);
            assert_eq!(c.kind, Kind::Empty);
        }
    }
}

#[test]
fn create_blank_rejects_zero_width() {
    assert_eq!(Board::create_blank(0, 3, 1).unwrap_err(), GameError::InvalidDimensions);
}

#[test]
fn create_blank_rejects_zero_height() {
    assert_eq!(Board::create_blank(3, 0, 1).unwrap_err(), GameError::InvalidDimensions);
}

#[test]
fn cell_at_rejects_out_of_bounds() {
    let b = Board::create_blank(3, 3, 1).unwrap();
    assert_eq!(b.cell_at(3, 0).unwrap_err(), GameError::OutOfBounds);
    assert_eq!(b.cell_at(0, 3).unwrap_err(), GameError::OutOfBounds);
    assert!(b.cell_at(2, 2).is_ok());
}

#[test]
fn mutators_write_one_field_each() {
    let mut b = Board::create_blank(3, 3, 1).unwrap();
    b.set_kind(1, 2, Kind::Mine).unwrap();
    let c = b.cell_at(1, 2).unwrap();
    assert_eq!(c.kind, Kind::Mine);
    assert!(c.covered);
    assert!(!c.marked);

    b.set_marked(1, 2, true).unwrap();
    let c = b.cell_at(1, 2).unwrap();
    assert!(c.marked);
    assert_eq!(c.kind, Kind::Mine);

    b.set_covered(1, 2, false).unwrap();
    let c = b.cell_at(1, 2).unwrap();
    assert!(!c.covered);
    assert!(c.marked);
    assert_eq!(c.kind, Kind::Mine);

    let untouched = b.cell_at(0, 0).unwrap();
    assert!(untouched.covered);
    assert_eq!(untouched.kind, Kind::Empty);
}

#[test]
fn mutators_reject_out_of_bounds() {
    let mut b = Board::create_blank(2, 2, 1).unwrap();
    assert_eq!(b.set_kind(2, 0, Kind::Mine).unwrap_err(), GameError::OutOfBounds);
    assert_eq!(b.set_covered(0, 2, false).unwrap_err(), GameError::OutOfBounds);
    assert_eq!(b.set_marked(5, 5, true).unwrap_err(), GameError::OutOfBounds);
}

#[test]
fn neighbors_center_come_in_fixed_order() {
    let mut b = Board::create_blank(3, 3, 1).unwrap();
    b.set_kind(2, 2, Kind::Mine).unwrap();
    let n = b.neighbors(1, 1).unwrap();
    assert_eq!(
        n,
        vec![
            (0, 0, Kind::Empty),
            (0, 1, Kind::Empty),
            (0, 2, Kind::Empty),
            (1, 0, Kind::Empty),
            (1, 2, Kind::Empty),
            (2, 0, Kind::Empty),
            (2, 1, Kind::Empty),
            (2, 2, Kind::Mine),
        ]
    );
}

#[test]
fn neighbors_corner_are_fewer() {
    let b = Board::create_blank(3, 3, 1).unwrap();
    let n = b.neighbors(0, 0).unwrap();
    assert_eq!(n, vec![(0, 1, Kind::Empty), (1, 0, Kind::Empty), (1, 1, Kind::Empty)]);
}

#[test]
fn neighbors_reject_out_of_bounds() {
    let b = Board::create_blank(3, 3, 1).unwrap();
    assert_eq!(b.neighbors(3, 1).unwrap_err(), GameError::OutOfBounds);
}

#[test]
fn marked_count_follows_marks() {
    let mut b = Board::create_blank(3, 3, 1).unwrap();
    assert_eq!(b.marked_count(), 0);
    b.set_marked(0, 0, true).unwrap();
    b.set_marked(2, 1, true).unwrap();
    assert_eq!(b.marked_count(), 2);
    b.set_marked(0, 0, false).unwrap();
    assert_eq!(b.marked_count(), 1);
}
