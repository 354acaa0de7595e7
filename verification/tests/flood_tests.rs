use minesweeper::GameError;
use minesweeper::board::{Board, Kind};
use minesweeper::flood::{has_won, reveal_mines, uncover};
use minesweeper::generate::populate_with_mines;

fn covered(b: &Board, x: usize, y: usize) -> bool {
    b.cell_at(x, y).unwrap().covered
}

/// A 3x3 board with one mine at (2, 2): the Empty component of (0, 0) covers
/// the left and top, bordered by three Adjacent(1) cells.
fn corner_mine_board() -> Board {
    let mut b = Board::create_blank(3, 3, 1).unwrap();
    populate_with_mines(&mut b, 0, 0, &vec![8]).unwrap();
    b
}

#[test]
fn flood_uncovers_component_and_border_only() {
    let mut b = corner_mine_board();
    uncover(&mut b, 0, 0).unwrap();
    for y in 0..3 {
        for x in 0..3 {
            if (x, y) == (2, 2) {
                assert!(covered(&b, x, y));
            } else {
                assert!(!covered(&b, x, y));
            }
        }
    }
}

#[test]
fn uncovering_a_numbered_cell_stops_there() {
    let mut b = corner_mine_board();
    uncover(&mut b, 1, 1).unwrap();
    for y in 0..3 {
        for x in 0..3 {
            assert_eq!(covered(&b, x, y), (x, y) != (1, 1));
        }
    }
}

#[test]
fn uncovering_twice_changes_nothing() {
    let mut b = corner_mine_board();
    uncover(&mut b, 1, 1).unwrap();
    let snapshot: Vec<_> = (0..3)
        .flat_map(|y| (0..3).map(move |x| (x, y)))
        .map(|(x, y)| b.cell_at(x, y).unwrap())
        .collect();
    uncover(&mut b, 1, 1).unwrap();
    let again: Vec<_> = (0..3)
        .flat_map(|y| (0..3).map(move |x| (x, y)))
        .map(|(x, y)| b.cell_at(x, y).unwrap())
        .collect();
    assert_eq!(snapshot, again);
}

#[test]
fn uncovering_clears_the_mark() {
    let mut b = corner_mine_board();
    b.set_marked(1, 1, true).unwrap();
    uncover(&mut b, 1, 1).unwrap();
    let c = b.cell_at(1, 1).unwrap();
    assert!(!c.covered);
    assert!(!c.marked);
}

#[test]
fn uncover_rejects_out_of_bounds() {
    let mut b = corner_mine_board();
    assert_eq!(uncover(&mut b, 0, 3).unwrap_err(), GameError::OutOfBounds);
}

#[test]
fn has_won_counts_covered_against_mines() {
    // A 2x2 board, one mine at (1, 1), the other three cells Adjacent(1).
    let mut b = Board::create_blank(2, 2, 1).unwrap();
    b.set_kind(1, 1, Kind::Mine).unwrap();
    b.set_kind(0, 0, Kind::Adjacent(1)).unwrap();
    b.set_kind(1, 0, Kind::Adjacent(1)).unwrap();
    b.set_kind(0, 1, Kind::Adjacent(1)).unwrap();
    assert!(!has_won(&b));
    uncover(&mut b, 0, 0).unwrap();
    assert!(!has_won(&b));
    uncover(&mut b, 1, 0).unwrap();
    uncover(&mut b, 0, 1).unwrap();
    assert!(has_won(&b));
    // Uncovering the mine breaks both the count and the mine condition.
    uncover(&mut b, 1, 1).unwrap();
    assert!(!has_won(&b));
}

#[test]
fn reveal_mines_uncovers_exactly_the_mines() {
    let mut b = corner_mine_board();
    b.set_marked(2, 2, true).unwrap();
    reveal_mines(&mut b);
    for y in 0..3 {
        for x in 0..3 {
            let c = b.cell_at(x, y).unwrap();
            assert_eq!(c.covered, (x, y) != (2, 2));
            assert!(!c.marked);
        }
    }
}
