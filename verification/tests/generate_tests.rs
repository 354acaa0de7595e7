use minesweeper::GameError;
use minesweeper::board::{Board, Kind};
use minesweeper::generate::{populate, populate_with_mines};

fn kind_at(b: &Board, x: usize, y: usize) -> Kind {
    b.cell_at(x, y).unwrap().kind
}

/// Recounts a cell's mine neighbors by brute force.
fn recount(b: &Board, x: usize, y: usize) -> u8 {
    let mut n = 0;
    for (dx, dy) in [
        (-1i64, -1i64),
        (0, -1),
        (1, -1),
        (-1, 0),
        (1, 0),
        (-1, 1),
        (0, 1),
        (1, 1),
    ] {
        let nx = x as i64 + dx;
        let ny = y as i64 + dy;
        if nx >= 0 && ny >= 0 && (nx as usize) < b.width && (ny as usize) < b.height {
            if kind_at(b, nx as usize, ny as usize) == Kind::Mine {
                n += 1;
            }
        }
    }
    n
}

#[test]
fn forced_mine_gets_counted_neighborhood() {
    let mut b = Board::create_blank(3, 3, 1).unwrap();
    populate_with_mines(&mut b, 0, 0, &vec![8]).unwrap();
    assert_eq!(kind_at(&b, 2, 2), Kind::Mine);
    assert_eq!(kind_at(&b, 1, 1), Kind::Adjacent(1));
    assert_eq!(kind_at(&b, 2, 1), Kind::Adjacent(1));
    assert_eq!(kind_at(&b, 1, 2), Kind::Adjacent(1));
    assert_eq!(kind_at(&b, 0, 0), Kind::Empty);
    assert_eq!(kind_at(&b, 1, 0), Kind::Empty);
    assert_eq!(kind_at(&b, 2, 0), Kind::Empty);
    assert_eq!(kind_at(&b, 0, 1), Kind::Empty);
    assert_eq!(kind_at(&b, 0, 2), Kind::Empty);
    for y in 0..3 {
        for x in 0..3 {
            assert!(b.cell_at(x, y).unwrap().covered);
        }
    }
}

#[test]
fn forced_mines_reject_safe_zone() {
    let mut b = Board::create_blank(3, 3, 1).unwrap();
    // Flat index 4 is (1, 1), a neighbor of the safe cell (0, 0).
    assert_eq!(
        populate_with_mines(&mut b, 0, 0, &vec![4]).unwrap_err(),
        GameError::InsufficientSpace
    );
    // The board is untouched.
    assert_eq!(kind_at(&b, 1, 1), Kind::Empty);
}

#[test]
fn forced_mines_reject_bad_lists() {
    let mut b = Board::create_blank(3, 3, 2).unwrap();
    // Wrong count.
    assert_eq!(
        populate_with_mines(&mut b, 0, 0, &vec![8]).unwrap_err(),
        GameError::InsufficientSpace
    );
    // A repeated index.
    assert_eq!(
        populate_with_mines(&mut b, 0, 0, &vec![8, 8]).unwrap_err(),
        GameError::InsufficientSpace
    );
    // An out-of-range index.
    assert_eq!(
        populate_with_mines(&mut b, 0, 0, &vec![8, 9]).unwrap_err(),
        GameError::InsufficientSpace
    );
    assert!(populate_with_mines(&mut b, 0, 0, &vec![8, 6]).is_ok());
}

#[test]
fn forced_mines_reject_out_of_bounds_safe_cell() {
    let mut b = Board::create_blank(3, 3, 1).unwrap();
    assert_eq!(
        populate_with_mines(&mut b, 3, 0, &vec![8]).unwrap_err(),
        GameError::OutOfBounds
    );
}

#[test]
fn random_generation_respects_safe_zone_and_counts() {
    let mut b = Board::create_blank(9, 9, 10).unwrap();
    populate(&mut b, 4, 4).unwrap();
    let mut mines = 0;
    for y in 0..9 {
        for x in 0..9 {
            let c = b.cell_at(x, y).unwrap();
            assert!(c.covered);
            match c.kind {
                Kind::Mine => mines += 1,
                Kind::Empty => assert_eq!(recount(&b, x, y), 0),
                Kind::Adjacent(n) => {
                    assert!(n >= 1);
                    assert_eq!(recount(&b, x, y), n);
                }
            }
        }
    }
    assert_eq!(mines, 10);
    // The safe cell and all its neighbors are mine-free.
    for y in 3..=5 {
        for x in 3..=5 {
            assert_ne!(kind_at(&b, x, y), Kind::Mine);
        }
    }
}

#[test]
fn random_generation_rejects_crowded_board() {
    // A 3x3 board with a center click excludes all nine cells.
    let mut b = Board::create_blank(3, 3, 1).unwrap();
    assert_eq!(populate(&mut b, 1, 1).unwrap_err(), GameError::InsufficientSpace);
    // A corner click leaves five eligible cells.
    assert!(populate(&mut b, 0, 0).is_ok());
}

#[test]
fn random_generation_rejects_out_of_bounds_safe_cell() {
    let mut b = Board::create_blank(3, 3, 1).unwrap();
    assert_eq!(populate(&mut b, 0, 7).unwrap_err(), GameError::OutOfBounds);
}
