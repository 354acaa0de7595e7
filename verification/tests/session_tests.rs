use minesweeper::GameError;
use minesweeper::board::{Board, Kind};
use minesweeper::session::{Direction, Session, SessionState};

fn covered(s: &Session, x: usize, y: usize) -> bool {
    s.board().cell_at(x, y).unwrap().covered
}

/// A 2x2 in-progress position: one mine at (1, 1), three Adjacent(1) cells.
fn tiny_position() -> Session {
    let mut b = Board::create_blank(2, 2, 1).unwrap();
    b.set_kind(1, 1, Kind::Mine).unwrap();
    b.set_kind(0, 0, Kind::Adjacent(1)).unwrap();
    b.set_kind(1, 0, Kind::Adjacent(1)).unwrap();
    b.set_kind(0, 1, Kind::Adjacent(1)).unwrap();
    Session::from_board(b).unwrap()
}

/// A 3x3 in-progress position: one mine at (1, 1), eight Adjacent(1) cells.
fn ring_position() -> Session {
    let mut b = Board::create_blank(3, 3, 1).unwrap();
    b.set_kind(1, 1, Kind::Mine).unwrap();
    for (x, y) in [(0, 0), (1, 0), (2, 0), (0, 1), (2, 1), (0, 2), (1, 2), (2, 2)] {
        b.set_kind(x, y, Kind::Adjacent(1)).unwrap();
    }
    Session::from_board(b).unwrap()
}

#[test]
fn new_session_starts_blank_and_untouched() {
    let s = Session::new_session(9, 9, 10).unwrap();
    assert_eq!(s.state(), SessionState::NotTouched);
    assert_eq!(s.selection(), (0, 0));
    assert_eq!(s.width(), 9);
    assert_eq!(s.height(), 9);
    assert_eq!(s.num_mines(), 10);
    for y in 0..9 {
        for x in 0..9 {
            let c = s.board().cell_at(x, y).unwrap();
            assert!(c.covered);
            assert!(!c.marked);
            assert_eq!(c.kind, Kind::Empty);
        }
    }
}

#[test]
fn new_session_rejects_zero_dimension() {
    assert_eq!(Session::new_session(0, 9, 1).unwrap_err(), GameError::InvalidDimensions);
    assert_eq!(Session::new_session(9, 0, 1).unwrap_err(), GameError::InvalidDimensions);
}

#[test]
fn new_session_rejects_unfittable_mine_counts() {
    // No room even for a corner first click.
    assert_eq!(Session::new_session(2, 2, 1).unwrap_err(), GameError::InsufficientSpace);
    // Zero mines are not a game.
    assert_eq!(Session::new_session(9, 9, 0).unwrap_err(), GameError::InsufficientSpace);
    // 9x9 has 81 cells; a corner click excludes 4, so 77 mines fit and 78 do not.
    assert!(Session::new_session(9, 9, 77).is_ok());
    assert_eq!(Session::new_session(9, 9, 78).unwrap_err(), GameError::InsufficientSpace);
}

#[test]
fn first_click_floods_and_stays_in_progress() {
    // 3x3 board, 1 mine forced at (2, 2), safe cell (0, 0) selected.
    let mut s = Session::new_session(3, 3, 1).unwrap();
    let (state, redraw) = s.select_with_mines(&vec![8]).unwrap();
    assert_eq!(state, SessionState::InProgress);
    assert!(redraw);
    assert_eq!(s.state(), SessionState::InProgress);
    for y in 0..3 {
        for x in 0..3 {
            assert_eq!(covered(&s, x, y), (x, y) == (2, 2));
        }
    }
    assert_eq!(s.board().cell_at(2, 2).unwrap().kind, Kind::Mine);
}

#[test]
fn second_select_on_uncovered_cell_changes_nothing() {
    let mut s = Session::new_session(3, 3, 1).unwrap();
    s.select_with_mines(&vec![8]).unwrap();
    let before: Vec<_> = (0..3)
        .flat_map(|y| (0..3).map(move |x| (x, y)))
        .map(|(x, y)| s.board().cell_at(x, y).unwrap())
        .collect();
    let (state, redraw) = s.select().unwrap();
    assert_eq!(state, SessionState::InProgress);
    assert!(!redraw);
    let after: Vec<_> = (0..3)
        .flat_map(|y| (0..3).map(move |x| (x, y)))
        .map(|(x, y)| s.board().cell_at(x, y).unwrap())
        .collect();
    assert_eq!(before, after);
}

#[test]
fn first_click_with_impossible_placement_reports_insufficient_space() {
    let mut s = Session::new_session(3, 3, 1).unwrap();
    // Mine inside the safe zone of the selection.
    assert_eq!(s.select_with_mines(&vec![4]).unwrap_err(), GameError::InsufficientSpace);
    assert_eq!(s.state(), SessionState::NotTouched);
    // Random placement with a center first click has nowhere to go.
    s.move_selection(Direction::Right);
    s.move_selection(Direction::Down);
    assert_eq!(s.select().unwrap_err(), GameError::InsufficientSpace);
    assert_eq!(s.state(), SessionState::NotTouched);
}

#[test]
fn uncovering_all_safe_cells_wins() {
    // 2x2 board, 1 mine at a known position; uncover the 3 non-mine cells.
    let mut s = tiny_position();
    assert_eq!(s.select().unwrap(), (SessionState::InProgress, true));
    s.move_selection(Direction::Right);
    assert_eq!(s.select().unwrap(), (SessionState::InProgress, true));
    s.move_selection(Direction::Left);
    s.move_selection(Direction::Down);
    let (state, redraw) = s.select().unwrap();
    assert_eq!(state, SessionState::Won);
    assert!(redraw);
    // No covered cells remain but the mine.
    for y in 0..2 {
        for x in 0..2 {
            assert_eq!(covered(&s, x, y), (x, y) == (1, 1));
        }
    }
}

#[test]
fn selecting_a_mine_loses_and_reveals_all_mines() {
    let mut s = ring_position();
    s.move_selection(Direction::Right);
    s.move_selection(Direction::Down);
    assert_eq!(s.selection(), (1, 1));
    let (state, redraw) = s.select().unwrap();
    assert_eq!(state, SessionState::Lost);
    assert!(redraw);
    // Every mine cell is visible; the untouched safe cells stay covered.
    for y in 0..3 {
        for x in 0..3 {
            let c = s.board().cell_at(x, y).unwrap();
            if c.kind == Kind::Mine {
                assert!(!c.covered);
            } else {
                assert!(c.covered);
            }
        }
    }
    // The terminal state ignores further selects.
    assert_eq!(s.select().unwrap(), (SessionState::Lost, false));
}

#[test]
fn direction_at_edge_leaves_selection_unchanged() {
    let mut s = Session::new_session(3, 3, 1).unwrap();
    assert_eq!(s.move_selection(Direction::Up), (SessionState::NotTouched, false));
    assert_eq!(s.selection(), (0, 0));
    assert_eq!(s.move_selection(Direction::Left), (SessionState::NotTouched, false));
    assert_eq!(s.selection(), (0, 0));
    // Repeated edge moves are idempotent.
    s.move_selection(Direction::Up);
    s.move_selection(Direction::Up);
    assert_eq!(s.selection(), (0, 0));
    // An inward move works and clamps at the far edge.
    assert_eq!(s.move_selection(Direction::Right), (SessionState::NotTouched, true));
    s.move_selection(Direction::Right);
    assert_eq!(s.selection(), (2, 0));
    assert_eq!(s.move_selection(Direction::Right), (SessionState::NotTouched, false));
    assert_eq!(s.selection(), (2, 0));
}

#[test]
fn mark_toggles_only_covered_cells() {
    let mut s = ring_position();
    let (state, redraw) = s.mark();
    assert_eq!(state, SessionState::InProgress);
    assert!(redraw);
    assert!(s.board().cell_at(0, 0).unwrap().marked);
    assert_eq!(s.board().marked_count(), 1);
    let (_, redraw) = s.mark();
    assert!(redraw);
    assert!(!s.board().cell_at(0, 0).unwrap().marked);
    // An uncovered cell cannot be marked.
    s.select().unwrap();
    assert_eq!(s.mark(), (SessionState::InProgress, false));
    assert!(!s.board().cell_at(0, 0).unwrap().marked);
}

#[test]
fn restart_recreates_the_blank_board_from_terminal_states() {
    let mut s = tiny_position();
    // Restart is ignored while the game runs.
    assert_eq!(s.restart(), (SessionState::InProgress, false));
    s.select().unwrap();
    s.move_selection(Direction::Right);
    s.select().unwrap();
    s.move_selection(Direction::Left);
    s.move_selection(Direction::Down);
    assert_eq!(s.select().unwrap().0, SessionState::Won);
    let (state, redraw) = s.restart();
    assert_eq!(state, SessionState::NotTouched);
    assert!(redraw);
    assert_eq!(s.selection(), (0, 0));
    assert_eq!(s.width(), 2);
    assert_eq!(s.height(), 2);
    assert_eq!(s.num_mines(), 1);
    for y in 0..2 {
        for x in 0..2 {
            let c = s.board().cell_at(x, y).unwrap();
            assert!(c.covered);
            assert!(!c.marked);
            assert_eq!(c.kind, Kind::Empty);
        }
    }
}

#[test]
fn quit_reports_the_state_and_mutates_nothing() {
    let s = Session::new_session(3, 3, 1).unwrap();
    assert_eq!(s.quit(), SessionState::NotTouched);
    assert_eq!(s.state(), SessionState::NotTouched);
}

#[test]
fn forced_placement_is_ignored_once_the_game_runs() {
    let mut s = ring_position();
    // The game is already in progress: the list plays no part and the select
    // acts on the cursor as usual.
    let (state, redraw) = s.select_with_mines(&vec![0]).unwrap();
    assert_eq!(state, SessionState::InProgress);
    assert!(redraw);
    assert!(!covered(&s, 0, 0));
}

#[test]
fn terminal_states_ignore_marks_and_moves() {
    let mut s = ring_position();
    s.move_selection(Direction::Right);
    s.move_selection(Direction::Down);
    s.select().unwrap();
    assert_eq!(s.state(), SessionState::Lost);
    assert_eq!(s.mark(), (SessionState::Lost, false));
    assert_eq!(s.move_selection(Direction::Up), (SessionState::Lost, false));
    assert_eq!(s.selection(), (1, 1));
}

#[test]
fn from_board_rejects_broken_positions() {
    // Mine count disagrees with the cells.
    let mut b = Board::create_blank(2, 2, 2).unwrap();
    b.set_kind(1, 1, Kind::Mine).unwrap();
    b.set_kind(0, 0, Kind::Adjacent(1)).unwrap();
    b.set_kind(1, 0, Kind::Adjacent(1)).unwrap();
    b.set_kind(0, 1, Kind::Adjacent(1)).unwrap();
    assert!(Session::from_board(b).is_none());

    // A wrong adjacency count.
    let mut b = Board::create_blank(2, 2, 1).unwrap();
    b.set_kind(1, 1, Kind::Mine).unwrap();
    b.set_kind(0, 0, Kind::Adjacent(2)).unwrap();
    b.set_kind(1, 0, Kind::Adjacent(1)).unwrap();
    b.set_kind(0, 1, Kind::Adjacent(1)).unwrap();
    assert!(Session::from_board(b).is_none());

    // An uncovered mine.
    let mut b = Board::create_blank(2, 2, 1).unwrap();
    b.set_kind(1, 1, Kind::Mine).unwrap();
    b.set_kind(0, 0, Kind::Adjacent(1)).unwrap();
    b.set_kind(1, 0, Kind::Adjacent(1)).unwrap();
    b.set_kind(0, 1, Kind::Adjacent(1)).unwrap();
    b.set_covered(1, 1, false).unwrap();
    assert!(Session::from_board(b).is_none());
}
