//! The session: one playthrough as a state machine. It owns the board and the
//! selection cursor, defers mine generation to the first select command so
//! that the first click is safe, and moves between the states `NotTouched`,
//! `InProgress`, `Won` and `Lost` as the transition rules demand.

use vstd::prelude::*;

use crate::GameError;
use crate::board::{
    Board, Cell, Grid, Kind, count_mines, lemma_adjacency_correct_transfer, lemma_count_mines_step,
    lemma_count_mines_update, lemma_flat_bounds, zone_size,
};
use crate::flood::{mines_covered, won};

verus! {

/// Where a playthrough stands.
#[derive(Clone, Copy, Debug, PartialEq, Eq, Structural)]
pub enum SessionState {
    /// No cell has been selected yet; the mines are not placed.
    NotTouched,
    /// Mines are placed and the player is uncovering cells.
    InProgress,
    /// Every non-mine cell is uncovered.
    Won,
    /// A mine was uncovered; every mine has been revealed.
    Lost,
}

/// A cursor movement command.
#[derive(Clone, Copy, Debug, PartialEq, Eq, Structural)]
pub enum Direction {
    Up,
    Down,
    Left,
    Right,
}

/// One playthrough: a board, the selection cursor, and the game state.
#[derive(Debug)]
pub struct Session {
    pub board: Board,
    pub sel_x: usize,
    pub sel_y: usize,
    pub state: SessionState,
}

/// Where the cursor lands: one step in the given direction, except that a step
/// past an edge leaves it where it is (clamped, not wrapped).
pub open spec fn move_sel(sx: int, sy: int, dir: Direction, w: int, h: int) -> (int, int) {
    match dir {
        Direction::Up => if sy > 0 {
            (sx, sy - 1)
        } else {
            (sx, sy)
        },
        Direction::Down => if sy + 1 < h {
            (sx, sy + 1)
        } else {
            (sx, sy)
        },
        Direction::Left => if sx > 0 {
            (sx - 1, sy)
        } else {
            (sx, sy)
        },
        Direction::Right => if sx + 1 < w {
            (sx + 1, sy)
        } else {
            (sx, sy)
        },
    }
}

/// The cursor stands at the edge the direction points past.
pub open spec fn at_edge(sx: int, sy: int, dir: Direction, w: int, h: int) -> bool {
    match dir {
        Direction::Up => sy == 0,
        Direction::Down => sy + 1 >= h,
        Direction::Left => sx == 0,
        Direction::Right => sx + 1 >= w,
    }
}

/// A direction command at a grid edge leaves the selection unchanged, and
/// repeating an edge-direction command still leaves it unchanged: clamped
/// movement is idempotent at the edges.
pub proof fn lemma_move_clamps_at_edge(sx: int, sy: int, dir: Direction, w: int, h: int)
    requires
        at_edge(sx, sy, dir, w, h),
    ensures
        move_sel(sx, sy, dir, w, h) == (sx, sy),
        move_sel(move_sel(sx, sy, dir, w, h).0, move_sel(sx, sy, dir, w, h).1, dir, w, h) == (
            sx,
            sy,
        ),
{
}

impl Session {
    /// Mines are placed and counted correctly for play.
    pub open spec fn generated_wf(self) -> bool {
        &&& count_mines(self.board@.cells) == self.board@.num_mines
        &&& self.board@.adjacency_correct()
    }

    /// The session invariant: a well-formed board, an in-range cursor, a mine
    /// count that leaves at least one safe cell, and a board shape that
    /// matches the state of play.
    pub open spec fn wf(self) -> bool {
        &&& self.board@.wf()
        &&& self.board@.in_bounds(self.sel_x as int, self.sel_y as int)
        &&& 1 <= self.board@.num_mines < self.board@.cells.len()
        &&& match self.state {
            SessionState::NotTouched => forall|i: int|
                0 <= i < self.board@.cells.len() ==> (#[trigger] self.board@.cells[i]).covered
                    && self.board@.cells[i].kind is Empty,
            SessionState::InProgress => self.generated_wf() && mines_covered(self.board@),
            SessionState::Won => self.generated_wf() && won(self.board@),
            SessionState::Lost => self.generated_wf() && (forall|i: int|
                0 <= i < self.board@.cells.len() ==> ((#[trigger] self.board@.cells[i].kind
                    is Mine) ==> !self.board@.cells[i].covered)),
        }
    }

    /// A fresh playthrough: a blank covered board, the cursor at the origin,
    /// and no mines placed yet.
    ///
    /// Fails with `InvalidDimensions` exactly when a dimension is zero or the
    /// grid would not fit in memory, and with `InsufficientSpace` exactly when
    /// the mine count is zero or would not fit outside the safe zone even of a
    /// corner click (the smallest safe zone a first click can have).
    pub fn new_session(width: usize, height: usize, num_mines: usize) -> (r: Result<
        Session,
        GameError,
    >)
        ensures
            match r {
                Ok(s) => {
                    &&& width >= 1 && height >= 1 && width * height <= usize::MAX
                    &&& 1 <= num_mines
                    &&& num_mines + zone_size(width as int, height as int, 0, 0) <= width * height
                    &&& s.wf()
                    &&& s.board@.width == width && s.board@.height == height
                        && s.board@.num_mines == num_mines
                    &&& s.board@.all_blank()
                    &&& s.sel_x == 0 && s.sel_y == 0
                    &&& s.state == SessionState::NotTouched
                },
                Err(e) => {
                    &&& (e == GameError::InvalidDimensions || e == GameError::InsufficientSpace)
                    &&& (e == GameError::InvalidDimensions <==> (width == 0 || height == 0 || width
                        * height > usize::MAX))
                    &&& (e == GameError::InsufficientSpace <==> (width >= 1 && height >= 1 && width
                        * height <= usize::MAX && (num_mines < 1 || num_mines + zone_size(
                        width as int,
                        height as int,
                        0,
                        0,
                    ) > width * height)))
                },
            },
    {
        if width == 0 || height == 0 {
            return Err(GameError::InvalidDimensions);
        }
        let total = match width.checked_mul(height) {
            Some(t) => t,
            None => {
                return Err(GameError::InvalidDimensions);
            },
        };
        let zone_w: usize = if width >= 2 {
            2
        } else {
            1
        };
        let zone_h: usize = if height >= 2 {
            2
        } else {
            1
        };
        let zone = zone_w * zone_h;
        proof {
            assert(zone == zone_size(width as int, height as int, 0, 0));
            assert(zone_w <= width && zone_h <= height);
            assert(zone_w * zone_h <= width * height) by (nonlinear_arith)
                requires
                    0 < zone_w <= width,
                    0 < zone_h <= height,
            ;
        }
        if num_mines < 1 || num_mines > total - zone {
            return Err(GameError::InsufficientSpace);
        }
        let board = match Board::create_blank(width, height, num_mines) {
            Ok(b) => b,
            Err(_) => {
                proof {
                    assert(false);
                }
                return Err(GameError::InvalidDimensions);
            },
        };
        Ok(Session { board, sel_x: 0, sel_y: 0, state: SessionState::NotTouched })
    }

    /// Moves the selection one step, clamped at the edges. Accepted while the
    /// game is running (`NotTouched` or `InProgress`); the terminal states
    /// ignore it. Returns the state and whether the cursor moved.
    pub fn move_selection(&mut self, dir: Direction) -> (r: (SessionState, bool))
        requires
            old(self).wf(),
        ensures
            final(self).wf(),
            final(self).board@ == old(self).board@,
            final(self).state == old(self).state,
            r.0 == final(self).state,
            (old(self).state is NotTouched || old(self).state is InProgress)
                ==> (final(self).sel_x as int, final(self).sel_y as int) == move_sel(
                old(self).sel_x as int,
                old(self).sel_y as int,
                dir,
                old(self).board@.width,
                old(self).board@.height,
            ),
            !(old(self).state is NotTouched || old(self).state is InProgress) ==> final(self).sel_x
                == old(self).sel_x && final(self).sel_y == old(self).sel_y,
            r.1 == !(final(self).sel_x == old(self).sel_x && final(self).sel_y == old(
                self,
            ).sel_y),
    {
        let live = matches!(self.state, SessionState::NotTouched | SessionState::InProgress);
        let mut moved = false;
        if live {
            match dir {
                Direction::Up => {
                    if self.sel_y > 0 {
                        self.sel_y = self.sel_y - 1;
                        moved = true;
                    }
                },
                Direction::Down => {
                    if self.sel_y + 1 < self.board.height {
                        self.sel_y = self.sel_y + 1;
                        moved = true;
                    }
                },
                Direction::Left => {
                    if self.sel_x > 0 {
                        self.sel_x = self.sel_x - 1;
                        moved = true;
                    }
                },
                Direction::Right => {
                    if self.sel_x + 1 < self.board.width {
                        self.sel_x = self.sel_x + 1;
                        moved = true;
                    }
                },
            }
        }
        (self.state, moved)
    }

    /// Toggles the mark on the selected cell, if it is still covered and the
    /// game is running. Returns the state and whether anything changed.
    pub fn mark(&mut self) -> (r: (SessionState, bool))
        requires
            old(self).wf(),
        ensures
            final(self).wf(),
            final(self).state == old(self).state,
            final(self).sel_x == old(self).sel_x && final(self).sel_y == old(self).sel_y,
            r.0 == final(self).state,
            ({
                let sx = old(self).sel_x as int;
                let sy = old(self).sel_y as int;
                let c = old(self).board@.cell(sx, sy);
                if (old(self).state is NotTouched || old(self).state is InProgress) && c.covered {
                    final(self).board@ == old(self).board@.with_cell(
                        sx,
                        sy,
                        Cell { marked: !c.marked, ..c },
                    ) && r.1 == true
                } else {
                    final(self).board@ == old(self).board@ && r.1 == false
                }
            }),
    {
        if !matches!(self.state, SessionState::NotTouched | SessionState::InProgress) {
            return (self.state, false);
        }
        let c = self.board.cell_get(self.sel_x, self.sel_y);
        if !c.covered {
            return (self.state, false);
        }
        let ghost g = self.board@;
        let ghost sx = self.sel_x as int;
        let ghost sy = self.sel_y as int;
        self.board.cell_put(self.sel_x, self.sel_y, Cell { marked: !c.marked, ..c });
        proof {
            lemma_flat_bounds(g, sx, sy);
            let nc = Cell { marked: !c.marked, ..c };
            assert forall|i: int| 0 <= i < g.cells.len() implies #[trigger] self.board@.cells[i].kind
                == g.cells[i].kind && self.board@.cells[i].covered == g.cells[i].covered by {
                if i != g.flat(sx, sy) {
                    assert(self.board@.cells[i] == g.cells[i]);
                }
            }
            if self.state is InProgress || self.state is NotTouched {
                lemma_count_mines_update(g.cells, g.flat(sx, sy), nc);
                if self.state is InProgress {
                    lemma_adjacency_correct_transfer(g, self.board@);
                }
            }
        }
        (self.state, true)
    }

    /// Reports the state; quitting itself is the caller's affair (the engine
    /// neither blocks nor terminates the process) and mutates nothing.
    pub fn quit(&self) -> (r: SessionState)
        ensures
            r == self.state,
    {
        self.state
    }

    /// From a terminal state, recreates the blank board with the same
    /// dimensions and mine count, puts the cursor back at the origin, and
    /// starts over in `NotTouched`. Ignored while a game is running.
    pub fn restart(&mut self) -> (r: (SessionState, bool))
        requires
            old(self).wf(),
        ensures
            final(self).wf(),
            r.0 == final(self).state,
            if old(self).state is Won || old(self).state is Lost {
                &&& final(self).board@.width == old(self).board@.width
                &&& final(self).board@.height == old(self).board@.height
                &&& final(self).board@.num_mines == old(self).board@.num_mines
                &&& final(self).board@.all_blank()
                &&& final(self).sel_x == 0 && final(self).sel_y == 0
                &&& final(self).state == SessionState::NotTouched
                &&& r.1 == true
            } else {
                &&& final(self).board@ == old(self).board@
                &&& final(self).sel_x == old(self).sel_x && final(self).sel_y == old(self).sel_y
                &&& final(self).state == old(self).state
                &&& r.1 == false
            },
    {
        if !matches!(self.state, SessionState::Won | SessionState::Lost) {
            return (self.state, false);
        }
        let n = self.board.cells.len();
        proof {
            assert(n == self.board@.cells.len());
        }
        let board = match Board::create_blank(self.board.width, self.board.height, self.board.num_mines) {
            Ok(b) => b,
            Err(_) => {
                proof {
                    assert(false);
                }
                return (self.state, false);
            },
        };
        self.board = board;
        self.sel_x = 0;
        self.sel_y = 0;
        self.state = SessionState::NotTouched;
        (self.state, true)
    }
}

/// How a select command moves a board already in play (any state but
/// `NotTouched`, whose transition places mines first and is described by
/// `first_click_post`): terminal states ignore it; an uncovered selection is a
/// no-op; a covered mine loses and reveals every mine; any other covered cell
/// is uncovered — flooding if `Empty` — and the game is won exactly when only
/// the mines remain covered.
pub open spec fn select_step_rel(
    g: Grid,
    sx: int,
    sy: int,
    st: SessionState,
    g2: Grid,
    st2: SessionState,
) -> bool {
    match st {
        SessionState::NotTouched => false,
        SessionState::Won | SessionState::Lost => g2 == g && st2 == st,
        SessionState::InProgress => {
            if !g.cell(sx, sy).covered {
                g2 == g && st2 == SessionState::InProgress
            } else if g.cell(sx, sy).kind is Mine {
                crate::flood::mines_revealed(g, g2) && st2 == SessionState::Lost
            } else {
                crate::flood::uncover_post(g, g2, sx, sy) && st2 == (if won(g2) {
                    SessionState::Won
                } else {
                    SessionState::InProgress
                })
            }
        },
    }
}

/// How the first select command moves a `NotTouched` board: some generated
/// board stands in between — namely the final board with every cell covered
/// again and the old marks restored — and the final board is its uncovering at
/// the selection. The state becomes `InProgress`.
pub open spec fn first_click_post(g: Grid, sx: int, sy: int, g2: Grid, st2: SessionState) -> bool {
    let gp = Grid {
        width: g2.width,
        height: g2.height,
        num_mines: g2.num_mines,
        cells: Seq::new(
            g2.cells.len(),
            |i: int| Cell { covered: true, marked: g.cells[i].marked, kind: g2.cells[i].kind },
        ),
    };
    &&& crate::generate::generated(g, gp, sx, sy)
    &&& crate::flood::uncover_post(gp, g2, sx, sy)
    &&& st2 == SessionState::InProgress
}

/// Selecting is idempotent: whatever one select command did to a board in
/// play, a second select at the same cursor changes nothing more.
pub proof fn lemma_select_idempotent(
    g: Grid,
    sx: int,
    sy: int,
    st: SessionState,
    g2: Grid,
    st2: SessionState,
    g3: Grid,
    st3: SessionState,
)
    requires
        g.wf(),
        g.in_bounds(sx, sy),
        st != SessionState::NotTouched,
        select_step_rel(g, sx, sy, st, g2, st2),
        select_step_rel(g2, sx, sy, st2, g3, st3),
    ensures
        g3 == g2,
        st3 == st2,
{
    if st is InProgress && g.cell(sx, sy).covered {
        if g.cell(sx, sy).kind is Mine {
            assert(st2 == SessionState::Lost);
        } else {
            crate::board::lemma_flat_bounds(g, sx, sy);
            assert(crate::flood::newly_uncovered(g, sx, sy, sx, sy)) by {
                if g.cell(sx, sy).kind is Empty {
                    let p = seq![(sx, sy)];
                    assert(crate::flood::flood_path(g, p));
                    assert(p.first() == (sx, sy) && p.last() == (sx, sy));
                    assert(crate::flood::flooded(g, sx, sy, sx, sy));
                }
            }
            assert(!g2.cell(sx, sy).covered);
        }
    }
}

impl Session {
    /// Adopts a caller-built board as a game already in play, with the cursor
    /// at the origin: the injection point for boards set up by hand. Returns
    /// `None` — accepting nothing — unless the board is a playable position:
    /// well-formed, a mine count that is honest and leaves room, every
    /// adjacency count correct, and every mine still covered.
    pub fn from_board(board: Board) -> (r: Option<Session>)
        ensures
            match r {
                Some(s) => {
                    &&& board@.wf()
                    &&& 1 <= board@.num_mines < board@.cells.len()
                    &&& count_mines(board@.cells) == board@.num_mines
                    &&& board@.adjacency_correct()
                    &&& mines_covered(board@)
                    &&& s.board@ == board@
                    &&& s.sel_x == 0 && s.sel_y == 0
                    &&& s.state == SessionState::InProgress
                    &&& s.wf()
                },
                None => !({
                    &&& board@.wf()
                    &&& 1 <= board@.num_mines < board@.cells.len()
                    &&& count_mines(board@.cells) == board@.num_mines
                    &&& board@.adjacency_correct()
                    &&& mines_covered(board@)
                }),
            },
    {
        if board.width < 1 || board.height < 1 {
            return None;
        }
        let len = board.cells.len();
        proof {
            assert(len == board@.cells.len());
        }
        let total = match board.width.checked_mul(board.height) {
            Some(t) => t,
            None => {
                return None;
            },
        };
        if board.cells.len() != total {
            return None;
        }
        if board.num_mines < 1 || board.num_mines >= board.cells.len() {
            return None;
        }
        let n = board.cells.len();
        let mut cnt: usize = 0;
        let mut i: usize = 0;
        while i < n
            invariant
                board@.wf(),
                i <= n,
                n == board@.cells.len(),
                cnt as int == count_mines(board@.cells.subrange(0, i as int)),
                cnt <= i,
                forall|j: int|
                    0 <= j < i ==> ((#[trigger] board@.cells[j].kind is Mine)
                        ==> board@.cells[j].covered),
            decreases n - i,
        {
            let c = board.cells[i];
            proof {
                lemma_count_mines_step(board@.cells, i as int);
                crate::board::lemma_count_if_bounds(
                    board@.cells.subrange(0, i as int),
                    |c: Cell| crate::board::spec_mine(c),
                );
            }
            if matches!(c.kind, Kind::Mine) {
                if !c.covered {
                    return None;
                }
                cnt = cnt + 1;
            }
            i = i + 1;
        }
        proof {
            assert(board@.cells.subrange(0, n as int) =~= board@.cells);
        }
        if cnt != board.num_mines {
            return None;
        }
        let mut y: usize = 0;
        while y < board.height
            invariant
                board@.wf(),
                y <= board@.height,
                forall|x2: int, y2: int|
                    #![trigger board@.cell(x2, y2)]
                    board@.in_bounds(x2, y2) && y2 < y && !(board@.cell(x2, y2).kind is Mine)
                        ==> board@.cell(x2, y2).kind == board@.counted_kind(x2, y2),
            decreases board@.height - y,
        {
            let mut x: usize = 0;
            while x < board.width
                invariant
                    board@.wf(),
                    y < board@.height,
                    x <= board@.width,
                    forall|x2: int, y2: int|
                        #![trigger board@.cell(x2, y2)]
                        board@.in_bounds(x2, y2) && (y2 < y || (y2 == y && x2 < x)) && !(
                        board@.cell(x2, y2).kind is Mine) ==> board@.cell(x2, y2).kind
                            == board@.counted_kind(x2, y2),
                decreases board@.width - x,
            {
                let c = board.cell_get(x, y);
                if !matches!(c.kind, Kind::Mine) {
                    let a = crate::generate::adj_count_at(&board, x, y);
                    let expected = if a > 0 {
                        Kind::Adjacent(a)
                    } else {
                        Kind::Empty
                    };
                    if c.kind != expected {
                        proof {
                            assert(!board@.adjacency_correct());
                        }
                        return None;
                    }
                }
                x = x + 1;
            }
            y = y + 1;
        }
        Some(Session { board, sel_x: 0, sel_y: 0, state: SessionState::InProgress })
    }

    /// The game state.
    pub fn state(&self) -> (r: SessionState)
        ensures
            r == self.state,
    {
        self.state
    }

    /// The cursor position.
    pub fn selection(&self) -> (r: (usize, usize))
        ensures
            r == (self.sel_x, self.sel_y),
    {
        (self.sel_x, self.sel_y)
    }

    /// The board, for rendering and cell queries.
    pub fn board(&self) -> (r: &Board)
        ensures
            r == &self.board,
    {
        &self.board
    }

    /// The grid width.
    pub fn width(&self) -> (r: usize)
        ensures
            r == self.board.width,
    {
        self.board.width
    }

    /// The grid height.
    pub fn height(&self) -> (r: usize)
        ensures
            r == self.board.height,
    {
        self.board.height
    }

    /// How many mines the board holds once generated.
    pub fn num_mines(&self) -> (r: usize)
        ensures
            r == self.board.num_mines,
    {
        self.board.num_mines
    }

    /// The select transition for a board already in play (`select` and
    /// `select_with_mines` share it).
    fn select_touched(&mut self) -> (r: (SessionState, bool))
        requires
            old(self).wf(),
            old(self).state is InProgress,
        ensures
            final(self).wf(),
            final(self).sel_x == old(self).sel_x && final(self).sel_y == old(self).sel_y,
            select_step_rel(
                old(self).board@,
                old(self).sel_x as int,
                old(self).sel_y as int,
                old(self).state,
                final(self).board@,
                final(self).state,
            ),
            r.0 == final(self).state,
            r.1 == old(self).board@.cell(old(self).sel_x as int, old(self).sel_y as int).covered,
    {
        let c = self.board.cell_get(self.sel_x, self.sel_y);
        if !c.covered {
            return (self.state, false);
        }
        let ghost g = self.board@;
        let ghost sx = self.sel_x as int;
        let ghost sy = self.sel_y as int;
        if matches!(c.kind, Kind::Mine) {
            crate::flood::reveal_mines(&mut self.board);
            self.state = SessionState::Lost;
            proof {
                crate::board::lemma_count_mines_pointwise(self.board@.cells, g.cells);
                lemma_adjacency_correct_transfer(g, self.board@);
            }
            (self.state, true)
        } else {
            match crate::flood::uncover(&mut self.board, self.sel_x, self.sel_y) {
                Ok(()) => {},
                Err(_) => {
                    proof {
                        assert(false);
                    }
                },
            }
            proof {
                crate::board::lemma_count_mines_pointwise(self.board@.cells, g.cells);
                lemma_adjacency_correct_transfer(g, self.board@);
                crate::flood::lemma_uncover_keeps_mines_covered(g, self.board@, sx, sy);
            }
            if crate::flood::has_won(&self.board) {
                self.state = SessionState::Won;
            }
            (self.state, true)
        }
    }

    /// The first-click transition once the mines stand on the board: uncovers
    /// the selection (flooding from the safe cell) and enters `InProgress`.
    /// `g0` is the blank grid the session held before generation.
    fn first_uncover(&mut self, Ghost(g0): Ghost<Grid>)
        requires
            old(self).board@.wf(),
            old(self).board@.in_bounds(old(self).sel_x as int, old(self).sel_y as int),
            1 <= old(self).board@.num_mines < old(self).board@.cells.len(),
            g0.wf(),
            g0.width == old(self).board@.width && g0.height == old(self).board@.height
                && g0.num_mines == old(self).board@.num_mines,
            forall|i: int|
                0 <= i < g0.cells.len() ==> (#[trigger] g0.cells[i]).covered && g0.cells[i].kind
                    is Empty,
            crate::generate::generated(
                g0,
                old(self).board@,
                old(self).sel_x as int,
                old(self).sel_y as int,
            ),
        ensures
            final(self).wf(),
            final(self).sel_x == old(self).sel_x && final(self).sel_y == old(self).sel_y,
            final(self).board@.width == old(self).board@.width && final(self).board@.height == old(
                self,
            ).board@.height && final(self).board@.num_mines == old(self).board@.num_mines,
            first_click_post(
                g0,
                old(self).sel_x as int,
                old(self).sel_y as int,
                final(self).board@,
                final(self).state,
            ),
            forall|i: int|
                #![trigger final(self).board@.cells[i]]
                0 <= i < g0.cells.len() ==> final(self).board@.cells[i].kind == old(
                    self,
                ).board@.cells[i].kind,
    {
        let ghost bp = self.board@;
        let ghost sx = self.sel_x as int;
        let ghost sy = self.sel_y as int;
        proof {
            crate::board::lemma_flat_bounds(bp, sx, sy);
            assert(bp.cell(sx, sy).covered);
            assert(!(bp.cell(sx, sy).kind is Mine)) by {
                assert(crate::board::in_zone(sx, sy, sx, sy));
            }
        }
        match crate::flood::uncover(&mut self.board, self.sel_x, self.sel_y) {
            Ok(()) => {},
            Err(_) => {
                proof {
                    assert(false);
                }
            },
        }
        self.state = SessionState::InProgress;
        proof {
            let g2 = self.board@;
            let gp = Grid {
                width: g2.width,
                height: g2.height,
                num_mines: g2.num_mines,
                cells: Seq::new(
                    g2.cells.len(),
                    |i: int|
                        Cell { covered: true, marked: g0.cells[i].marked, kind: g2.cells[i].kind },
                ),
            };
            assert(gp.cells =~= bp.cells) by {
                assert forall|i: int| 0 <= i < g2.cells.len() implies gp.cells[i] == bp.cells[i] by {
                    assert(bp.cells[i].covered == g0.cells[i].covered);
                    assert(bp.cells[i].marked == g0.cells[i].marked);
                    assert(g2.cells[i].kind == bp.cells[i].kind);
                }
            }
            assert(gp =~= bp);
            assert(mines_covered(bp)) by {
                assert(forall|i: int|
                    0 <= i < bp.cells.len() ==> (#[trigger] bp.cells[i]).covered);
            }
            crate::board::lemma_count_mines_pointwise(g2.cells, bp.cells);
            lemma_adjacency_correct_transfer(bp, g2);
            crate::flood::lemma_uncover_keeps_mines_covered(bp, g2, sx, sy);
        }
    }

    /// Runs the select command at the current cursor.
    ///
    /// The first select of a playthrough places the mines at random so that
    /// the selected cell and its whole neighborhood stay mine-free, uncovers
    /// the selection (flooding outward, since the safe cell borders no mine),
    /// and enters `InProgress`; it fails with `InsufficientSpace` — changing
    /// nothing — exactly when the mines do not fit outside that safe zone.
    /// Afterwards, selecting an uncovered cell is a no-op, a covered mine
    /// loses and reveals all mines, and any other covered cell is uncovered,
    /// winning exactly when only mines remain covered. Terminal states ignore
    /// the command. Returns the state and whether a redraw is warranted.
    pub fn select(&mut self) -> (r: Result<(SessionState, bool), GameError>)
        requires
            old(self).wf(),
        ensures
            final(self).wf(),
            final(self).sel_x == old(self).sel_x && final(self).sel_y == old(self).sel_y,
            match r {
                Ok(t) => {
                    &&& t.0 == final(self).state
                    &&& if old(self).state is NotTouched {
                        first_click_post(
                            old(self).board@,
                            old(self).sel_x as int,
                            old(self).sel_y as int,
                            final(self).board@,
                            final(self).state,
                        ) && t.1 == true
                    } else {
                        select_step_rel(
                            old(self).board@,
                            old(self).sel_x as int,
                            old(self).sel_y as int,
                            old(self).state,
                            final(self).board@,
                            final(self).state,
                        ) && t.1 == (old(self).state is InProgress && old(self).board@.cell(
                            old(self).sel_x as int,
                            old(self).sel_y as int,
                        ).covered)
                    }
                },
                Err(e) => {
                    &&& e == GameError::InsufficientSpace
                    &&& old(self).state is NotTouched
                    &&& final(self).board@ == old(self).board@
                    &&& final(self).state == old(self).state
                },
            },
            old(self).state is NotTouched ==> (r is Err <==> old(self).board@.num_mines > old(
                self,
            ).board@.cells.len() - zone_size(
                old(self).board@.width,
                old(self).board@.height,
                old(self).sel_x as int,
                old(self).sel_y as int,
            )),
    {
        match self.state {
            SessionState::Won | SessionState::Lost => Ok((self.state, false)),
            SessionState::InProgress => Ok(self.select_touched()),
            SessionState::NotTouched => {
                let ghost g0 = self.board@;
                match crate::generate::populate(&mut self.board, self.sel_x, self.sel_y) {
                    Err(e) => {
                        proof {
                            assert(e == GameError::InsufficientSpace);
                        }
                        Err(e)
                    },
                    Ok(()) => {
                        self.first_uncover(Ghost(g0));
                        Ok((self.state, true))
                    },
                }
            },
        }
    }

    /// Runs the select command with a caller-chosen mine placement standing in
    /// for the random draw: the deterministic counterpart of `select`, for
    /// callers that need a reproducible board. In every state but `NotTouched`
    /// it behaves exactly as `select` does and ignores `mines`.
    ///
    /// Fails with `InsufficientSpace` — changing nothing — exactly when the
    /// game is untouched and the placement is unusable: wrong count, a
    /// repeated or out-of-range index, or an index inside the safe zone of the
    /// selection.
    pub fn select_with_mines(&mut self, mines: &Vec<usize>) -> (r: Result<
        (SessionState, bool),
        GameError,
    >)
        requires
            old(self).wf(),
        ensures
            final(self).wf(),
            final(self).sel_x == old(self).sel_x && final(self).sel_y == old(self).sel_y,
            match r {
                Ok(t) => {
                    &&& t.0 == final(self).state
                    &&& if old(self).state is NotTouched {
                        first_click_post(
                            old(self).board@,
                            old(self).sel_x as int,
                            old(self).sel_y as int,
                            final(self).board@,
                            final(self).state,
                        ) && (forall|i: int|
                            0 <= i < final(self).board@.cells.len() ==> ((
                            #[trigger] final(self).board@.cells[i].kind is Mine)
                                <==> crate::generate::contains_idx(mines@, i))) && t.1 == true
                    } else {
                        select_step_rel(
                            old(self).board@,
                            old(self).sel_x as int,
                            old(self).sel_y as int,
                            old(self).state,
                            final(self).board@,
                            final(self).state,
                        ) && t.1 == (old(self).state is InProgress && old(self).board@.cell(
                            old(self).sel_x as int,
                            old(self).sel_y as int,
                        ).covered)
                    }
                },
                Err(e) => {
                    &&& e == GameError::InsufficientSpace
                    &&& old(self).state is NotTouched
                    &&& final(self).board@ == old(self).board@
                    &&& final(self).state == old(self).state
                },
            },
            old(self).state is NotTouched ==> (r is Err <==> !crate::generate::valid_mines(
                old(self).board@,
                old(self).sel_x as int,
                old(self).sel_y as int,
                mines@,
            )),
    {
        match self.state {
            SessionState::Won | SessionState::Lost => Ok((self.state, false)),
            SessionState::InProgress => Ok(self.select_touched()),
            SessionState::NotTouched => {
                let ghost g0 = self.board@;
                match crate::generate::populate_with_mines(
                    &mut self.board,
                    self.sel_x,
                    self.sel_y,
                    mines,
                ) {
                    Err(e) => {
                        proof {
                            assert(e == GameError::InsufficientSpace);
                        }
                        Err(e)
                    },
                    Ok(()) => {
                        self.first_uncover(Ghost(g0));
                        Ok((self.state, true))
                    },
                }
            },
        }
    }
}

} // verus!
