//! The grid of cells: representation, bounds, neighbor geometry, and the
//! counting functions that the rest of the engine states its contracts with.

use vstd::prelude::*;

use crate::GameError;

verus! {

/// The semantic content of one cell, fixed during generation.
#[derive(Clone, Copy, Debug, PartialEq, Eq, Structural)]
pub enum Kind {
    /// No mine here and no mine among the neighbors.
    Empty,
    /// No mine here; exactly this many neighbors (1 to 8) hold a mine.
    Adjacent(u8),
    /// A mine.
    Mine,
}

/// One grid position: whether it is still covered, whether the user marked it,
/// and what it holds.
#[derive(Clone, Copy, Debug, PartialEq, Eq, Structural)]
pub struct Cell {
    /// True until the cell is uncovered; uncovering is one-way within a game.
    pub covered: bool,
    /// The user's flag; meaningful only while covered, cleared on uncovering.
    pub marked: bool,
    /// What the cell holds.
    pub kind: Kind,
}

/// The mathematical model of a board: dimensions, intended mine count, and the
/// sequence of cells in row-major order (`(x, y)` at index `y * width + x`).
#[verifier::ext_equal]
pub ghost struct Grid {
    pub width: int,
    pub height: int,
    pub num_mines: int,
    pub cells: Seq<Cell>,
}

impl Grid {
    /// Positive dimensions and a fully allocated grid.
    pub open spec fn wf(self) -> bool {
        &&& self.width >= 1
        &&& self.height >= 1
        &&& self.cells.len() == self.width * self.height
    }

    pub open spec fn in_bounds(self, x: int, y: int) -> bool {
        0 <= x < self.width && 0 <= y < self.height
    }

    /// The flat index of `(x, y)` in row-major order.
    pub open spec fn flat(self, x: int, y: int) -> int {
        y * self.width + x
    }

    /// The cell at `(x, y)`.
    pub open spec fn cell(self, x: int, y: int) -> Cell {
        self.cells[self.flat(x, y)]
    }

    /// The grid with the cell at `(x, y)` replaced by `c`.
    pub open spec fn with_cell(self, x: int, y: int, c: Cell) -> Grid {
        Grid { cells: self.cells.update(self.flat(x, y), c), ..self }
    }

    /// All cells covered, unmarked and empty, as `create_blank` leaves them.
    pub open spec fn all_blank(self) -> bool {
        forall|i: int| 0 <= i < self.cells.len() ==> self.cells[i] == blank_cell()
    }

    /// There is a mine at `(x, y)` (out-of-range coordinates count as no mine).
    pub open spec fn mine_at(self, x: int, y: int) -> bool {
        self.in_bounds(x, y) && self.cell(x, y).kind is Mine
    }

    pub open spec fn mine_ind(self, x: int, y: int) -> int {
        if self.mine_at(x, y) {
            1
        } else {
            0
        }
    }

    /// How many of the up-to-8 neighbors of `(x, y)` hold a mine.
    /// (Opaque: its eight-term sum is revealed only by the proofs that need it,
    /// so that neighbor terms do not cascade through quantifiers.)
    #[verifier::opaque]
    pub open spec fn adj_mines(self, x: int, y: int) -> int {
        self.mine_ind(x - 1, y - 1) + self.mine_ind(x, y - 1) + self.mine_ind(x + 1, y - 1)
            + self.mine_ind(x - 1, y) + self.mine_ind(x + 1, y) + self.mine_ind(x - 1, y + 1)
            + self.mine_ind(x, y + 1) + self.mine_ind(x + 1, y + 1)
    }

    /// The kind a generated non-mine cell must carry: `Adjacent(n)` when `n > 0`
    /// of its neighbors are mines, `Empty` when none is.
    pub open spec fn counted_kind(self, x: int, y: int) -> Kind {
        if self.adj_mines(x, y) > 0 {
            Kind::Adjacent(self.adj_mines(x, y) as u8)
        } else {
            Kind::Empty
        }
    }

    /// Every non-mine cell carries `Adjacent(n)` exactly when `n` of its
    /// neighbors are mines, and `Empty` exactly when none is.
    pub open spec fn adjacency_correct(self) -> bool {
        forall|x: int, y: int|
            self.in_bounds(x, y) && !(self.cell(x, y).kind is Mine) ==> self.cell(x, y).kind
                == self.counted_kind(x, y)
    }
}

/// A cell as blank boards have it.
pub open spec fn blank_cell() -> Cell {
    Cell { covered: true, marked: false, kind: Kind::Empty }
}

/// Chebyshev (king's-move) adjacency: distinct cells at most one step apart.
pub open spec fn is_neighbor(x1: int, y1: int, x2: int, y2: int) -> bool {
    &&& (x1, y1) != (x2, y2)
    &&& -1 <= x1 - x2 <= 1
    &&& -1 <= y1 - y2 <= 1
}

/// `(x, y)` lies in the safe zone of `(sx, sy)`: the cell itself or a neighbor.
pub open spec fn in_zone(sx: int, sy: int, x: int, y: int) -> bool {
    -1 <= x - sx <= 1 && -1 <= y - sy <= 1
}

/// The first grid coordinate within one step of `s` (on either axis).
pub open spec fn zone_lo(s: int) -> int {
    if s <= 1 {
        0
    } else {
        s - 1
    }
}

/// The last coordinate `< limit` within one step of `s` (on either axis).
pub open spec fn zone_hi(s: int, limit: int) -> int {
    if s + 1 <= limit - 1 {
        s + 1
    } else {
        limit - 1
    }
}

/// How many grid cells the safe zone of `(sx, sy)` covers: the in-range part
/// of the 3-by-3 block around it.
pub open spec fn zone_size(w: int, h: int, sx: int, sy: int) -> int {
    (zone_hi(sx, w) - zone_lo(sx) + 1) * (zone_hi(sy, h) - zone_lo(sy) + 1)
}

/// The one-entry list `(x, y, kind)` when `(x, y)` exists, else nothing: the
/// building block of `neighbor_list`.
pub open spec fn maybe_neighbor(g: Grid, x: int, y: int) -> Seq<(int, int, Kind)> {
    if g.in_bounds(x, y) {
        seq![(x, y, g.cell(x, y).kind)]
    } else {
        seq![]
    }
}

/// The existing neighbors of `(x, y)` with their kinds, in the fixed order
/// NW, W, SW, N, S, NE, E, SE.
pub open spec fn neighbor_list(g: Grid, x: int, y: int) -> Seq<(int, int, Kind)> {
    maybe_neighbor(g, x - 1, y - 1) + maybe_neighbor(g, x - 1, y) + maybe_neighbor(g, x - 1, y + 1)
        + maybe_neighbor(g, x, y - 1) + maybe_neighbor(g, x, y + 1) + maybe_neighbor(
        g,
        x + 1,
        y - 1,
    ) + maybe_neighbor(g, x + 1, y) + maybe_neighbor(g, x + 1, y + 1)
}

/// Cell by cell, the two sequences agree on the covered and marked flags.
pub open spec fn same_flags(s1: Seq<Cell>, s2: Seq<Cell>) -> bool {
    &&& s1.len() == s2.len()
    &&& forall|i: int|
        #![trigger s1[i]]
        0 <= i < s1.len() ==> (s1[i].covered == s2[i].covered && s1[i].marked == s2[i].marked)
}

/// How many cells of `s` satisfy `f`.
pub open spec fn count_if(s: Seq<Cell>, f: spec_fn(Cell) -> bool) -> int
    decreases s.len(),
{
    if s.len() == 0 {
        0
    } else {
        count_if(s.drop_last(), f) + if f(s.last()) {
            1int
        } else {
            0int
        }
    }
}

pub open spec fn spec_covered(c: Cell) -> bool {
    c.covered
}

pub open spec fn spec_mine(c: Cell) -> bool {
    c.kind is Mine
}

pub open spec fn spec_marked(c: Cell) -> bool {
    c.marked
}

/// How many cells are still covered.
pub open spec fn count_covered(s: Seq<Cell>) -> int {
    count_if(s, |c: Cell| spec_covered(c))
}

/// How many cells hold a mine.
pub open spec fn count_mines(s: Seq<Cell>) -> int {
    count_if(s, |c: Cell| spec_mine(c))
}

/// How many cells the user has marked.
pub open spec fn count_marked(s: Seq<Cell>) -> int {
    count_if(s, |c: Cell| spec_marked(c))
}

/// Replacing one cell adjusts the mine count by the indicator difference.
pub proof fn lemma_count_mines_update(s: Seq<Cell>, j: int, c: Cell)
    requires
        0 <= j < s.len(),
    ensures
        count_mines(s.update(j, c)) == count_mines(s) + (if spec_mine(c) {
            1int
        } else {
            0int
        }) - (if spec_mine(s[j]) {
            1int
        } else {
            0int
        }),
{
    lemma_count_if_update(s, |c: Cell| spec_mine(c), j, c);
}

/// Replacing one cell adjusts the covered count by the indicator difference.
pub proof fn lemma_count_covered_update(s: Seq<Cell>, j: int, c: Cell)
    requires
        0 <= j < s.len(),
    ensures
        count_covered(s.update(j, c)) == count_covered(s) + (if spec_covered(c) {
            1int
        } else {
            0int
        }) - (if spec_covered(s[j]) {
            1int
        } else {
            0int
        }),
{
    lemma_count_if_update(s, |c: Cell| spec_covered(c), j, c);
}

pub proof fn lemma_count_covered_bounds(s: Seq<Cell>)
    ensures
        0 <= count_covered(s) <= s.len(),
{
    lemma_count_if_bounds(s, |c: Cell| spec_covered(c));
}

/// Extending the counted range by one cell adds that cell's mine indicator.
pub proof fn lemma_count_mines_step(s: Seq<Cell>, i: int)
    requires
        0 <= i < s.len(),
    ensures
        count_mines(s.subrange(0, i + 1)) == count_mines(s.subrange(0, i)) + (if spec_mine(s[i]) {
            1int
        } else {
            0int
        }),
{
    lemma_count_if_step(s, |c: Cell| spec_mine(c), i);
}

/// Extending the counted range by one cell adds that cell's covered indicator.
pub proof fn lemma_count_covered_step(s: Seq<Cell>, i: int)
    requires
        0 <= i < s.len(),
    ensures
        count_covered(s.subrange(0, i + 1)) == count_covered(s.subrange(0, i)) + (if spec_covered(
            s[i],
        ) {
            1int
        } else {
            0int
        }),
{
    lemma_count_if_step(s, |c: Cell| spec_covered(c), i);
}

/// Extending the counted range by one cell adds that cell's mark indicator.
pub proof fn lemma_count_marked_step(s: Seq<Cell>, i: int)
    requires
        0 <= i < s.len(),
    ensures
        count_marked(s.subrange(0, i + 1)) == count_marked(s.subrange(0, i)) + (if spec_marked(
            s[i],
        ) {
            1int
        } else {
            0int
        }),
{
    lemma_count_if_step(s, |c: Cell| spec_marked(c), i);
}

/// Counts agree on sequences whose cells the predicate cannot tell apart.
pub proof fn lemma_count_if_pointwise(s1: Seq<Cell>, s2: Seq<Cell>, f: spec_fn(Cell) -> bool)
    requires
        s1.len() == s2.len(),
        forall|i: int| 0 <= i < s1.len() ==> f(s1[i]) == f(s2[i]),
    ensures
        count_if(s1, f) == count_if(s2, f),
    decreases s1.len(),
{
    if s1.len() > 0 {
        assert(forall|i: int| 0 <= i < s1.len() - 1 ==> s1.drop_last()[i] == s1[i]);
        assert(forall|i: int| 0 <= i < s2.len() - 1 ==> s2.drop_last()[i] == s2[i]);
        lemma_count_if_pointwise(s1.drop_last(), s2.drop_last(), f);
    }
}

/// A count over cells none of which satisfies the predicate is zero.
pub proof fn lemma_count_if_none(s: Seq<Cell>, f: spec_fn(Cell) -> bool)
    requires
        forall|i: int| 0 <= i < s.len() ==> !f(s[i]),
    ensures
        count_if(s, f) == 0,
    decreases s.len(),
{
    if s.len() > 0 {
        assert(forall|i: int| 0 <= i < s.len() - 1 ==> s.drop_last()[i] == s[i]);
        lemma_count_if_none(s.drop_last(), f);
    }
}

/// A sequence without mines counts zero mines.
pub proof fn lemma_count_mines_zero(s: Seq<Cell>)
    requires
        forall|i: int| 0 <= i < s.len() ==> !(#[trigger] s[i].kind is Mine),
    ensures
        count_mines(s) == 0,
{
    lemma_count_if_none(s, |c: Cell| spec_mine(c));
}

/// Two cell sequences with the same mine positions hold the same many mines.
pub proof fn lemma_count_mines_pointwise(s1: Seq<Cell>, s2: Seq<Cell>)
    requires
        s1.len() == s2.len(),
        forall|i: int|
            #![trigger s1[i]]
            #![trigger s2[i]]
            0 <= i < s1.len() ==> ((s1[i].kind is Mine) == (s2[i].kind is Mine)),
    ensures
        count_mines(s1) == count_mines(s2),
{
    lemma_count_if_pointwise(s1, s2, |c: Cell| spec_mine(c));
}

/// Two predicates that agree cell by cell count the same cells.
pub proof fn lemma_count_if_agree(s: Seq<Cell>, f: spec_fn(Cell) -> bool, g: spec_fn(Cell) -> bool)
    requires
        forall|i: int| 0 <= i < s.len() ==> f(s[i]) == g(s[i]),
    ensures
        count_if(s, f) == count_if(s, g),
    decreases s.len(),
{
    if s.len() > 0 {
        assert(forall|i: int| 0 <= i < s.len() - 1 ==> s.drop_last()[i] == s[i]);
        lemma_count_if_agree(s.drop_last(), f, g);
    }
}

/// When each cell is covered exactly if it holds a mine, the covered count is
/// the mine count.
pub proof fn lemma_count_covered_eq_mines(s: Seq<Cell>)
    requires
        forall|i: int| 0 <= i < s.len() ==> ((#[trigger] s[i].covered) <==> s[i].kind is Mine),
    ensures
        count_covered(s) == count_mines(s),
{
    lemma_count_if_agree(s, |c: Cell| spec_covered(c), |c: Cell| spec_mine(c));
}

/// When every mine is covered and the covered count equals the mine count,
/// the covered cells are exactly the mines.
pub proof fn lemma_covered_exactly_mines(s: Seq<Cell>)
    requires
        forall|i: int| 0 <= i < s.len() ==> spec_mine(s[i]) ==> spec_covered(s[i]),
        count_covered(s) == count_mines(s),
    ensures
        forall|i: int| 0 <= i < s.len() ==> spec_covered(s[i]) ==> spec_mine(s[i]),
{
    lemma_count_if_eq_pins(s, |c: Cell| spec_mine(c), |c: Cell| spec_covered(c));
}

/// Two grids of the same shape and the same mine positions give every cell the
/// same neighbor-mine count.
pub proof fn lemma_same_mines_same_adj(g1: Grid, g2: Grid)
    requires
        g1.wf(),
        g1.width == g2.width,
        g1.height == g2.height,
        g1.cells.len() == g2.cells.len(),
        forall|i: int|
            #![trigger g1.cells[i]]
            0 <= i < g1.cells.len() ==> ((g1.cells[i].kind is Mine) <==> (g2.cells[i].kind
                is Mine)),
    ensures
        forall|x: int, y: int| g1.adj_mines(x, y) == g2.adj_mines(x, y),
{
    assert forall|x: int, y: int| g1.mine_at(x, y) == g2.mine_at(x, y) by {
        if g1.in_bounds(x, y) {
            lemma_flat_bounds(g1, x, y);
            assert(0 <= g1.flat(x, y) < g1.cells.len());
            assert(g1.cells[g1.flat(x, y)].kind is Mine <==> g2.cells[g2.flat(x, y)].kind
                is Mine);
        }
    }
    assert forall|x: int, y: int| g1.adj_mines(x, y) == g2.adj_mines(x, y) by {
        reveal(Grid::adj_mines);
    }
}

/// Every in-range flat index names the in-range cell `(i % width, i / width)`.
pub proof fn lemma_unflat(g: Grid, i: int)
    requires
        g.wf(),
        0 <= i < g.cells.len(),
    ensures
        g.in_bounds(i % g.width, i / g.width),
        g.flat(i % g.width, i / g.width) == i,
{
    let w = g.width;
    vstd::arithmetic::div_mod::lemma_fundamental_div_mod(i, w);
    vstd::arithmetic::div_mod::lemma_mod_bound(i, w);
    assert(i < w * g.height) by (nonlinear_arith)
        requires
            i < g.cells.len(),
            g.cells.len() == g.width * g.height,
            w == g.width,
    ;
    vstd::arithmetic::div_mod::lemma_multiply_divide_lt(i, w, g.height);
    assert(i / w >= 0) by {
        vstd::arithmetic::div_mod::lemma_div_pos_is_pos(i, w);
    }
    assert((i / w) * w == w * (i / w)) by (nonlinear_arith);
}

/// Correct adjacency counts carry over to any grid with the same cell kinds.
pub proof fn lemma_adjacency_correct_transfer(g1: Grid, g2: Grid)
    requires
        g1.wf(),
        g1.adjacency_correct(),
        g1.width == g2.width,
        g1.height == g2.height,
        g1.cells.len() == g2.cells.len(),
        forall|i: int|
            #![trigger g2.cells[i]]
            0 <= i < g1.cells.len() ==> g2.cells[i].kind == g1.cells[i].kind,
    ensures
        g2.adjacency_correct(),
{
    lemma_same_mines_same_adj(g1, g2);
    assert forall|x: int, y: int|
        g2.in_bounds(x, y) && !(g2.cell(x, y).kind is Mine) implies #[trigger] g2.cell(x, y).kind
        == g2.counted_kind(x, y) by {
        lemma_flat_bounds(g1, x, y);
        assert(g2.cells[g1.flat(x, y)].kind == g1.cells[g1.flat(x, y)].kind);
        assert(g1.cell(x, y).kind == g1.counted_kind(x, y));
        assert(g1.adj_mines(x, y) == g2.adj_mines(x, y));
    }
}

pub proof fn lemma_count_if_bounds(s: Seq<Cell>, f: spec_fn(Cell) -> bool)
    ensures
        0 <= count_if(s, f) <= s.len(),
    decreases s.len(),
{
    if s.len() > 0 {
        lemma_count_if_bounds(s.drop_last(), f);
    }
}

/// Replacing one cell changes a count by the difference of the two indicators.
pub proof fn lemma_count_if_update(s: Seq<Cell>, f: spec_fn(Cell) -> bool, j: int, c: Cell)
    requires
        0 <= j < s.len(),
    ensures
        count_if(s.update(j, c), f) == count_if(s, f) + (if f(c) {
            1int
        } else {
            0int
        }) - (if f(s[j]) {
            1int
        } else {
            0int
        }),
    decreases s.len(),
{
    let s2 = s.update(j, c);
    if j == s.len() - 1 {
        assert(s2.drop_last() =~= s.drop_last());
    } else {
        assert(s2.drop_last() =~= s.drop_last().update(j, c));
        lemma_count_if_update(s.drop_last(), f, j, c);
    }
}

/// Extending the counted range by one cell adds that cell's indicator.
pub proof fn lemma_count_if_step(s: Seq<Cell>, f: spec_fn(Cell) -> bool, i: int)
    requires
        0 <= i < s.len(),
    ensures
        count_if(s.subrange(0, i + 1), f) == count_if(s.subrange(0, i), f) + (if f(s[i]) {
            1int
        } else {
            0int
        }),
{
    assert(s.subrange(0, i + 1).drop_last() =~= s.subrange(0, i));
}

pub proof fn lemma_count_if_full(s: Seq<Cell>, f: spec_fn(Cell) -> bool)
    ensures
        count_if(s.subrange(0, s.len() as int), f) == count_if(s, f),
{
    assert(s.subrange(0, s.len() as int) =~= s);
}

/// If `f` implies `g` cell by cell, `f`'s count cannot exceed `g`'s.
pub proof fn lemma_count_if_le(s: Seq<Cell>, f: spec_fn(Cell) -> bool, g: spec_fn(Cell) -> bool)
    requires
        forall|i: int| 0 <= i < s.len() ==> f(s[i]) ==> g(s[i]),
    ensures
        count_if(s, f) <= count_if(s, g),
    decreases s.len(),
{
    if s.len() > 0 {
        assert(forall|i: int| 0 <= i < s.len() - 1 ==> s.drop_last()[i] == s[i]);
        lemma_count_if_le(s.drop_last(), f, g);
    }
}

/// If `f` implies `g` cell by cell and their counts agree, then `g` implies `f`
/// as well: the two predicates pick out the same cells.
pub proof fn lemma_count_if_eq_pins(
    s: Seq<Cell>,
    f: spec_fn(Cell) -> bool,
    g: spec_fn(Cell) -> bool,
)
    requires
        forall|i: int| 0 <= i < s.len() ==> f(s[i]) ==> g(s[i]),
        count_if(s, f) == count_if(s, g),
    ensures
        forall|i: int| 0 <= i < s.len() ==> g(s[i]) ==> f(s[i]),
    decreases s.len(),
{
    if s.len() > 0 {
        let d = s.drop_last();
        assert(forall|i: int| 0 <= i < d.len() ==> d[i] == s[i]);
        lemma_count_if_le(d, f, g);
        if g(s.last()) && !f(s.last()) {
            assert(count_if(s, f) == count_if(d, f));
            assert(count_if(s, g) == count_if(d, g) + 1);
            assert(false);
        }
        lemma_count_if_eq_pins(d, f, g);
        assert forall|i: int| 0 <= i < s.len() && g(s[i]) implies f(s[i]) by {
            if i < s.len() - 1 {
                assert(d[i] == s[i]);
            }
        }
    }
}

/// `(x, y)` and back from a flat row-major index: in-range coordinates give an
/// in-range index, and distinct coordinates give distinct indices.
pub proof fn lemma_flat_bounds(g: Grid, x: int, y: int)
    requires
        g.width >= 1,
        g.in_bounds(x, y),
    ensures
        0 <= g.flat(x, y) < g.width * g.height,
{
    assert(0 <= y * g.width + x < g.width * g.height) by (nonlinear_arith)
        requires
            0 <= x < g.width,
            0 <= y < g.height,
    ;
}

pub proof fn lemma_flat_injective(g: Grid, x1: int, y1: int, x2: int, y2: int)
    requires
        g.width >= 1,
        g.in_bounds(x1, y1),
        g.in_bounds(x2, y2),
        g.flat(x1, y1) == g.flat(x2, y2),
    ensures
        x1 == x2 && y1 == y2,
{
    assert(x1 == x2 && y1 == y2) by (nonlinear_arith)
        requires
            0 <= x1 < g.width,
            0 <= x2 < g.width,
            0 <= y1 < g.height,
            0 <= y2 < g.height,
            y1 * g.width + x1 == y2 * g.width + x2,
    ;
}

/// A two-dimensional grid of cells, row-major, indexed by `(x, y)` with
/// `x` in `[0, width)` and `y` in `[0, height)`.
#[derive(Debug)]
pub struct Board {
    pub width: usize,
    pub height: usize,
    /// How many mines the board is meant to hold once generated.
    pub num_mines: usize,
    /// Row-major cell storage: `(x, y)` lives at `y * width + x`.
    pub cells: Vec<Cell>,
}

impl View for Board {
    type V = Grid;

    open spec fn view(&self) -> Grid {
        Grid {
            width: self.width as int,
            height: self.height as int,
            num_mines: self.num_mines as int,
            cells: self.cells@,
        }
    }
}

impl Board {
    /// A grid in which every cell is `{covered, unmarked, Empty}`.
    ///
    /// Returns `InvalidDimensions` when a dimension is zero or the cell count
    /// would not fit in memory; exactly then does it fail.
    pub fn create_blank(width: usize, height: usize, num_mines: usize) -> (r: Result<
        Board,
        GameError,
    >)
        ensures
            match r {
                Ok(b) => {
                    &&& width >= 1 && height >= 1 && width * height <= usize::MAX
                    &&& b@.wf()
                    &&& b.width == width && b.height == height && b.num_mines == num_mines
                    &&& b@.all_blank()
                },
                Err(e) => {
                    &&& e == GameError::InvalidDimensions
                    &&& (width == 0 || height == 0 || width * height > usize::MAX)
                },
            },
    {
        if width == 0 || height == 0 {
            return Err(GameError::InvalidDimensions);
        }
        let total = match width.checked_mul(height) {
            Some(t) => t,
            None => {
                return Err(GameError::InvalidDimensions);
            },
        };
        let mut cells: Vec<Cell> = Vec::new();
        let mut i: usize = 0;
        while i < total
            invariant
                i <= total,
                cells@.len() == i,
                forall|j: int| 0 <= j < i ==> cells@[j] == blank_cell(),
            decreases total - i,
        {
            cells.push(Cell { covered: true, marked: false, kind: Kind::Empty });
            i = i + 1;
        }
        Ok(Board { width, height, num_mines, cells })
    }

    /// The flat storage index of in-range coordinates.
    pub fn flat_index(&self, x: usize, y: usize) -> (r: usize)
        requires
            self@.wf(),
            self@.in_bounds(x as int, y as int),
        ensures
            r == self@.flat(x as int, y as int),
            r < self.cells@.len(),
    {
        let n = self.cells.len();
        proof {
            assert(n == self@.width * self@.height);
            lemma_flat_bounds(self@, x as int, y as int);
        }
        y * self.width + x
    }

    /// The cell at in-range coordinates.
    pub(crate) fn cell_get(&self, x: usize, y: usize) -> (c: Cell)
        requires
            self@.wf(),
            self@.in_bounds(x as int, y as int),
        ensures
            c == self@.cell(x as int, y as int),
    {
        let i = self.flat_index(x, y);
        self.cells[i]
    }

    /// Replaces the cell at in-range coordinates.
    pub(crate) fn cell_put(&mut self, x: usize, y: usize, c: Cell)
        requires
            old(self)@.wf(),
            old(self)@.in_bounds(x as int, y as int),
        ensures
            final(self)@ == old(self)@.with_cell(x as int, y as int, c),
            final(self)@.wf(),
    {
        let i = self.flat_index(x, y);
        self.cells.set(i, c);
    }

    /// Bounds-checked read: the cell at `(x, y)`, or `OutOfBounds` exactly when
    /// the coordinates lie outside the grid.
    pub fn cell_at(&self, x: usize, y: usize) -> (r: Result<Cell, GameError>)
        requires
            self@.wf(),
        ensures
            match r {
                Ok(c) => self@.in_bounds(x as int, y as int) && c == self@.cell(x as int, y as int),
                Err(e) => e == GameError::OutOfBounds && !self@.in_bounds(x as int, y as int),
            },
    {
        if x >= self.width || y >= self.height {
            return Err(GameError::OutOfBounds);
        }
        let i = self.flat_index(x, y);
        Ok(self.cells[i])
    }

    /// How many cells the user has marked (to show the flags remaining).
    #[verifier::loop_isolation(false)]
    pub fn marked_count(&self) -> (r: usize)
        requires
            self@.wf(),
        ensures
            r as int == count_marked(self@.cells),
    {
        let n = self.cells.len();
        let mut cnt: usize = 0;
        let mut i: usize = 0;
        while i < n
            invariant
                i <= n,
                cnt as int == count_marked(self@.cells.subrange(0, i as int)),
                cnt <= i,
            decreases n - i,
        {
            proof {
                lemma_count_marked_step(self@.cells, i as int);
                lemma_count_if_bounds(self@.cells.subrange(0, i as int), |c: Cell| spec_marked(c));
            }
            if self.cells[i].marked {
                cnt = cnt + 1;
            }
            i = i + 1;
        }
        proof {
            assert(self@.cells.subrange(0, n as int) =~= self@.cells);
        }
        cnt
    }

    /// The up-to-8 existing neighbors of `(x, y)` with their kinds, in the
    /// fixed order NW, W, SW, N, S, NE, E, SE (edge and corner cells have
    /// fewer). Fails with `OutOfBounds` exactly when `(x, y)` lies outside.
    pub fn neighbors(&self, x: usize, y: usize) -> (r: Result<Vec<(usize, usize, Kind)>, GameError>)
        requires
            self@.wf(),
        ensures
            match r {
                Ok(v) => self@.in_bounds(x as int, y as int) && v@.map_values(
                    |t: (usize, usize, Kind)| (t.0 as int, t.1 as int, t.2),
                ) == neighbor_list(self@, x as int, y as int),
                Err(e) => e == GameError::OutOfBounds && !self@.in_bounds(x as int, y as int),
            },
    {
        if x >= self.width || y >= self.height {
            return Err(GameError::OutOfBounds);
        }
        let ghost g = self@;
        let ghost xi = x as int;
        let ghost yi = y as int;
        let ghost f = |t: (usize, usize, Kind)| (t.0 as int, t.1 as int, t.2);
        let mut v: Vec<(usize, usize, Kind)> = Vec::new();
        if x > 0 && y > 0 {
            v.push((x - 1, y - 1, self.cell_get(x - 1, y - 1).kind));
        }
        proof {
            assert(v@.map_values(f) =~= maybe_neighbor(g, xi - 1, yi - 1));
        }
        if x > 0 {
            v.push((x - 1, y, self.cell_get(x - 1, y).kind));
        }
        proof {
            assert(v@.map_values(f) =~= maybe_neighbor(g, xi - 1, yi - 1) + maybe_neighbor(
                g,
                xi - 1,
                yi,
            ));
        }
        if x > 0 && y + 1 < self.height {
            v.push((x - 1, y + 1, self.cell_get(x - 1, y + 1).kind));
        }
        let ghost col_w = maybe_neighbor(g, xi - 1, yi - 1) + maybe_neighbor(g, xi - 1, yi)
            + maybe_neighbor(g, xi - 1, yi + 1);
        proof {
            assert(v@.map_values(f) =~= col_w);
        }
        if y > 0 {
            v.push((x, y - 1, self.cell_get(x, y - 1).kind));
        }
        proof {
            assert(v@.map_values(f) =~= col_w + maybe_neighbor(g, xi, yi - 1));
        }
        if y + 1 < self.height {
            v.push((x, y + 1, self.cell_get(x, y + 1).kind));
        }
        let ghost col_c = col_w + maybe_neighbor(g, xi, yi - 1) + maybe_neighbor(g, xi, yi + 1);
        proof {
            assert(v@.map_values(f) =~= col_c);
        }
        if x + 1 < self.width && y > 0 {
            v.push((x + 1, y - 1, self.cell_get(x + 1, y - 1).kind));
        }
        proof {
            assert(v@.map_values(f) =~= col_c + maybe_neighbor(g, xi + 1, yi - 1));
        }
        if x + 1 < self.width {
            v.push((x + 1, y, self.cell_get(x + 1, y).kind));
        }
        proof {
            assert(v@.map_values(f) =~= col_c + maybe_neighbor(g, xi + 1, yi - 1) + maybe_neighbor(
                g,
                xi + 1,
                yi,
            ));
        }
        if x + 1 < self.width && y + 1 < self.height {
            v.push((x + 1, y + 1, self.cell_get(x + 1, y + 1).kind));
        }
        proof {
            assert(v@.map_values(f) =~= neighbor_list(g, xi, yi));
        }
        Ok(v)
    }

    /// Bounds-checked write of a cell's kind; the other fields stay.
    pub fn set_kind(&mut self, x: usize, y: usize, kind: Kind) -> (r: Result<(), GameError>)
        requires
            old(self)@.wf(),
        ensures
            final(self)@.wf(),
            match r {
                Ok(()) => {
                    &&& old(self)@.in_bounds(x as int, y as int)
                    &&& final(self)@ == old(self)@.with_cell(
                        x as int,
                        y as int,
                        Cell { kind, ..old(self)@.cell(x as int, y as int) },
                    )
                },
                Err(e) => {
                    &&& e == GameError::OutOfBounds
                    &&& !old(self)@.in_bounds(x as int, y as int)
                    &&& final(self)@ == old(self)@
                },
            },
    {
        if x >= self.width || y >= self.height {
            return Err(GameError::OutOfBounds);
        }
        let i = self.flat_index(x, y);
        let c = self.cells[i];
        self.cells.set(i, Cell { kind, ..c });
        Ok(())
    }

    /// Bounds-checked write of a cell's covered flag; the other fields stay.
    pub fn set_covered(&mut self, x: usize, y: usize, covered: bool) -> (r: Result<(), GameError>)
        requires
            old(self)@.wf(),
        ensures
            final(self)@.wf(),
            match r {
                Ok(()) => {
                    &&& old(self)@.in_bounds(x as int, y as int)
                    &&& final(self)@ == old(self)@.with_cell(
                        x as int,
                        y as int,
                        Cell { covered, ..old(self)@.cell(x as int, y as int) },
                    )
                },
                Err(e) => {
                    &&& e == GameError::OutOfBounds
                    &&& !old(self)@.in_bounds(x as int, y as int)
                    &&& final(self)@ == old(self)@
                },
            },
    {
        if x >= self.width || y >= self.height {
            return Err(GameError::OutOfBounds);
        }
        let i = self.flat_index(x, y);
        let c = self.cells[i];
        self.cells.set(i, Cell { covered, ..c });
        Ok(())
    }

    /// Bounds-checked write of a cell's mark flag; the other fields stay.
    pub fn set_marked(&mut self, x: usize, y: usize, marked: bool) -> (r: Result<(), GameError>)
        requires
            old(self)@.wf(),
        ensures
            final(self)@.wf(),
            match r {
                Ok(()) => {
                    &&& old(self)@.in_bounds(x as int, y as int)
                    &&& final(self)@ == old(self)@.with_cell(
                        x as int,
                        y as int,
                        Cell { marked, ..old(self)@.cell(x as int, y as int) },
                    )
                },
                Err(e) => {
                    &&& e == GameError::OutOfBounds
                    &&& !old(self)@.in_bounds(x as int, y as int)
                    &&& final(self)@ == old(self)@
                },
            },
    {
        if x >= self.width || y >= self.height {
            return Err(GameError::OutOfBounds);
        }
        let i = self.flat_index(x, y);
        let c = self.cells[i];
        self.cells.set(i, Cell { marked, ..c });
        Ok(())
    }
}

} // verus!
