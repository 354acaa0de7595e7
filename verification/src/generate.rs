//! The generator: places mines so that a chosen safe cell and all of its
//! neighbors stay mine-free, then computes every non-mine cell's adjacency
//! count. Random placement draws a uniform permutation of the eligible
//! indices; a deterministic entry point takes the mine positions directly.

use vstd::prelude::*;
use vstd::seq_lib::group_to_multiset_ensures;

use crate::GameError;
use crate::board::{
    Board, Cell, Grid, Kind, count_mines, in_zone, lemma_count_mines_update, lemma_flat_bounds,
    lemma_flat_injective, lemma_same_mines_same_adj, same_flags, zone_hi, zone_lo, zone_size,
};

use rand::seq::SliceRandom;

verus! {

/// Some in-range grid position whose flat index is `i` lies in the safe zone
/// of `(sx, sy)`.
pub open spec fn flat_in_zone(g: Grid, sx: int, sy: int, i: int) -> bool {
    exists|x: int, y: int|
        g.in_bounds(x, y) && in_zone(sx, sy, x, y) && i == g.flat(x, y)
}

/// `i` appears among the chosen mine indices.
pub open spec fn contains_idx(mines: Seq<usize>, i: int) -> bool {
    exists|k: int| 0 <= k < mines.len() && mines[k] as int == i
}

/// A usable deterministic placement: as many distinct in-range indices as the
/// board wants mines, none of them inside the safe zone of `(sx, sy)`.
pub open spec fn valid_mines(g: Grid, sx: int, sy: int, mines: Seq<usize>) -> bool {
    &&& mines.len() == g.num_mines
    &&& mines.no_duplicates()
    &&& forall|k: int|
        0 <= k < mines.len() ==> (mines[k] as int) < g.cells.len() && !flat_in_zone(
            g,
            sx,
            sy,
            mines[k] as int,
        )
}

/// What both generator entry points guarantee of a generated board: the other
/// fields of every cell survive, exactly `num_mines` mines sit outside the
/// safe zone of `(sx, sy)`, and every non-mine cell carries its correct count.
pub open spec fn generated(pre: Grid, post: Grid, sx: int, sy: int) -> bool {
    &&& post.width == pre.width && post.height == pre.height && post.num_mines == pre.num_mines
    &&& post.cells.len() == pre.cells.len()
    &&& same_flags(post.cells, pre.cells)
    &&& count_mines(post.cells) == post.num_mines
    &&& forall|x: int, y: int|
        post.in_bounds(x, y) && in_zone(sx, sy, x, y) ==> !(#[trigger] post.cell(x, y).kind
            is Mine)
    &&& post.adjacency_correct()
}

/// How many integers in `[lo, hi]` lie strictly below `v`.
pub open spec fn span_before(v: int, lo: int, hi: int) -> int {
    if v <= lo {
        0
    } else if v <= hi + 1 {
        v - lo
    } else {
        hi - lo + 1
    }
}

/// Relies on rand's `SliceRandom::shuffle` with the thread-local generator
/// from `rand::rng()`: a Fisher-Yates pass that permutes the slice in place,
/// so the result holds exactly the elements it was handed.
#[verifier::external_body]
fn shuffle_indices(v: &mut Vec<usize>)
    ensures
        final(v)@.len() == old(v)@.len(),
        final(v)@.to_multiset() == old(v)@.to_multiset(),
{
    v.shuffle(&mut rand::rng());
}

/// A permutation of a duplicate-free sequence is duplicate-free and draws all
/// of its elements from the sequence it rearranged.
proof fn lemma_permutation_keeps(v1: Seq<usize>, v2: Seq<usize>)
    requires
        v2.to_multiset() == v1.to_multiset(),
        v1.no_duplicates(),
    ensures
        v2.no_duplicates(),
        forall|k: int| 0 <= k < v2.len() ==> v1.contains(v2[k]),
{
    broadcast use group_to_multiset_ensures;

    v1.lemma_multiset_has_no_duplicates();
    v2.lemma_multiset_has_no_duplicates_conv();
    assert forall|k: int| 0 <= k < v2.len() implies v1.contains(v2[k]) by {
        assert(v2.contains(v2[k]));
        assert(v2.to_multiset().count(v2[k]) > 0);
        assert(v1.to_multiset().count(v2[k]) > 0);
    }
}

/// All flat indices outside the safe zone of `(sx, sy)`, in increasing order.
fn build_eligible(b: &Board, sx: usize, sy: usize) -> (r: Vec<usize>)
    requires
        b@.wf(),
        b@.in_bounds(sx as int, sy as int),
    ensures
        r@.len() == b@.cells.len() - zone_size(b@.width, b@.height, sx as int, sy as int),
        r@.no_duplicates(),
        forall|j: int|
            0 <= j < r@.len() ==> (r@[j] as int) < b@.cells.len() && !flat_in_zone(
                b@,
                sx as int,
                sy as int,
                r@[j] as int,
            ),
{
    let ghost w = b@.width;
    let ghost h = b@.height;
    let ghost xlo = zone_lo(sx as int);
    let ghost xhi = zone_hi(sx as int, w);
    let ghost ylo = zone_lo(sy as int);
    let ghost yhi = zone_hi(sy as int, h);
    let ghost xspan = xhi - xlo + 1;

    let mut v: Vec<usize> = Vec::new();
    let mut y: usize = 0;
    while y < b.height
        invariant
            b@.wf(),
            b@.in_bounds(sx as int, sy as int),
            w == b@.width && h == b@.height,
            xlo == zone_lo(sx as int) && xhi == zone_hi(sx as int, w),
            ylo == zone_lo(sy as int) && yhi == zone_hi(sy as int, h),
            xspan == xhi - xlo + 1,
            y <= b.height,
            v@.len() == y * w - span_before(y as int, ylo, yhi) * xspan,
            forall|j: int| 0 <= j < v@.len() ==> (v@[j] as int) < y * w,
            forall|j: int, k: int| 0 <= j < k < v@.len() ==> v@[j] < v@[k],
            forall|j: int|
                0 <= j < v@.len() ==> !flat_in_zone(b@, sx as int, sy as int, v@[j] as int),
        decreases b.height - y,
    {
        let mut x: usize = 0;
        while x < b.width
            invariant
                b@.wf(),
                b@.in_bounds(sx as int, sy as int),
                w == b@.width && h == b@.height,
                xlo == zone_lo(sx as int) && xhi == zone_hi(sx as int, w),
                ylo == zone_lo(sy as int) && yhi == zone_hi(sy as int, h),
                xspan == xhi - xlo + 1,
                y < b.height,
                x <= b.width,
                v@.len() == y * w + x - (span_before(y as int, ylo, yhi) * xspan + (if ylo <= y
                    <= yhi {
                    span_before(x as int, xlo, xhi)
                } else {
                    0int
                })),
                forall|j: int| 0 <= j < v@.len() ==> (v@[j] as int) < y * w + x,
                forall|j: int, k: int| 0 <= j < k < v@.len() ==> v@[j] < v@[k],
                forall|j: int|
                    0 <= j < v@.len() ==> !flat_in_zone(b@, sx as int, sy as int, v@[j] as int),
            decreases b.width - x,
        {
            let in_z = x + 1 >= sx && x <= sx + 1 && y + 1 >= sy && y <= sy + 1;
            if !in_z {
                let e = b.flat_index(x, y);
                proof {
                    if flat_in_zone(b@, sx as int, sy as int, e as int) {
                        let (x2, y2) = choose|x2: int, y2: int|
                            b@.in_bounds(x2, y2) && in_zone(sx as int, sy as int, x2, y2) && e
                                as int == b@.flat(x2, y2);
                        lemma_flat_injective(b@, x as int, y as int, x2, y2);
                        assert(false);
                    }
                }
                v.push(e);
            }
            x = x + 1;
        }
        proof {
            let a = span_before(y as int, ylo, yhi);
            assert((a + 1) * xspan == a * xspan + xspan) by (nonlinear_arith);
            assert((y as int + 1) * w == y as int * w + w) by (nonlinear_arith);
            assert(span_before(b@.width, xlo, xhi) == xspan);
        }
        y = y + 1;
    }
    proof {
        assert(h * w == w * h) by (nonlinear_arith);
        assert(span_before(h, ylo, yhi) == yhi - ylo + 1);
        assert((yhi - ylo + 1) * xspan == xspan * (yhi - ylo + 1)) by (nonlinear_arith);
    }
    v
}

/// Sets every cell's kind back to `Empty`; covered and marked flags stay.
#[verifier::loop_isolation(false)]
fn reset_kinds(b: &mut Board)
    requires
        old(b)@.wf(),
    ensures
        final(b)@.wf(),
        final(b)@.width == old(b)@.width,
        final(b)@.height == old(b)@.height,
        final(b)@.num_mines == old(b)@.num_mines,
        final(b)@.cells.len() == old(b)@.cells.len(),
        forall|i: int|
            0 <= i < old(b)@.cells.len() ==> #[trigger] final(b)@.cells[i] == (Cell {
                kind: Kind::Empty,
                ..old(b)@.cells[i]
            }),
{
    let n = b.cells.len();
    let mut i: usize = 0;
    while i < n
        invariant
            b@.wf(),
            b@.width == old(b)@.width,
            b@.height == old(b)@.height,
            b@.num_mines == old(b)@.num_mines,
            b@.cells.len() == old(b)@.cells.len(),
            i <= n,
            forall|j: int|
                0 <= j < i ==> #[trigger] b@.cells[j] == (Cell {
                    kind: Kind::Empty,
                    ..old(b)@.cells[j]
                }),
            forall|j: int| i <= j < n ==> #[trigger] b@.cells[j] == old(b)@.cells[j],
        decreases n - i,
    {
        let c = b.cells[i];
        b.cells.set(i, Cell { kind: Kind::Empty, ..c });
        i = i + 1;
    }
}

/// `i` appears among the first `k` chosen mine indices.
pub open spec fn contains_prefix(mines: Seq<usize>, k: int, i: int) -> bool {
    exists|j: int| 0 <= j < k && mines[j] as int == i
}

/// Turns the listed cells into mines; every other cell keeps its kind, which
/// the caller has made `Empty` beforehand.
#[verifier::loop_isolation(false)]
fn place_mines(b: &mut Board, mines: &Vec<usize>)
    requires
        old(b)@.wf(),
        mines@.no_duplicates(),
        forall|k: int| 0 <= k < mines@.len() ==> (#[trigger] mines@[k] as int) < old(
            b,
        )@.cells.len(),
        forall|i: int| 0 <= i < old(b)@.cells.len() ==> (#[trigger] old(b)@.cells[i].kind)
            is Empty,
    ensures
        final(b)@.wf(),
        final(b)@.width == old(b)@.width,
        final(b)@.height == old(b)@.height,
        final(b)@.num_mines == old(b)@.num_mines,
        final(b)@.cells.len() == old(b)@.cells.len(),
        same_flags(final(b)@.cells, old(b)@.cells),
        forall|i: int|
            0 <= i < old(b)@.cells.len() ==> #[trigger] final(b)@.cells[i].kind == (
            if contains_idx(mines@, i) {
                Kind::Mine
            } else {
                Kind::Empty
            }),
        count_mines(final(b)@.cells) == mines@.len(),
{
    proof {
        crate::board::lemma_count_mines_zero(old(b)@.cells);
    }
    let n = mines.len();
    let mut k: usize = 0;
    while k < n
        invariant
            b@.wf(),
            b@.width == old(b)@.width,
            b@.height == old(b)@.height,
            b@.num_mines == old(b)@.num_mines,
            b@.cells.len() == old(b)@.cells.len(),
            k <= n,
            same_flags(b@.cells, old(b)@.cells),
            forall|i: int|
                0 <= i < old(b)@.cells.len() ==> #[trigger] b@.cells[i].kind == (
                if contains_prefix(mines@, k as int, i) {
                    Kind::Mine
                } else {
                    Kind::Empty
                }),
            count_mines(b@.cells) == k,
        decreases n - k,
    {
        let m = mines[k];
        let ghost pre = b@.cells;
        let c = b.cells[m];
        proof {
            if contains_prefix(mines@, k as int, m as int) {
                let j = choose|j: int| 0 <= j < k && mines@[j] as int == m as int;
                assert(mines@[j] == mines@[k as int]);
                assert(false);
            }
        }
        b.cells.set(m, Cell { kind: Kind::Mine, ..c });
        proof {
            lemma_count_mines_update(pre, m as int, Cell { kind: Kind::Mine, ..c });
            assert forall|i: int|
                #![trigger b@.cells[i]]
                0 <= i < b@.cells.len() implies (b@.cells[i].covered == old(b)@.cells[i].covered
                && b@.cells[i].marked == old(b)@.cells[i].marked) by {
                if i == m as int {
                    assert(b@.cells[i] == Cell { kind: Kind::Mine, ..c });
                    assert(pre[i].covered == old(b)@.cells[i].covered);
                    assert(pre[i].marked == old(b)@.cells[i].marked);
                } else {
                    assert(b@.cells[i] == pre[i]);
                }
            }
            assert(same_flags(b@.cells, old(b)@.cells));
            assert forall|i: int|
                0 <= i < old(b)@.cells.len() implies #[trigger] b@.cells[i].kind == (
            if contains_prefix(mines@, k + 1, i) {
                Kind::Mine
            } else {
                Kind::Empty
            }) by {
                if i == m as int {
                    assert(contains_prefix(mines@, k + 1, i));
                } else {
                    if contains_prefix(mines@, k + 1, i) {
                        let j = choose|j: int| 0 <= j < k + 1 && mines@[j] as int == i;
                        assert(j < k);
                        assert(contains_prefix(mines@, k as int, i));
                    }
                }
            }
        }
        k = k + 1;
    }
}

/// The cell at in-range coordinates holds a mine.
fn is_mine_at(b: &Board, x: usize, y: usize) -> (r: bool)
    requires
        b@.wf(),
        b@.in_bounds(x as int, y as int),
    ensures
        r == b@.mine_at(x as int, y as int),
{
    let c = b.cell_get(x, y);
    matches!(c.kind, Kind::Mine)
}

/// Counts the mines among the up-to-8 neighbors of an in-range cell.
pub(crate) fn adj_count_at(b: &Board, x: usize, y: usize) -> (n: u8)
    requires
        b@.wf(),
        b@.in_bounds(x as int, y as int),
    ensures
        n as int == b@.adj_mines(x as int, y as int),
        n <= 8,
{
    proof {
        reveal(Grid::adj_mines);
    }
    let mut n: u8 = 0;
    if x > 0 && y > 0 && is_mine_at(b, x - 1, y - 1) {
        n = n + 1;
    }
    if y > 0 && is_mine_at(b, x, y - 1) {
        n = n + 1;
    }
    if x + 1 < b.width && y > 0 && is_mine_at(b, x + 1, y - 1) {
        n = n + 1;
    }
    if x > 0 && is_mine_at(b, x - 1, y) {
        n = n + 1;
    }
    if x + 1 < b.width && is_mine_at(b, x + 1, y) {
        n = n + 1;
    }
    if x > 0 && y + 1 < b.height && is_mine_at(b, x - 1, y + 1) {
        n = n + 1;
    }
    if y + 1 < b.height && is_mine_at(b, x, y + 1) {
        n = n + 1;
    }
    if x + 1 < b.width && y + 1 < b.height && is_mine_at(b, x + 1, y + 1) {
        n = n + 1;
    }
    n
}

/// Gives every non-mine cell the kind its neighborhood demands: `Adjacent(n)`
/// when `n > 0` neighbors hold mines, `Empty` otherwise. Mines, the covered
/// and marked flags, and the dimensions all stay.
#[verifier::loop_isolation(false)]
#[verifier::rlimit(100)]
fn compute_adjacency(b: &mut Board)
    requires
        old(b)@.wf(),
        forall|i: int|
            0 <= i < old(b)@.cells.len() ==> ((#[trigger] old(b)@.cells[i].kind) is Empty || old(
                b,
            )@.cells[i].kind is Mine),
    ensures
        final(b)@.wf(),
        final(b)@.width == old(b)@.width,
        final(b)@.height == old(b)@.height,
        final(b)@.num_mines == old(b)@.num_mines,
        final(b)@.cells.len() == old(b)@.cells.len(),
        same_flags(final(b)@.cells, old(b)@.cells),
        forall|i: int|
            #![trigger final(b)@.cells[i]]
            0 <= i < old(b)@.cells.len() ==> ((final(b)@.cells[i].kind is Mine) <==> (old(
                b,
            )@.cells[i].kind is Mine)),
        final(b)@.adjacency_correct(),
{
    let mut y: usize = 0;
    while y < b.height
        invariant
            b@.wf(),
            b@.width == old(b)@.width,
            b@.height == old(b)@.height,
            b@.num_mines == old(b)@.num_mines,
            b@.cells.len() == old(b)@.cells.len(),
            y <= b@.height,
            same_flags(b@.cells, old(b)@.cells),
            forall|i: int|
                #![trigger b@.cells[i]]
                0 <= i < old(b)@.cells.len() ==> ((b@.cells[i].kind is Mine) <==> (old(
                    b,
                )@.cells[i].kind is Mine)),
            forall|x2: int, y2: int|
                #![trigger b@.cell(x2, y2)]
                b@.in_bounds(x2, y2) && y2 >= y ==> b@.cell(x2, y2) == old(b)@.cell(x2, y2),
            forall|x2: int, y2: int|
                #![trigger b@.cell(x2, y2)]
                b@.in_bounds(x2, y2) && y2 < y && !(b@.cell(x2, y2).kind is Mine) ==> b@.cell(
                    x2,
                    y2,
                ).kind == old(b)@.counted_kind(x2, y2),
        decreases b@.height - y,
    {
        let mut x: usize = 0;
        while x < b.width
            invariant
                b@.wf(),
                b@.width == old(b)@.width,
                b@.height == old(b)@.height,
                b@.num_mines == old(b)@.num_mines,
                b@.cells.len() == old(b)@.cells.len(),
                y < b@.height,
                x <= b@.width,
                same_flags(b@.cells, old(b)@.cells),
                forall|i: int|
                    #![trigger b@.cells[i]]
                    0 <= i < old(b)@.cells.len() ==> ((b@.cells[i].kind is Mine) <==> (old(
                        b,
                    )@.cells[i].kind is Mine)),
                forall|x2: int, y2: int|
                    #![trigger b@.cell(x2, y2)]
                    b@.in_bounds(x2, y2) && (y2 > y || (y2 == y && x2 >= x)) ==> b@.cell(x2, y2)
                        == old(b)@.cell(x2, y2),
                forall|x2: int, y2: int|
                    #![trigger b@.cell(x2, y2)]
                    b@.in_bounds(x2, y2) && (y2 < y || (y2 == y && x2 < x)) && !(b@.cell(
                        x2,
                        y2,
                    ).kind is Mine) ==> b@.cell(x2, y2).kind == old(b)@.counted_kind(x2, y2),
            decreases b@.width - x,
        {
            let ghost g0 = b@;
            proof {
                lemma_flat_bounds(g0, x as int, y as int);
            }
            let c = b.cell_get(x, y);
            if !matches!(c.kind, Kind::Mine) {
                let n = adj_count_at(b, x, y);
                proof {
                    lemma_same_mines_same_adj(b@, old(b)@);
                    assert(n as int == old(b)@.adj_mines(x as int, y as int));
                }
                if n > 0 {
                    b.cell_put(x, y, Cell { kind: Kind::Adjacent(n), ..c });
                }
            }
            proof {
                assert forall|x2: int, y2: int|
                    g0.in_bounds(x2, y2) && (x2, y2) != (x as int, y as int) implies b@.cell(
                    x2,
                    y2,
                ) == g0.cell(x2, y2) by {
                    lemma_flat_bounds(g0, x2, y2);
                    if g0.flat(x2, y2) == g0.flat(x as int, y as int) {
                        lemma_flat_injective(g0, x as int, y as int, x2, y2);
                    }
                }
                assert(g0.cell(x as int, y as int) == old(b)@.cell(x as int, y as int));
                assert(!(b@.cell(x as int, y as int).kind is Mine) ==> b@.cell(
                    x as int,
                    y as int,
                ).kind == old(b)@.counted_kind(x as int, y as int)) by {
                    lemma_flat_bounds(g0, x as int, y as int);
                    assert(0 <= g0.flat(x as int, y as int) < old(b)@.cells.len());
                    assert(old(b)@.cells[g0.flat(x as int, y as int)].kind is Empty || old(
                        b,
                    )@.cells[g0.flat(x as int, y as int)].kind is Mine);
                }
                assert forall|x2: int, y2: int|
                    b@.in_bounds(x2, y2) && (y2 > y || (y2 == y && x2 >= x + 1)) implies b@.cell(
                    x2,
                    y2,
                ) == old(b)@.cell(x2, y2) by {
                    assert(b@.cell(x2, y2) == g0.cell(x2, y2));
                    assert(g0.cell(x2, y2) == old(b)@.cell(x2, y2));
                }
                assert forall|x2: int, y2: int|
                    b@.in_bounds(x2, y2) && (y2 < y || (y2 == y && x2 < x + 1)) && !(b@.cell(
                        x2,
                        y2,
                    ).kind is Mine) implies b@.cell(x2, y2).kind == old(b)@.counted_kind(
                    x2,
                    y2,
                ) by {
                    if (x2, y2) != (x as int, y as int) {
                        assert(b@.cell(x2, y2) == g0.cell(x2, y2));
                    }
                }
            }
            x = x + 1;
        }
        y = y + 1;
    }
    proof {
        lemma_same_mines_same_adj(final(b)@, old(b)@);
        assert forall|x2: int, y2: int|
            final(b)@.in_bounds(x2, y2) && !(final(b)@.cell(x2, y2).kind
                is Mine) implies #[trigger] final(b)@.cell(x2, y2).kind == final(b)@.counted_kind(
            x2,
            y2,
        ) by {
            assert(final(b)@.cell(x2, y2).kind == old(b)@.counted_kind(x2, y2));
            assert(final(b)@.adj_mines(x2, y2) == old(b)@.adj_mines(x2, y2));
        }
    }
}

/// Does the flat index `m` name a cell inside the safe zone of `(sx, sy)`?
#[verifier::loop_isolation(false)]
fn in_zone_flat_check(b: &Board, sx: usize, sy: usize, m: usize) -> (r: bool)
    requires
        b@.wf(),
        b@.in_bounds(sx as int, sy as int),
        (m as int) < b@.cells.len(),
    ensures
        r == flat_in_zone(b@, sx as int, sy as int, m as int),
{
    let xlo = if sx > 0 {
        sx - 1
    } else {
        0
    };
    let xhi = if sx + 1 <= b.width - 1 {
        sx + 1
    } else {
        b.width - 1
    };
    let ylo = if sy > 0 {
        sy - 1
    } else {
        0
    };
    let yhi = if sy + 1 <= b.height - 1 {
        sy + 1
    } else {
        b.height - 1
    };
    let mut yy = ylo;
    while yy <= yhi
        invariant
            xlo == zone_lo(sx as int),
            xhi == zone_hi(sx as int, b@.width),
            ylo == zone_lo(sy as int),
            yhi == zone_hi(sy as int, b@.height),
            ylo <= yy <= yhi + 1,
            forall|x2: int, y2: int|
                b@.in_bounds(x2, y2) && in_zone(sx as int, sy as int, x2, y2) && y2 < yy ==> m
                    as int != b@.flat(x2, y2),
        decreases yhi + 1 - yy,
    {
        let mut xx = xlo;
        while xx <= xhi
            invariant
                xlo == zone_lo(sx as int),
                xhi == zone_hi(sx as int, b@.width),
                ylo == zone_lo(sy as int),
                yhi == zone_hi(sy as int, b@.height),
                ylo <= yy <= yhi,
                xlo <= xx <= xhi + 1,
                forall|x2: int, y2: int|
                    b@.in_bounds(x2, y2) && in_zone(sx as int, sy as int, x2, y2) && (y2 < yy || (
                    y2 == yy && x2 < xx)) ==> m as int != b@.flat(x2, y2),
            decreases xhi + 1 - xx,
        {
            if m == b.flat_index(xx, yy) {
                assert(flat_in_zone(b@, sx as int, sy as int, m as int)) by {
                    assert(b@.in_bounds(xx as int, yy as int) && in_zone(
                        sx as int,
                        sy as int,
                        xx as int,
                        yy as int,
                    ) && m as int == b@.flat(xx as int, yy as int));
                }
                return true;
            }
            xx = xx + 1;
        }
        yy = yy + 1;
    }
    proof {
        if flat_in_zone(b@, sx as int, sy as int, m as int) {
            let (x2, y2) = choose|x2: int, y2: int|
                b@.in_bounds(x2, y2) && in_zone(sx as int, sy as int, x2, y2) && m as int
                    == b@.flat(x2, y2);
            assert(false);
        }
    }
    false
}

/// Is `mines` a placement that `populate_with_mines` can use on this board?
#[verifier::loop_isolation(false)]
fn mines_valid_check(b: &Board, sx: usize, sy: usize, mines: &Vec<usize>) -> (r: bool)
    requires
        b@.wf(),
        b@.in_bounds(sx as int, sy as int),
    ensures
        r == valid_mines(b@, sx as int, sy as int, mines@),
{
    if mines.len() != b.num_mines {
        return false;
    }
    let total = b.cells.len();
    let mut seen: Vec<bool> = Vec::new();
    let mut i: usize = 0;
    while i < total
        invariant
            i <= total,
            seen@.len() == i,
            forall|j: int| 0 <= j < i ==> !seen@[j],
        decreases total - i,
    {
        seen.push(false);
        i = i + 1;
    }
    let n = mines.len();
    let mut k: usize = 0;
    while k < n
        invariant
            seen@.len() == total,
            k <= n,
            forall|j1: int, j2: int| 0 <= j1 < j2 < k ==> mines@[j1] != mines@[j2],
            forall|j: int|
                0 <= j < k ==> (#[trigger] mines@[j] as int) < b@.cells.len() && !flat_in_zone(
                    b@,
                    sx as int,
                    sy as int,
                    mines@[j] as int,
                ),
            forall|j: int|
                0 <= j < total ==> (seen@[j] <==> contains_prefix(mines@, k as int, j)),
        decreases n - k,
    {
        let m = mines[k];
        if m >= total {
            return false;
        }
        if seen[m] {
            proof {
                let j = choose|j: int| 0 <= j < k && mines@[j] as int == m as int;
                assert(mines@[j] == mines@[k as int]);
                assert(!mines@.no_duplicates());
            }
            return false;
        }
        if in_zone_flat_check(b, sx, sy, m) {
            return false;
        }
        seen.set(m, true);
        proof {
            assert forall|j: int|
                0 <= j < total implies (seen@[j] <==> contains_prefix(mines@, k + 1, j)) by {
                if j == m as int {
                    assert(contains_prefix(mines@, k + 1, j));
                } else {
                    if contains_prefix(mines@, k + 1, j) {
                        let j2 = choose|j2: int| 0 <= j2 < k + 1 && mines@[j2] as int == j;
                        assert(j2 < k);
                        assert(contains_prefix(mines@, k as int, j));
                    }
                    if contains_prefix(mines@, k as int, j) {
                        assert(contains_prefix(mines@, k + 1, j));
                    }
                }
            }
        }
        k = k + 1;
    }
    proof {
        assert(mines@.no_duplicates()) by {
            assert forall|j1: int, j2: int|
                0 <= j1 < mines@.len() && 0 <= j2 < mines@.len() && j1 != j2 implies mines@[j1]
                != mines@[j2] by {
                if j1 < j2 {
                    assert(mines@[j1] != mines@[j2]);
                } else {
                    assert(mines@[j2] != mines@[j1]);
                }
            }
        }
    }
    true
}

/// Generates the board around the given placement: every listed cell becomes a
/// mine, every other cell gets its adjacency count, and the covered and marked
/// flags survive. This is the deterministic counterpart of `populate`: the
/// caller supplies what the random draw would have picked.
///
/// Fails with `OutOfBounds` exactly when the safe cell lies outside the grid,
/// and with `InsufficientSpace` exactly when the placement is unusable: wrong
/// count, a repeated or out-of-range index, or an index inside the safe zone.
/// On failure the board is unchanged.
pub fn populate_with_mines(b: &mut Board, sx: usize, sy: usize, mines: &Vec<usize>) -> (r: Result<
    (),
    GameError,
>)
    requires
        old(b)@.wf(),
    ensures
        final(b)@.wf(),
        match r {
            Ok(()) => {
                &&& old(b)@.in_bounds(sx as int, sy as int)
                &&& valid_mines(old(b)@, sx as int, sy as int, mines@)
                &&& generated(old(b)@, final(b)@, sx as int, sy as int)
                &&& forall|i: int|
                    0 <= i < final(b)@.cells.len() ==> ((#[trigger] final(b)@.cells[i].kind
                        is Mine) <==> contains_idx(mines@, i))
            },
            Err(e) => {
                &&& final(b)@ == old(b)@
                &&& (e == GameError::OutOfBounds || e == GameError::InsufficientSpace)
                &&& (e == GameError::OutOfBounds <==> !old(b)@.in_bounds(sx as int, sy as int))
                &&& (e == GameError::InsufficientSpace <==> old(b)@.in_bounds(sx as int, sy as int)
                    && !valid_mines(old(b)@, sx as int, sy as int, mines@))
            },
        },
{
    if sx >= b.width || sy >= b.height {
        return Err(GameError::OutOfBounds);
    }
    if !mines_valid_check(b, sx, sy, mines) {
        return Err(GameError::InsufficientSpace);
    }
    let ghost pre = b@;
    reset_kinds(b);
    proof {
        assert(forall|i: int|
            0 <= i < b@.cells.len() ==> (#[trigger] b@.cells[i].kind) is Empty);
    }
    place_mines(b, mines);
    let ghost placed = b@;
    compute_adjacency(b);
    proof {
        crate::board::lemma_count_mines_pointwise(final(b)@.cells, placed.cells);
        assert forall|x: int, y: int|
            final(b)@.in_bounds(x, y) && in_zone(sx as int, sy as int, x, y) implies !(
        #[trigger] final(b)@.cell(x, y).kind is Mine) by {
            lemma_flat_bounds(final(b)@, x, y);
            if final(b)@.cell(x, y).kind is Mine {
                assert(placed.cells[final(b)@.flat(x, y)].kind is Mine);
                assert(contains_idx(mines@, final(b)@.flat(x, y)));
                let k = choose|k: int|
                    0 <= k < mines@.len() && mines@[k] as int == final(b)@.flat(x, y);
                assert(!flat_in_zone(pre, sx as int, sy as int, mines@[k] as int));
                assert(flat_in_zone(pre, sx as int, sy as int, final(b)@.flat(x, y))) by {
                    assert(pre.in_bounds(x, y) && in_zone(sx as int, sy as int, x, y));
                    assert(final(b)@.flat(x, y) == pre.flat(x, y));
                }
                assert(false);
            }
        }
    }
    Ok(())
}

/// Generates the board from a uniformly random placement: `num_mines` mines
/// drawn without replacement from the cells outside the safe zone of
/// `(sx, sy)`, then every non-mine cell's adjacency count. The covered and
/// marked flags survive.
///
/// Fails with `OutOfBounds` exactly when the safe cell lies outside the grid,
/// and with `InsufficientSpace` exactly when fewer than `num_mines` cells lie
/// outside the safe zone. On failure the board is unchanged.
pub fn populate(b: &mut Board, sx: usize, sy: usize) -> (r: Result<(), GameError>)
    requires
        old(b)@.wf(),
    ensures
        final(b)@.wf(),
        match r {
            Ok(()) => {
                &&& old(b)@.in_bounds(sx as int, sy as int)
                &&& old(b)@.num_mines <= old(b)@.cells.len() - zone_size(
                    old(b)@.width,
                    old(b)@.height,
                    sx as int,
                    sy as int,
                )
                &&& generated(old(b)@, final(b)@, sx as int, sy as int)
            },
            Err(e) => {
                &&& final(b)@ == old(b)@
                &&& (e == GameError::OutOfBounds || e == GameError::InsufficientSpace)
                &&& (e == GameError::OutOfBounds <==> !old(b)@.in_bounds(sx as int, sy as int))
                &&& (e == GameError::InsufficientSpace <==> old(b)@.in_bounds(sx as int, sy as int)
                    && old(b)@.num_mines > old(b)@.cells.len() - zone_size(
                    old(b)@.width,
                    old(b)@.height,
                    sx as int,
                    sy as int,
                ))
            },
        },
{
    if sx >= b.width || sy >= b.height {
        return Err(GameError::OutOfBounds);
    }
    let mut order = build_eligible(b, sx, sy);
    if b.num_mines > order.len() {
        return Err(GameError::InsufficientSpace);
    }
    let ghost eligible = order@;
    shuffle_indices(&mut order);
    proof {
        lemma_permutation_keeps(eligible, order@);
    }
    order.truncate(b.num_mines);
    proof {
        assert(order@.no_duplicates());
        assert forall|k: int| 0 <= k < order@.len() implies (#[trigger] order@[k] as int) < b@.cells.len()
            && !flat_in_zone(b@, sx as int, sy as int, order@[k] as int) by {
            let j = choose|j: int| 0 <= j < eligible.len() && eligible[j] == order@[k];
        }
        assert(valid_mines(b@, sx as int, sy as int, order@));
    }
    match populate_with_mines(b, sx, sy, &order) {
        Ok(()) => Ok(()),
        Err(e) => {
            proof {
                assert(false);
            }
            Err(e)
        },
    }
}

} // verus!
