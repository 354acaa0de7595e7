//! The reveal engine: flood-fill uncovering and the win predicate.
//!
//! Uncovering a covered `Empty` cell uncovers its whole connected component of
//! `Empty` cells together with the `Adjacent` (or other) cells bordering that
//! component, and nothing beyond it. The contract states this through
//! `flooded`: a cell is uncovered exactly when a path of covered `Empty` cells
//! leads from the origin to it.

use vstd::prelude::*;

use crate::GameError;
use crate::board::{
    Board, Cell, Grid, Kind, count_covered, count_mines, is_neighbor, lemma_count_covered_bounds,
    lemma_count_covered_step, lemma_count_covered_update, lemma_flat_bounds, lemma_flat_injective,
};

verus! {

/// A path the flood fill can follow on grid `g`: consecutive cells are
/// neighbors, every cell on it is covered, and every cell except possibly the
/// last is `Empty`.
pub open spec fn flood_path(g: Grid, p: Seq<(int, int)>) -> bool {
    &&& p.len() >= 1
    &&& forall|i: int|
        #![trigger p[i]]
        0 <= i < p.len() ==> g.in_bounds(p[i].0, p[i].1) && g.cell(p[i].0, p[i].1).covered
    &&& forall|i: int|
        #![trigger p[i]]
        0 <= i < p.len() - 1 ==> is_neighbor(p[i].0, p[i].1, p[i + 1].0, p[i + 1].1) && g.cell(
            p[i].0,
            p[i].1,
        ).kind is Empty
}

/// The flood fill started at a covered `(ox, oy)` reaches `(x, y)`.
pub open spec fn flooded(g: Grid, ox: int, oy: int, x: int, y: int) -> bool {
    exists|p: Seq<(int, int)>|
        flood_path(g, p) && p.first() == (ox, oy) && p.last() == (x, y)
}

/// The cells that uncovering a covered `(ox, oy)` newly uncovers: the whole
/// flood when the origin is `Empty`, the origin alone otherwise.
pub open spec fn newly_uncovered(g: Grid, ox: int, oy: int, x: int, y: int) -> bool {
    if g.cell(ox, oy).kind is Empty {
        flooded(g, ox, oy, x, y)
    } else {
        (x, y) == (ox, oy)
    }
}

/// How `uncover` leaves the grid `gc`, seen against the grid `g` it started
/// from, when the origin `(ox, oy)` was covered: kinds survive everywhere,
/// covering is removed exactly on the newly uncovered cells, and a cell's mark
/// is cleared exactly when the cell is uncovered here.
pub open spec fn uncover_post(g: Grid, gc: Grid, ox: int, oy: int) -> bool {
    &&& gc.width == g.width && gc.height == g.height && gc.num_mines == g.num_mines
    &&& gc.cells.len() == g.cells.len()
    &&& forall|i: int|
        #![trigger gc.cells[i]]
        0 <= i < g.cells.len() ==> gc.cells[i].kind == g.cells[i].kind
    &&& forall|x2: int, y2: int|
        #![trigger gc.cell(x2, y2)]
        g.in_bounds(x2, y2) ==> (gc.cell(x2, y2).covered == (g.cell(x2, y2).covered
            && !newly_uncovered(g, ox, oy, x2, y2)) && gc.cell(x2, y2).marked == (if g.cell(
            x2,
            y2,
        ).covered && !gc.cell(x2, y2).covered {
            false
        } else {
            g.cell(x2, y2).marked
        }))
}

/// While the flood runs: `gc` differs from `g` only by uncovering (and
/// unmarking) cells the flood has reached.
spec fn flood_inv_cells(g: Grid, gc: Grid, ox: int, oy: int) -> bool {
    &&& gc.width == g.width && gc.height == g.height && gc.num_mines == g.num_mines
    &&& gc.cells.len() == g.cells.len()
    &&& forall|i: int|
        #![trigger gc.cells[i]]
        0 <= i < g.cells.len() ==> gc.cells[i].kind == g.cells[i].kind
    &&& forall|x2: int, y2: int|
        #![trigger gc.cell(x2, y2)]
        g.in_bounds(x2, y2) ==> ((gc.cell(x2, y2).covered ==> g.cell(x2, y2).covered) && ((
        !gc.cell(x2, y2).covered && g.cell(x2, y2).covered) ==> flooded(g, ox, oy, x2, y2))
            && gc.cell(x2, y2).marked == (if g.cell(x2, y2).covered && !gc.cell(x2, y2).covered {
            false
        } else {
            g.cell(x2, y2).marked
        }))
}

/// `(x, y)` is on the worklist.
spec fn wl_contains(wl: Seq<(usize, usize)>, x: int, y: int) -> bool {
    exists|k: int| 0 <= k < wl.len() && wl[k].0 as int == x && wl[k].1 as int == y
}

/// Every worklist entry is an in-range `Empty` cell that was covered, has been
/// uncovered by the flood, and is reachable from the origin.
spec fn wl_ok(g: Grid, gc: Grid, ox: int, oy: int, wl: Seq<(usize, usize)>) -> bool {
    forall|k: int|
        #![trigger wl[k]]
        0 <= k < wl.len() ==> {
            let cx = wl[k].0 as int;
            let cy = wl[k].1 as int;
            &&& g.in_bounds(cx, cy)
            &&& g.cell(cx, cy).kind is Empty
            &&& g.cell(cx, cy).covered
            &&& !gc.cell(cx, cy).covered
            &&& flooded(g, ox, oy, cx, cy)
        }
}

/// All in-range neighbors of `(x2, y2)` stand uncovered in `gc`.
spec fn nbrs_done(gc: Grid, x2: int, y2: int) -> bool {
    forall|x3: int, y3: int|
        #![trigger gc.cell(x3, y3)]
        gc.in_bounds(x3, y3) && is_neighbor(x2, y2, x3, y3) ==> !gc.cell(x3, y3).covered
}

/// Every `Empty` cell the flood has uncovered and finished with (it is not on
/// the worklist, and it is not `except`, the cell being processed right now)
/// has had all of its neighbors uncovered.
spec fn frontier_done(g: Grid, gc: Grid, wl: Seq<(usize, usize)>, except: Option<(int, int)>) -> bool {
    forall|x2: int, y2: int|
        #![trigger gc.cell(x2, y2)]
        g.in_bounds(x2, y2) && g.cell(x2, y2).kind is Empty && g.cell(x2, y2).covered && !gc.cell(
            x2,
            y2,
        ).covered && !wl_contains(wl, x2, y2) && except != Some((x2, y2)) ==> nbrs_done(gc, x2, y2)
}

/// A flood path extends across one more covered neighbor of its `Empty` end.
proof fn lemma_flood_extend(g: Grid, ox: int, oy: int, cx: int, cy: int, nx: int, ny: int)
    requires
        flooded(g, ox, oy, cx, cy),
        g.cell(cx, cy).kind is Empty,
        g.in_bounds(nx, ny),
        g.cell(nx, ny).covered,
        is_neighbor(cx, cy, nx, ny),
    ensures
        flooded(g, ox, oy, nx, ny),
{
    let p = choose|p: Seq<(int, int)>|
        flood_path(g, p) && p.first() == (ox, oy) && p.last() == (cx, cy);
    let p2 = p.push((nx, ny));
    assert(flood_path(g, p2)) by {
        assert(forall|i: int| 0 <= i < p.len() ==> p2[i] == p[i]);
        assert(p2[p2.len() - 1] == (nx, ny));
        assert(p2[p.len() - 1] == p.last());
    }
    assert(p2.first() == (ox, oy) && p2.last() == (nx, ny));
}

/// Once the worklist is empty, everything the flood can reach stands
/// uncovered: walked along any flood path by induction on its length.
proof fn lemma_flood_complete(g: Grid, gc: Grid, ox: int, oy: int, p: Seq<(int, int)>)
    requires
        flood_path(g, p),
        p.first() == (ox, oy),
        !gc.cell(ox, oy).covered,
        gc.width == g.width && gc.height == g.height,
        frontier_done(g, gc, Seq::<(usize, usize)>::empty(), None),
        flood_inv_cells(g, gc, ox, oy),
    ensures
        !gc.cell(p.last().0, p.last().1).covered,
    decreases p.len(),
{
    if p.len() == 1 {
        assert(p.last() == (ox, oy));
    } else {
        let q = p.drop_last();
        assert(flood_path(g, q)) by {
            assert(forall|i: int| 0 <= i < q.len() ==> q[i] == p[i]);
        }
        assert(q.first() == (ox, oy));
        lemma_flood_complete(g, gc, ox, oy, q);
        let prev = p[p.len() - 2];
        assert(q.last() == prev);
        assert(g.cell(prev.0, prev.1).kind is Empty && g.cell(prev.0, prev.1).covered);
        assert(!wl_contains(Seq::<(usize, usize)>::empty(), prev.0, prev.1));
        assert(nbrs_done(gc, prev.0, prev.1));
        assert(is_neighbor(prev.0, prev.1, p.last().0, p.last().1));
        assert(gc.in_bounds(p.last().0, p.last().1));
    }
}

/// One flood step: if the neighbor `(nx, ny)` is still covered, uncover and
/// unmark it, and queue it when it is `Empty`. `g` is the grid as `uncover`
/// found it, `o` the flood origin, `c` the cell whose neighbors are being
/// worked through.
#[verifier::loop_isolation(false)]
#[verifier::rlimit(60)]
fn visit(
    b: &mut Board,
    wl: &mut Vec<(usize, usize)>,
    nx: usize,
    ny: usize,
    Ghost(g): Ghost<Grid>,
    Ghost(o): Ghost<(int, int)>,
    Ghost(c): Ghost<(int, int)>,
)
    requires
        old(b)@.wf(),
        g.wf(),
        flood_inv_cells(g, old(b)@, o.0, o.1),
        wl_ok(g, old(b)@, o.0, o.1, old(wl)@),
        frontier_done(g, old(b)@, old(wl)@, Some(c)),
        g.in_bounds(nx as int, ny as int),
        g.cell(nx as int, ny as int).covered ==> flooded(g, o.0, o.1, nx as int, ny as int),
    ensures
        final(b)@.wf(),
        flood_inv_cells(g, final(b)@, o.0, o.1),
        wl_ok(g, final(b)@, o.0, o.1, final(wl)@),
        frontier_done(g, final(b)@, final(wl)@, Some(c)),
        !final(b)@.cell(nx as int, ny as int).covered,
        forall|x2: int, y2: int|
            #![trigger final(b)@.cell(x2, y2)]
            g.in_bounds(x2, y2) && !old(b)@.cell(x2, y2).covered ==> !final(b)@.cell(
                x2,
                y2,
            ).covered,
        count_covered(final(b)@.cells) <= count_covered(old(b)@.cells),
        old(wl)@.len() <= final(wl)@.len() <= old(wl)@.len() + 1,
        final(wl)@.len() > old(wl)@.len() ==> count_covered(final(b)@.cells) < count_covered(
            old(b)@.cells,
        ),
{
    let cc = b.cell_get(nx, ny);
    if cc.covered {
        let ghost pre = b@;
        let ghost nc = Cell { covered: false, marked: false, kind: cc.kind };
        proof {
            lemma_flat_bounds(pre, nx as int, ny as int);
        }
        b.cell_put(nx, ny, Cell { covered: false, marked: false, kind: cc.kind });
        proof {
            lemma_count_covered_update(pre.cells, pre.flat(nx as int, ny as int), nc);
            assert forall|x2: int, y2: int|
                g.in_bounds(x2, y2) && (x2, y2) != (nx as int, ny as int) implies b@.cell(x2, y2)
                == pre.cell(x2, y2) by {
                lemma_flat_bounds(pre, x2, y2);
                if pre.flat(x2, y2) == pre.flat(nx as int, ny as int) {
                    lemma_flat_injective(pre, x2, y2, nx as int, ny as int);
                }
            }
            assert(g.cell(nx as int, ny as int).covered);
            assert(flooded(g, o.0, o.1, nx as int, ny as int));
            assert(flood_inv_cells(g, b@, o.0, o.1)) by {
                assert forall|i: int| 0 <= i < g.cells.len() implies #[trigger] b@.cells[i].kind
                    == g.cells[i].kind by {
                    if i != pre.flat(nx as int, ny as int) {
                        assert(b@.cells[i] == pre.cells[i]);
                    }
                }
            }
        }
        if matches!(cc.kind, Kind::Empty) {
            let ghost wl0 = wl@;
            wl.push((nx, ny));
            proof {
                assert(wl_ok(g, b@, o.0, o.1, wl@)) by {
                    assert forall|k: int| 0 <= k < wl@.len() implies {
                        let cx = #[trigger] wl@[k].0 as int;
                        let cy = wl@[k].1 as int;
                        &&& g.in_bounds(cx, cy)
                        &&& g.cell(cx, cy).kind is Empty
                        &&& g.cell(cx, cy).covered
                        &&& !b@.cell(cx, cy).covered
                        &&& flooded(g, o.0, o.1, cx, cy)
                    } by {
                        if k < wl0.len() {
                            assert(wl@[k] == wl0[k]);
                            let cx = wl0[k].0 as int;
                            let cy = wl0[k].1 as int;
                            if (cx, cy) != (nx as int, ny as int) {
                                assert(b@.cell(cx, cy) == pre.cell(cx, cy));
                            }
                        } else {
                            assert(wl@[k] == (nx, ny));
                        }
                    }
                }
                assert(frontier_done(g, b@, wl@, Some(c))) by {
                    assert forall|x2: int, y2: int|
                        g.in_bounds(x2, y2) && g.cell(x2, y2).kind is Empty && g.cell(
                            x2,
                            y2,
                        ).covered && !(#[trigger] b@.cell(x2, y2)).covered && !wl_contains(
                            wl@,
                            x2,
                            y2,
                        ) && Some((x2, y2)) != Some((c.0, c.1)) implies nbrs_done(b@, x2, y2) by {
                        assert(!wl_contains(wl0, x2, y2)) by {
                            if wl_contains(wl0, x2, y2) {
                                let k = choose|k: int|
                                    0 <= k < wl0.len() && wl0[k].0 as int == x2 && wl0[k].1 as int
                                        == y2;
                                assert(wl@[k] == wl0[k]);
                                assert(wl_contains(wl@, x2, y2));
                            }
                        }
                        assert((x2, y2) != (nx as int, ny as int)) by {
                            if (x2, y2) == (nx as int, ny as int) {
                                assert(wl@[wl@.len() - 1] == (nx, ny));
                                assert(wl_contains(wl@, x2, y2));
                            }
                        }
                        assert(b@.cell(x2, y2) == pre.cell(x2, y2));
                        assert(!pre.cell(x2, y2).covered);
                        assert(nbrs_done(pre, x2, y2));
                        assert forall|x3: int, y3: int|
                            b@.in_bounds(x3, y3) && is_neighbor(x2, y2, x3, y3) implies !(
                        #[trigger] b@.cell(x3, y3)).covered by {
                            if (x3, y3) != (nx as int, ny as int) {
                                assert(b@.cell(x3, y3) == pre.cell(x3, y3));
                            }
                        }
                    }
                }
            }
        } else {
            proof {
                assert(wl_ok(g, b@, o.0, o.1, wl@)) by {
                    assert forall|k: int| 0 <= k < wl@.len() implies {
                        let cx = #[trigger] wl@[k].0 as int;
                        let cy = wl@[k].1 as int;
                        &&& g.in_bounds(cx, cy)
                        &&& g.cell(cx, cy).kind is Empty
                        &&& g.cell(cx, cy).covered
                        &&& !b@.cell(cx, cy).covered
                        &&& flooded(g, o.0, o.1, cx, cy)
                    } by {
                        let cx = wl@[k].0 as int;
                        let cy = wl@[k].1 as int;
                        if (cx, cy) != (nx as int, ny as int) {
                            assert(b@.cell(cx, cy) == pre.cell(cx, cy));
                        }
                    }
                }
                assert(frontier_done(g, b@, wl@, Some(c))) by {
                    assert forall|x2: int, y2: int|
                        g.in_bounds(x2, y2) && g.cell(x2, y2).kind is Empty && g.cell(
                            x2,
                            y2,
                        ).covered && !(#[trigger] b@.cell(x2, y2)).covered && !wl_contains(
                            wl@,
                            x2,
                            y2,
                        ) && Some((x2, y2)) != Some((c.0, c.1)) implies nbrs_done(b@, x2, y2) by {
                        assert((x2, y2) != (nx as int, ny as int)) by {
                            if (x2, y2) == (nx as int, ny as int) {
                                assert(b@.cell(x2, y2).kind == g.cell(x2, y2).kind);
                            }
                        }
                        assert(b@.cell(x2, y2) == pre.cell(x2, y2));
                        assert(nbrs_done(pre, x2, y2));
                        assert forall|x3: int, y3: int|
                            b@.in_bounds(x3, y3) && is_neighbor(x2, y2, x3, y3) implies !(
                        #[trigger] b@.cell(x3, y3)).covered by {
                            if (x3, y3) != (nx as int, ny as int) {
                                assert(b@.cell(x3, y3) == pre.cell(x3, y3));
                            }
                        }
                    }
                }
            }
        }
    } else {
        proof {
            lemma_count_covered_bounds(b@.cells);
        }
    }
}

/// Uncovers the cell at `(x, y)`. An already-uncovered cell is left alone. A
/// covered cell is uncovered and unmarked; when it is `Empty`, the uncovering
/// floods outward over the connected covered `Empty` region and its border
/// (worked through an explicit worklist, so the recursion depth never exceeds
/// the call stack), and no cell beyond that border changes.
///
/// Fails with `OutOfBounds` exactly when `(x, y)` lies outside the grid; the
/// board is then unchanged.
#[verifier::loop_isolation(false)]
#[verifier::rlimit(100)]
pub fn uncover(b: &mut Board, x: usize, y: usize) -> (r: Result<(), GameError>)
    requires
        old(b)@.wf(),
    ensures
        final(b)@.wf(),
        match r {
            Ok(()) => old(b)@.in_bounds(x as int, y as int) && (if old(b)@.cell(
                x as int,
                y as int,
            ).covered {
                uncover_post(old(b)@, final(b)@, x as int, y as int)
            } else {
                final(b)@ == old(b)@
            }),
            Err(e) => {
                &&& e == GameError::OutOfBounds
                &&& !old(b)@.in_bounds(x as int, y as int)
                &&& final(b)@ == old(b)@
            },
        },
{
    if x >= b.width || y >= b.height {
        return Err(GameError::OutOfBounds);
    }
    let c = b.cell_get(x, y);
    if !c.covered {
        return Ok(());
    }
    let ghost g = b@;
    let ghost o = (x as int, y as int);
    proof {
        lemma_flat_bounds(g, o.0, o.1);
        let p = seq![(x as int, y as int)];
        assert(flood_path(g, p));
        assert(p.first() == o && p.last() == o);
        assert(flooded(g, o.0, o.1, o.0, o.1));
    }
    b.cell_put(x, y, Cell { covered: false, marked: false, kind: c.kind });
    proof {
        assert forall|x2: int, y2: int|
            g.in_bounds(x2, y2) && (x2, y2) != o implies b@.cell(x2, y2) == g.cell(x2, y2) by {
            lemma_flat_bounds(g, x2, y2);
            if g.flat(x2, y2) == g.flat(o.0, o.1) {
                lemma_flat_injective(g, x2, y2, o.0, o.1);
            }
        }
        assert forall|i: int| 0 <= i < g.cells.len() implies #[trigger] b@.cells[i].kind
            == g.cells[i].kind by {
            if i != g.flat(o.0, o.1) {
                assert(b@.cells[i] == g.cells[i]);
            }
        }
    }
    if !matches!(c.kind, Kind::Empty) {
        proof {
            assert(uncover_post(g, b@, o.0, o.1)) by {
                assert forall|x2: int, y2: int|
                    g.in_bounds(x2, y2) implies (#[trigger] b@.cell(x2, y2).covered == (g.cell(
                    x2,
                    y2,
                ).covered && !newly_uncovered(g, o.0, o.1, x2, y2)) && b@.cell(x2, y2).marked == (
                if g.cell(x2, y2).covered && !b@.cell(x2, y2).covered {
                    false
                } else {
                    g.cell(x2, y2).marked
                })) by {
                    if (x2, y2) != o {
                        assert(b@.cell(x2, y2) == g.cell(x2, y2));
                    }
                }
            }
        }
        return Ok(());
    }
    let mut wl: Vec<(usize, usize)> = Vec::new();
    wl.push((x, y));
    proof {
        lemma_count_covered_bounds(b@.cells);
        assert(wl_ok(g, b@, o.0, o.1, wl@)) by {
            assert(wl@[0] == (x, y));
        }
        assert(frontier_done(g, b@, wl@, None)) by {
            assert forall|x2: int, y2: int|
                g.in_bounds(x2, y2) && g.cell(x2, y2).kind is Empty && g.cell(x2, y2).covered && !(
                #[trigger] b@.cell(x2, y2)).covered && !wl_contains(wl@, x2, y2) && None::<
                    (int, int),
                > != Some((x2, y2)) implies nbrs_done(b@, x2, y2) by {
                if (x2, y2) == o {
                    assert(wl@[0].0 as int == x2 && wl@[0].1 as int == y2);
                    assert(wl_contains(wl@, x2, y2));
                } else {
                    assert(b@.cell(x2, y2) == g.cell(x2, y2));
                }
            }
        }
    }
    while wl.len() > 0
        invariant
            b@.wf(),
            g.in_bounds(o.0, o.1),
            g.cell(o.0, o.1).kind is Empty,
            g.cell(o.0, o.1).covered,
            !b@.cell(o.0, o.1).covered,
            flood_inv_cells(g, b@, o.0, o.1),
            wl_ok(g, b@, o.0, o.1, wl@),
            frontier_done(g, b@, wl@, None),
            0 <= count_covered(b@.cells),
        decreases count_covered(b@.cells), wl@.len(),
    {
        let ghost count0 = count_covered(b@.cells);
        let ghost len0 = wl@.len();
        let ghost wl0 = wl@;
        let popped = wl.pop();
        let (cx, cy) = match popped {
            Some(p) => p,
            None => {
                proof {
                    assert(false);
                }
                (0, 0)
            },
        };
        let ghost cg = (cx as int, cy as int);
        proof {
            assert(wl0[len0 - 1] == (cx, cy));
            assert(g.in_bounds(cg.0, cg.1) && g.cell(cg.0, cg.1).kind is Empty && g.cell(
                cg.0,
                cg.1,
            ).covered && flooded(g, o.0, o.1, cg.0, cg.1));
            assert(wl_ok(g, b@, o.0, o.1, wl@)) by {
                assert(forall|k: int| 0 <= k < wl@.len() ==> wl@[k] == wl0[k]);
            }
            assert(frontier_done(g, b@, wl@, Some(cg))) by {
                assert forall|x2: int, y2: int|
                    g.in_bounds(x2, y2) && g.cell(x2, y2).kind is Empty && g.cell(x2, y2).covered
                        && !(#[trigger] b@.cell(x2, y2)).covered && !wl_contains(wl@, x2, y2)
                        && Some((x2, y2)) != Some((cg.0, cg.1)) implies nbrs_done(b@, x2, y2) by {
                    assert(!wl_contains(wl0, x2, y2)) by {
                        if wl_contains(wl0, x2, y2) {
                            let k = choose|k: int|
                                0 <= k < wl0.len() && wl0[k].0 as int == x2 && wl0[k].1 as int
                                    == y2;
                            if k < len0 - 1 {
                                assert(wl@[k] == wl0[k]);
                                assert(wl_contains(wl@, x2, y2));
                            } else {
                                assert((x2, y2) == (cg.0, cg.1));
                            }
                        }
                    }
                }
            }
        }
        if cx > 0 && cy > 0 {
            proof {
                flood_if_covered(g, o, cg, cg.0 - 1, cg.1 - 1);
            }
            visit(b, &mut wl, cx - 1, cy - 1, Ghost(g), Ghost(o), Ghost(cg));
        }
        if cy > 0 {
            proof {
                flood_if_covered(g, o, cg, cg.0, cg.1 - 1);
            }
            visit(b, &mut wl, cx, cy - 1, Ghost(g), Ghost(o), Ghost(cg));
        }
        if cx + 1 < b.width && cy > 0 {
            proof {
                flood_if_covered(g, o, cg, cg.0 + 1, cg.1 - 1);
            }
            visit(b, &mut wl, cx + 1, cy - 1, Ghost(g), Ghost(o), Ghost(cg));
        }
        if cx > 0 {
            proof {
                flood_if_covered(g, o, cg, cg.0 - 1, cg.1);
            }
            visit(b, &mut wl, cx - 1, cy, Ghost(g), Ghost(o), Ghost(cg));
        }
        if cx + 1 < b.width {
            proof {
                flood_if_covered(g, o, cg, cg.0 + 1, cg.1);
            }
            visit(b, &mut wl, cx + 1, cy, Ghost(g), Ghost(o), Ghost(cg));
        }
        if cx > 0 && cy + 1 < b.height {
            proof {
                flood_if_covered(g, o, cg, cg.0 - 1, cg.1 + 1);
            }
            visit(b, &mut wl, cx - 1, cy + 1, Ghost(g), Ghost(o), Ghost(cg));
        }
        if cy + 1 < b.height {
            proof {
                flood_if_covered(g, o, cg, cg.0, cg.1 + 1);
            }
            visit(b, &mut wl, cx, cy + 1, Ghost(g), Ghost(o), Ghost(cg));
        }
        if cx + 1 < b.width && cy + 1 < b.height {
            proof {
                flood_if_covered(g, o, cg, cg.0 + 1, cg.1 + 1);
            }
            visit(b, &mut wl, cx + 1, cy + 1, Ghost(g), Ghost(o), Ghost(cg));
        }
        proof {
            lemma_count_covered_bounds(b@.cells);
            assert(frontier_done(g, b@, wl@, None)) by {
                assert(nbrs_done(b@, cg.0, cg.1)) by {
                    assert forall|x3: int, y3: int|
                        b@.in_bounds(x3, y3) && is_neighbor(cg.0, cg.1, x3, y3) implies !(
                    #[trigger] b@.cell(x3, y3)).covered by {
                        assert(x3 - cg.0 == -1 || x3 - cg.0 == 0 || x3 - cg.0 == 1);
                        assert(y3 - cg.1 == -1 || y3 - cg.1 == 0 || y3 - cg.1 == 1);
                    }
                }
            }
            assert(count_covered(b@.cells) < count0 || (count_covered(b@.cells) == count0
                && wl@.len() < len0));
        }
    }
    proof {
        assert(wl@ =~= Seq::<(usize, usize)>::empty());
        assert(uncover_post(g, b@, o.0, o.1)) by {
            assert forall|x2: int, y2: int|
                g.in_bounds(x2, y2) implies (#[trigger] b@.cell(x2, y2).covered == (g.cell(
                x2,
                y2,
            ).covered && !newly_uncovered(g, o.0, o.1, x2, y2)) && b@.cell(x2, y2).marked == (
            if g.cell(x2, y2).covered && !b@.cell(x2, y2).covered {
                false
            } else {
                g.cell(x2, y2).marked
            })) by {
                if flooded(g, o.0, o.1, x2, y2) {
                    let p = choose|p: Seq<(int, int)>|
                        flood_path(g, p) && p.first() == (o.0, o.1) && p.last() == (x2, y2);
                    lemma_flood_complete(g, b@, o.0, o.1, p);
                    assert(!b@.cell(x2, y2).covered);
                }
            }
        }
    }
    Ok(())
}

/// Every mine still sits under cover.
pub open spec fn mines_covered(g: Grid) -> bool {
    forall|i: int|
        #![trigger g.cells[i]]
        0 <= i < g.cells.len() ==> ((g.cells[i].kind is Mine) ==> g.cells[i].covered)
}

/// The game is won: exactly `num_mines` cells remain covered, and every mine
/// is among them — so every non-mine cell has been uncovered.
pub open spec fn won(g: Grid) -> bool {
    &&& count_covered(g.cells) == g.num_mines
    &&& mines_covered(g)
}

/// How `reveal_mines` leaves the grid: kinds survive, every mine is uncovered,
/// every other cell keeps its covering, and a cell's mark is cleared exactly
/// when the cell is uncovered here.
pub open spec fn mines_revealed(g: Grid, g2: Grid) -> bool {
    &&& g2.width == g.width && g2.height == g.height && g2.num_mines == g.num_mines
    &&& g2.cells.len() == g.cells.len()
    &&& forall|i: int|
        #![trigger g2.cells[i]]
        0 <= i < g.cells.len() ==> (g2.cells[i].kind == g.cells[i].kind && g2.cells[i].covered == (
        g.cells[i].covered && !(g.cells[i].kind is Mine)) && g2.cells[i].marked == (
        if g.cells[i].covered && !g2.cells[i].covered {
            false
        } else {
            g.cells[i].marked
        }))
}

/// Uncovers (and unmarks) every mine: the board shown after a loss.
#[verifier::loop_isolation(false)]
pub fn reveal_mines(b: &mut Board)
    requires
        old(b)@.wf(),
    ensures
        final(b)@.wf(),
        mines_revealed(old(b)@, final(b)@),
{
    let n = b.cells.len();
    let mut i: usize = 0;
    while i < n
        invariant
            b@.wf(),
            b@.width == old(b)@.width,
            b@.height == old(b)@.height,
            b@.num_mines == old(b)@.num_mines,
            b@.cells.len() == old(b)@.cells.len(),
            i <= n,
            forall|j: int|
                #![trigger b@.cells[j]]
                0 <= j < i ==> (b@.cells[j].kind == old(b)@.cells[j].kind && b@.cells[j].covered
                    == (old(b)@.cells[j].covered && !(old(b)@.cells[j].kind is Mine))
                    && b@.cells[j].marked == (if old(b)@.cells[j].covered && !b@.cells[j].covered {
                    false
                } else {
                    old(b)@.cells[j].marked
                })),
            forall|j: int| i <= j < n ==> #[trigger] b@.cells[j] == old(b)@.cells[j],
        decreases n - i,
    {
        let c = b.cells[i];
        if matches!(c.kind, Kind::Mine) && c.covered {
            b.cells.set(i, Cell { covered: false, marked: false, kind: c.kind });
        }
        i = i + 1;
    }
}

/// True exactly when the number of covered cells equals `num_mines` and every
/// mine cell remains covered.
#[verifier::loop_isolation(false)]
pub fn has_won(b: &Board) -> (r: bool)
    requires
        b@.wf(),
    ensures
        r == won(b@),
{
    let n = b.cells.len();
    let mut covered: usize = 0;
    let mut mines_ok = true;
    let mut i: usize = 0;
    while i < n
        invariant
            i <= n,
            covered as int == count_covered(b@.cells.subrange(0, i as int)),
            covered <= i,
            mines_ok == (forall|j: int|
                #![trigger b@.cells[j]]
                0 <= j < i ==> ((b@.cells[j].kind is Mine) ==> b@.cells[j].covered)),
        decreases n - i,
    {
        let c = b.cells[i];
        proof {
            lemma_count_covered_step(b@.cells, i as int);
            lemma_count_covered_bounds(b@.cells.subrange(0, i as int));
        }
        let ghost old_ok = mines_ok;
        if c.covered {
            covered = covered + 1;
        }
        if matches!(c.kind, Kind::Mine) && !c.covered {
            mines_ok = false;
        }
        proof {
            if !old_ok {
                let j = choose|j: int|
                    0 <= j < i && (#[trigger] b@.cells[j].kind is Mine) && !b@.cells[j].covered;
                assert(!(forall|j: int|
                    #![trigger b@.cells[j]]
                    0 <= j < i + 1 ==> ((b@.cells[j].kind is Mine) ==> b@.cells[j].covered)));
            }
        }
        i = i + 1;
    }
    proof {
        assert(b@.cells.subrange(0, n as int) =~= b@.cells);
    }
    covered == b.num_mines && mines_ok
}

/// The two readings of the win condition coincide on a generated board: the
/// covered count equals `num_mines` with every mine covered, exactly when the
/// covered cells are precisely the mines — every non-mine cell is uncovered.
pub proof fn lemma_won_characterization(g: Grid)
    requires
        g.wf(),
        count_mines(g.cells) == g.num_mines,
    ensures
        won(g) <==> (forall|i: int|
            #![trigger g.cells[i]]
            0 <= i < g.cells.len() ==> ((g.cells[i].covered) <==> g.cells[i].kind is Mine)),
{
    if won(g) {
        crate::board::lemma_covered_exactly_mines(g.cells);
    }
    if (forall|i: int|
        #![trigger g.cells[i]]
        0 <= i < g.cells.len() ==> ((g.cells[i].covered) <==> g.cells[i].kind is Mine)) {
        crate::board::lemma_count_covered_eq_mines(g.cells);
    }
}

/// On a board with correct adjacency counts, no mine borders an `Empty` cell.
pub proof fn lemma_empty_has_no_mine_neighbors(g: Grid, cx: int, cy: int)
    requires
        g.wf(),
        g.adjacency_correct(),
        g.in_bounds(cx, cy),
        g.cell(cx, cy).kind is Empty,
    ensures
        forall|nx: int, ny: int|
            g.in_bounds(nx, ny) && is_neighbor(cx, cy, nx, ny) ==> !(#[trigger] g.cell(
                nx,
                ny,
            ).kind is Mine),
{
    reveal(Grid::adj_mines);
    assert(g.cell(cx, cy).kind == g.counted_kind(cx, cy));
    assert(g.adj_mines(cx, cy) == 0);
    assert forall|nx: int, ny: int|
        g.in_bounds(nx, ny) && is_neighbor(cx, cy, nx, ny) implies !(#[trigger] g.cell(
        nx,
        ny,
    ).kind is Mine) by {
        assert(nx - cx == -1 || nx - cx == 0 || nx - cx == 1);
        assert(ny - cy == -1 || ny - cy == 0 || ny - cy == 1);
        assert(g.mine_ind(nx, ny) == 0);
    }
}

/// On a board with correct adjacency counts, a flood that starts on an `Empty`
/// cell reaches no mine: it uncovers the `Empty` component and its border of
/// numbered cells only.
pub proof fn lemma_flood_reaches_no_mine(g: Grid, ox: int, oy: int, x: int, y: int)
    requires
        g.wf(),
        g.adjacency_correct(),
        g.in_bounds(ox, oy),
        g.cell(ox, oy).kind is Empty,
        flooded(g, ox, oy, x, y),
    ensures
        !(g.cell(x, y).kind is Mine),
{
    let p = choose|p: Seq<(int, int)>|
        flood_path(g, p) && p.first() == (ox, oy) && p.last() == (x, y);
    if p.len() == 1 {
        assert(p.last() == (ox, oy));
    } else {
        let prev = p[p.len() - 2];
        assert(g.in_bounds(prev.0, prev.1) && g.cell(prev.0, prev.1).kind is Empty);
        assert(is_neighbor(prev.0, prev.1, p.last().0, p.last().1));
        lemma_empty_has_no_mine_neighbors(g, prev.0, prev.1);
        assert(g.in_bounds(p.last().0, p.last().1));
    }
}

/// Uncovering a covered non-mine cell leaves every mine covered: the flood
/// reaches no mine on a board with correct adjacency counts.
pub proof fn lemma_uncover_keeps_mines_covered(g: Grid, g2: Grid, ox: int, oy: int)
    requires
        g.wf(),
        g.adjacency_correct(),
        mines_covered(g),
        g.in_bounds(ox, oy),
        !(g.cell(ox, oy).kind is Mine),
        uncover_post(g, g2, ox, oy),
    ensures
        mines_covered(g2),
{
    assert forall|i: int|
        0 <= i < g2.cells.len() && (#[trigger] g2.cells[i].kind is Mine) implies g2.cells[i].covered by {
        crate::board::lemma_unflat(g, i);
        let x = i % g.width;
        let y = i / g.width;
        assert(g2.cells[i] == g2.cell(x, y));
        assert(g.cells[i].kind is Mine);
        assert(g.cells[i].covered);
        if !g2.cell(x, y).covered {
            assert(newly_uncovered(g, ox, oy, x, y));
            if g.cell(ox, oy).kind is Empty {
                lemma_flood_reaches_no_mine(g, ox, oy, x, y);
                assert(false);
            } else {
                assert((x, y) == (ox, oy));
                assert(false);
            }
        }
    }
}

/// From the cell `c` the worklist just yielded, any covered in-range neighbor
/// is itself reachable by the flood.
proof fn flood_if_covered(g: Grid, o: (int, int), c: (int, int), nx: int, ny: int)
    requires
        flooded(g, o.0, o.1, c.0, c.1),
        g.cell(c.0, c.1).kind is Empty,
        g.in_bounds(nx, ny),
        is_neighbor(c.0, c.1, nx, ny),
    ensures
        g.cell(nx, ny).covered ==> flooded(g, o.0, o.1, nx, ny),
{
    if g.cell(nx, ny).covered {
        lemma_flood_extend(g, o.0, o.1, c.0, c.1, nx, ny);
    }
}

} // verus!
