//! The incremental update engine and the rule evaluator.
//!
//! A tick applies a batch of flips: each in-range coordinate has its live
//! flag toggled and the matching count delta pushed to every neighbor the
//! topology resolves.  The central invariant — every cell's `neighbors`
//! field equals the number of live cells among its resolved neighbors — is
//! proved to survive every batch.  The rule evaluator then reads counts and
//! flags alone to schedule the next batch under the birth/survival/death
//! rule.

use vstd::prelude::*;

use crate::grid::{bump_cell, flip_cell, grid_shape, set_cell, Cell, Grid};
use crate::topology::{
    is_neighbor, lemma_is_neighbor_sym, lemma_nbr_coords_props, nbr_coords, neighbors_of,
};

verus! {

/// How many of the listed coordinates hold a live cell in `s`.
pub open spec fn count_alive(s: Seq<Seq<Cell>>, coords: Seq<(usize, usize)>) -> int
    decreases coords.len(),
{
    if coords.len() == 0 {
        0
    } else {
        count_alive(s, coords.drop_last()) + if s[coords.last().0 as int][coords.last().1 as int].is_alive {
            1int
        } else {
            0int
        }
    }
}

/// The number of live cells among the resolved neighbors of `(r, c)`.
pub open spec fn live_neighbor_count(
    s: Seq<Seq<Cell>>,
    r: int,
    c: int,
    h: int,
    w: int,
    wrapping: bool,
) -> int {
    count_alive(s, nbr_coords(r, c, h, w, wrapping))
}

/// The central invariant: every cell's running count agrees with the number
/// of live cells among its topology-resolved neighbors.
pub open spec fn counts_consistent(s: Seq<Seq<Cell>>, h: int, w: int, wrapping: bool) -> bool {
    forall|r: int, c: int|
        0 <= r < h && 0 <= c < w ==> (#[trigger] s[r][c]).neighbors == live_neighbor_count(
            s,
            r,
            c,
            h,
            w,
            wrapping,
        )
}

/// `s` with the counts of all listed coordinates raised (`up`) or lowered by
/// one, in order.
pub open spec fn bump_cells(s: Seq<Seq<Cell>>, coords: Seq<(usize, usize)>, up: bool) -> Seq<
    Seq<Cell>,
>
    decreases coords.len(),
{
    if coords.len() == 0 {
        s
    } else {
        let prev = bump_cells(s, coords.drop_last(), up);
        let q = coords.last();
        set_cell(prev, q.0 as int, q.1 as int, bump_cell(prev[q.0 as int][q.1 as int], up))
    }
}

/// One complete flip application at `(r, c)`: toggle the flag, then push the
/// delta to every resolved neighbor.
pub open spec fn flip_model(
    s: Seq<Seq<Cell>>,
    r: int,
    c: int,
    h: int,
    w: int,
    wrapping: bool,
) -> Seq<Seq<Cell>> {
    let up = !s[r][c].is_alive;
    let t = set_cell(s, r, c, flip_cell(s[r][c]));
    bump_cells(t, nbr_coords(r, c, h, w, wrapping), up)
}

/// A whole batch of flips, applied left to right; out-of-range coordinates
/// are skipped.
pub open spec fn flips_model(
    s: Seq<Seq<Cell>>,
    coords: Seq<(usize, usize)>,
    h: int,
    w: int,
    wrapping: bool,
) -> Seq<Seq<Cell>>
    decreases coords.len(),
{
    if coords.len() == 0 {
        s
    } else {
        let q = coords[0];
        let s1 = if (q.0 as int) < h && (q.1 as int) < w {
            flip_model(s, q.0 as int, q.1 as int, h, w, wrapping)
        } else {
            s
        };
        flips_model(s1, coords.drop_first(), h, w, wrapping)
    }
}

/// A list of dead cells counts to zero.
pub proof fn lemma_count_alive_zero(s: Seq<Seq<Cell>>, coords: Seq<(usize, usize)>)
    requires
        forall|k: int|
            0 <= k < coords.len() ==> !s[(#[trigger] coords[k]).0 as int][coords[k].1 as int].is_alive,
    ensures
        count_alive(s, coords) == 0,
    decreases coords.len(),
{
    if coords.len() > 0 {
        assert forall|k: int| 0 <= k < coords.drop_last().len() implies !s[(#[trigger] coords.drop_last()[k]).0 as int][coords.drop_last()[k].1 as int].is_alive by {
            assert(coords.drop_last()[k] == coords[k]);
        }
        lemma_count_alive_zero(s, coords.drop_last());
        assert(coords[coords.len() - 1] == coords.last());
    }
}

/// A board of dead cells with zero counts satisfies the central invariant
/// under either topology; a freshly built grid starts consistent.
pub proof fn lemma_dead_grid_consistent(s: Seq<Seq<Cell>>, h: int, w: int, wrapping: bool)
    requires
        grid_shape(s, h, w),
        h <= usize::MAX,
        w <= usize::MAX,
        forall|i: int, j: int|
            0 <= i < h && 0 <= j < w ==> !(#[trigger] s[i][j]).is_alive && s[i][j].neighbors == 0,
    ensures
        counts_consistent(s, h, w, wrapping),
{
    assert forall|r: int, c: int| 0 <= r < h && 0 <= c < w implies (#[trigger] s[r][c]).neighbors
        == live_neighbor_count(s, r, c, h, w, wrapping) by {
        let nb = nbr_coords(r, c, h, w, wrapping);
        lemma_nbr_coords_props(r, c, h, w, wrapping);
        assert forall|k: int| 0 <= k < nb.len() implies !s[(#[trigger] nb[k]).0 as int][nb[k].1 as int].is_alive by {
            assert(is_neighbor(r, c, nb[k].0 as int, nb[k].1 as int, h, w, wrapping));
        }
        lemma_count_alive_zero(s, nb);
    }
}

/// A count is never negative and never exceeds the number of coordinates.
pub proof fn lemma_count_alive_bounds(s: Seq<Seq<Cell>>, coords: Seq<(usize, usize)>)
    ensures
        0 <= count_alive(s, coords) <= coords.len(),
    decreases coords.len(),
{
    if coords.len() > 0 {
        lemma_count_alive_bounds(s, coords.drop_last());
    }
}

/// A listed live cell pushes the count to at least one.
pub proof fn lemma_count_alive_pos(s: Seq<Seq<Cell>>, coords: Seq<(usize, usize)>, x: (usize, usize))
    requires
        coords.contains(x),
        s[x.0 as int][x.1 as int].is_alive,
    ensures
        count_alive(s, coords) >= 1,
    decreases coords.len(),
{
    lemma_count_alive_bounds(s, coords.drop_last());
    if coords.last() == x {
    } else {
        let i = choose|i: int| 0 <= i < coords.len() && coords[i] == x;
        assert(i < coords.len() - 1);
        assert(coords.drop_last()[i] == x);
        assert(coords.drop_last().contains(x));
        lemma_count_alive_pos(s, coords.drop_last(), x);
    }
}

/// Counts agree between two boards whose live flags agree on the listed
/// coordinates.
pub proof fn lemma_count_alive_agree(
    s1: Seq<Seq<Cell>>,
    s2: Seq<Seq<Cell>>,
    coords: Seq<(usize, usize)>,
)
    requires
        forall|k: int|
            0 <= k < coords.len() ==> s1[(#[trigger] coords[k]).0 as int][coords[k].1 as int].is_alive
                == s2[coords[k].0 as int][coords[k].1 as int].is_alive,
    ensures
        count_alive(s1, coords) == count_alive(s2, coords),
    decreases coords.len(),
{
    if coords.len() > 0 {
        assert forall|k: int| 0 <= k < coords.drop_last().len() implies s1[(#[trigger] coords.drop_last()[k]).0 as int][coords.drop_last()[k].1 as int].is_alive
            == s2[coords.drop_last()[k].0 as int][coords.drop_last()[k].1 as int].is_alive by {
            assert(coords.drop_last()[k] == coords[k]);
        }
        lemma_count_alive_agree(s1, s2, coords.drop_last());
        assert(coords[coords.len() - 1] == coords.last());
    }
}

/// Toggling exactly one listed cell moves the count by exactly one, up when
/// it came alive and down when it died.
pub proof fn lemma_count_alive_toggle(
    s1: Seq<Seq<Cell>>,
    s2: Seq<Seq<Cell>>,
    coords: Seq<(usize, usize)>,
    x: (usize, usize),
)
    requires
        coords.no_duplicates(),
        coords.contains(x),
        forall|k: int|
            0 <= k < coords.len() && #[trigger] coords[k] != x ==> s1[coords[k].0 as int][coords[k].1 as int].is_alive
                == s2[coords[k].0 as int][coords[k].1 as int].is_alive,
        s2[x.0 as int][x.1 as int].is_alive == !s1[x.0 as int][x.1 as int].is_alive,
    ensures
        count_alive(s2, coords) == count_alive(s1, coords) + if s2[x.0 as int][x.1 as int].is_alive {
            1int
        } else {
            -1int
        },
    decreases coords.len(),
{
    let prev = coords.drop_last();
    assert(coords[coords.len() - 1] == coords.last());
    if coords.last() == x {
        assert forall|k: int| 0 <= k < prev.len() implies s1[(#[trigger] prev[k]).0 as int][prev[k].1 as int].is_alive
            == s2[prev[k].0 as int][prev[k].1 as int].is_alive by {
            assert(prev[k] == coords[k]);
            assert(coords[k] != x);
        }
        lemma_count_alive_agree(s1, s2, prev);
    } else {
        let i = choose|i: int| 0 <= i < coords.len() && coords[i] == x;
        assert(i < coords.len() - 1);
        assert(prev[i] == x);
        assert(prev.contains(x));
        assert forall|k: int| 0 <= k < prev.len() && #[trigger] prev[k] != x implies s1[prev[k].0 as int][prev[k].1 as int].is_alive
            == s2[prev[k].0 as int][prev[k].1 as int].is_alive by {
            assert(prev[k] == coords[k]);
        }
        lemma_count_alive_toggle(s1, s2, prev, x);
    }
}

/// What a batch of bumps does, cell by cell: listed coordinates have their
/// count moved by one, everything else is untouched, and no live flag or
/// position changes anywhere.
pub proof fn lemma_bump_cells_props(
    s: Seq<Seq<Cell>>,
    coords: Seq<(usize, usize)>,
    up: bool,
    h: int,
    w: int,
)
    requires
        grid_shape(s, h, w),
        coords.no_duplicates(),
        forall|k: int|
            0 <= k < coords.len() ==> (#[trigger] coords[k]).0 < h && (coords[k].1 as int) < w,
    ensures
        grid_shape(bump_cells(s, coords, up), h, w),
        forall|i: int, j: int|
            0 <= i < h && 0 <= j < w && coords.contains((i as usize, j as usize))
                ==> #[trigger] bump_cells(s, coords, up)[i][j] == bump_cell(s[i][j], up),
        forall|i: int, j: int|
            0 <= i < h && 0 <= j < w && !coords.contains((i as usize, j as usize))
                ==> #[trigger] bump_cells(s, coords, up)[i][j] == s[i][j],
    decreases coords.len(),
{
    if coords.len() > 0 {
        let prev = coords.drop_last();
        let q = coords.last();
        assert(coords[coords.len() - 1] == q);
        assert forall|k: int| 0 <= k < prev.len() implies (#[trigger] prev[k]).0 < h && (
        prev[k].1 as int) < w by {
            assert(prev[k] == coords[k]);
        }
        lemma_bump_cells_props(s, prev, up, h, w);
        let bprev = bump_cells(s, prev, up);
        let bc = bump_cells(s, coords, up);
        assert(!prev.contains(q));
        assert(bprev[q.0 as int][q.1 as int] == s[q.0 as int][q.1 as int]);
        assert(bc == set_cell(bprev, q.0 as int, q.1 as int, bump_cell(s[q.0 as int][q.1 as int], up)));
        assert forall|i: int, j: int|
            0 <= i < h && 0 <= j < w && coords.contains((i as usize, j as usize)) implies
            #[trigger] bc[i][j] == bump_cell(s[i][j], up) by {
            let k = choose|k: int|
                0 <= k < coords.len() && coords[k] == (i as usize, j as usize);
            if coords[k] == q {
                assert(bc[i][j] == bump_cell(s[i][j], up));
            } else {
                assert(k < coords.len() - 1);
                assert(prev[k] == (i as usize, j as usize));
                assert(prev.contains((i as usize, j as usize)));
                assert(!(i == q.0 as int && j == q.1 as int));
                assert(bc[i][j] == bprev[i][j]);
            }
        }
        assert forall|i: int, j: int|
            0 <= i < h && 0 <= j < w && !coords.contains((i as usize, j as usize)) implies
            #[trigger] bc[i][j] == s[i][j] by {
            assert(!(i == q.0 as int && j == q.1 as int));
            if prev.contains((i as usize, j as usize)) {
                let k = choose|k: int| 0 <= k < prev.len() && prev[k] == (i as usize, j as usize);
                assert(coords[k] == (i as usize, j as usize));
            }
            assert(bc[i][j] == bprev[i][j]);
        }
    }
}

/// One complete flip application keeps the board shape and restores the
/// central invariant.
pub proof fn lemma_flip_preserves(s: Seq<Seq<Cell>>, r: int, c: int, h: int, w: int, wrapping: bool)
    requires
        grid_shape(s, h, w),
        counts_consistent(s, h, w, wrapping),
        0 <= r < h <= usize::MAX,
        0 <= c < w <= usize::MAX,
    ensures
        grid_shape(flip_model(s, r, c, h, w, wrapping), h, w),
        counts_consistent(flip_model(s, r, c, h, w, wrapping), h, w, wrapping),
        forall|i: int, j: int|
            0 <= i < h && 0 <= j < w ==> (#[trigger] flip_model(s, r, c, h, w, wrapping)[i][j]).is_alive
                == (if i == r && j == c {
                !s[r][c].is_alive
            } else {
                s[i][j].is_alive
            }),
{
    let up = !s[r][c].is_alive;
    let t = set_cell(s, r, c, flip_cell(s[r][c]));
    let nb = nbr_coords(r, c, h, w, wrapping);
    let sp = flip_model(s, r, c, h, w, wrapping);
    lemma_nbr_coords_props(r, c, h, w, wrapping);
    assert(grid_shape(t, h, w));
    assert(!nb.contains((r as usize, c as usize))) by {
        if nb.contains((r as usize, c as usize)) {
            let k = choose|k: int| 0 <= k < nb.len() && nb[k] == (r as usize, c as usize);
            assert(is_neighbor(r, c, nb[k].0 as int, nb[k].1 as int, h, w, wrapping));
        }
    }
    lemma_bump_cells_props(t, nb, up, h, w);
    // Live flags after the flip: only the center toggled.
    assert forall|i: int, j: int| 0 <= i < h && 0 <= j < w implies (#[trigger] sp[i][j]).is_alive
        == (if i == r && j == c {
        !s[r][c].is_alive
    } else {
        s[i][j].is_alive
    }) by {
        if nb.contains((i as usize, j as usize)) {
            assert(sp[i][j] == bump_cell(t[i][j], up));
        } else {
            assert(sp[i][j] == t[i][j]);
        }
    }
    // Counts after the flip.
    assert forall|i: int, j: int| 0 <= i < h && 0 <= j < w implies (#[trigger] sp[i][j]).neighbors
        == live_neighbor_count(sp, i, j, h, w, wrapping) by {
        let own = nbr_coords(i, j, h, w, wrapping);
        lemma_nbr_coords_props(i, j, h, w, wrapping);
        lemma_is_neighbor_sym(r, c, i, j, h, w, wrapping);
        lemma_is_neighbor_sym(i, j, r, c, h, w, wrapping);
        lemma_count_alive_bounds(s, own);
        // Live flags agree between s and sp away from the center.
        assert forall|k: int| 0 <= k < own.len() && #[trigger] own[k] != (r as usize, c as usize)
            implies s[own[k].0 as int][own[k].1 as int].is_alive
            == sp[own[k].0 as int][own[k].1 as int].is_alive by {
            assert(is_neighbor(i, j, own[k].0 as int, own[k].1 as int, h, w, wrapping));
        }
        if own.contains((r as usize, c as usize)) {
            // The flipped cell is one of (i, j)'s neighbors: its count moves
            // with the toggle, and so does its `neighbors` field.
            let k = choose|k: int| 0 <= k < own.len() && own[k] == (r as usize, c as usize);
            assert(is_neighbor(i, j, r, c, h, w, wrapping));
            assert(is_neighbor(r, c, i, j, h, w, wrapping));
            assert(nb.contains((i as usize, j as usize)));
            lemma_count_alive_toggle(s, sp, own, (r as usize, c as usize));
            assert(sp[i][j] == bump_cell(t[i][j], up));
            assert(!(i == r && j == c));
            assert(t[i][j] == s[i][j]);
            if up {
                lemma_consistent_count_le_8(s, i, j, h, w, wrapping);
                assert(s[i][j].neighbors < 255);
            } else {
                lemma_count_alive_pos(s, own, (r as usize, c as usize));
                assert(s[i][j].neighbors > 0);
            }
        } else {
            // The flipped cell is not a neighbor of (i, j): neither the count
            // nor the field moves.
            assert forall|k: int| 0 <= k < own.len() implies s[(#[trigger] own[k]).0 as int][own[k].1 as int].is_alive
                == sp[own[k].0 as int][own[k].1 as int].is_alive by {
                assert(own[k] != (r as usize, c as usize));
            }
            lemma_count_alive_agree(s, sp, own);
            if i == r && j == c {
                assert(sp[i][j] == t[i][j]);
                assert(sp[i][j].neighbors == s[i][j].neighbors);
            } else {
                if is_neighbor(r, c, i, j, h, w, wrapping) {
                    assert(is_neighbor(i, j, r, c, h, w, wrapping));
                    assert(own.contains((r as usize, c as usize)));
                }
                assert(!nb.contains((i as usize, j as usize))) by {
                    if nb.contains((i as usize, j as usize)) {
                        let k = choose|k: int|
                            0 <= k < nb.len() && nb[k] == (i as usize, j as usize);
                        assert(is_neighbor(r, c, nb[k].0 as int, nb[k].1 as int, h, w, wrapping));
                    }
                }
                assert(sp[i][j] == t[i][j]);
                assert(sp[i][j] == s[i][j]);
            }
        }
    }
}

/// A consistent count stays below the u8 ceiling: a cell has at most 8
/// resolved neighbors.
proof fn lemma_consistent_count_le_8(s: Seq<Seq<Cell>>, i: int, j: int, h: int, w: int, wrapping: bool)
    requires
        counts_consistent(s, h, w, wrapping),
        0 <= i < h <= usize::MAX,
        0 <= j < w <= usize::MAX,
    ensures
        s[i][j].neighbors <= 8,
{
    lemma_nbr_coords_props(i, j, h, w, wrapping);
    lemma_count_alive_bounds(s, nbr_coords(i, j, h, w, wrapping));
}

/// A batch can be peeled from the right: applying all but the last flip and
/// then the last one lands on the same board.
pub proof fn lemma_flips_model_snoc(
    s: Seq<Seq<Cell>>,
    coords: Seq<(usize, usize)>,
    h: int,
    w: int,
    wrapping: bool,
)
    requires
        coords.len() > 0,
    ensures
        flips_model(s, coords, h, w, wrapping) == ({
            let s1 = flips_model(s, coords.drop_last(), h, w, wrapping);
            let q = coords.last();
            if (q.0 as int) < h && (q.1 as int) < w {
                flip_model(s1, q.0 as int, q.1 as int, h, w, wrapping)
            } else {
                s1
            }
        }),
    decreases coords.len(),
{
    let q0 = coords[0];
    let s1 = if (q0.0 as int) < h && (q0.1 as int) < w {
        flip_model(s, q0.0 as int, q0.1 as int, h, w, wrapping)
    } else {
        s
    };
    assert(flips_model(s, coords, h, w, wrapping) == flips_model(
        s1,
        coords.drop_first(),
        h,
        w,
        wrapping,
    ));
    if coords.len() == 1 {
        assert(coords.drop_last() =~= Seq::<(usize, usize)>::empty());
        assert(coords.drop_first() =~= Seq::<(usize, usize)>::empty());
        assert(flips_model(s, coords.drop_last(), h, w, wrapping) == s);
        assert(flips_model(s1, coords.drop_first(), h, w, wrapping) == s1);
        assert(coords.last() == coords[0]);
    } else {
        lemma_flips_model_snoc(s1, coords.drop_first(), h, w, wrapping);
        assert(coords.drop_first().drop_last() =~= coords.drop_last().drop_first());
        assert(coords.drop_first().last() == coords.last());
        assert(coords.drop_last()[0] == coords[0]);
        assert(coords.drop_last().len() > 0);
        assert(flips_model(s, coords.drop_last(), h, w, wrapping) == flips_model(
            s1,
            coords.drop_last().drop_first(),
            h,
            w,
            wrapping,
        ));
    }
}

/// The central invariant survives a whole batch of flips: after every
/// completed tick, every count again equals the number of live cells among
/// that cell's resolved neighbors.
pub proof fn lemma_flips_preserve_invariant(
    s: Seq<Seq<Cell>>,
    coords: Seq<(usize, usize)>,
    h: int,
    w: int,
    wrapping: bool,
)
    requires
        grid_shape(s, h, w),
        counts_consistent(s, h, w, wrapping),
        h <= usize::MAX,
        w <= usize::MAX,
    ensures
        grid_shape(flips_model(s, coords, h, w, wrapping), h, w),
        counts_consistent(flips_model(s, coords, h, w, wrapping), h, w, wrapping),
    decreases coords.len(),
{
    if coords.len() > 0 {
        let q = coords[0];
        let s1 = if (q.0 as int) < h && (q.1 as int) < w {
            flip_model(s, q.0 as int, q.1 as int, h, w, wrapping)
        } else {
            s
        };
        if (q.0 as int) < h && (q.1 as int) < w {
            lemma_flip_preserves(s, q.0 as int, q.1 as int, h, w, wrapping);
        }
        lemma_flips_preserve_invariant(s1, coords.drop_first(), h, w, wrapping);
    }
}

/// A flip addressed outside the board is absorbed: no in-grid cell moves.
pub proof fn lemma_oob_flip_noop(
    s: Seq<Seq<Cell>>,
    q: (usize, usize),
    h: int,
    w: int,
    wrapping: bool,
)
    requires
        (q.0 as int) >= h || (q.1 as int) >= w,
    ensures
        flips_model(s, seq![q], h, w, wrapping) == s,
{
    let single = seq![q];
    assert(single.drop_first() =~= Seq::<(usize, usize)>::empty());
    assert(single[0] == q);
    assert(flips_model(s, single.drop_first(), h, w, wrapping) == s);
    assert(flips_model(s, single, h, w, wrapping) == flips_model(
        s,
        single.drop_first(),
        h,
        w,
        wrapping,
    ));
}

/// Apply one in-range flip to the board: toggle the flag, then push the
/// count delta to every resolved neighbor.
#[verifier::rlimit(100)]
fn apply_one_flip(grid: &mut Grid, row: usize, col: usize, should_wrap: bool)
    requires
        old(grid).wf(),
        counts_consistent(
            old(grid)@,
            old(grid).height as int,
            old(grid).width as int,
            should_wrap,
        ),
        row < old(grid).height,
        col < old(grid).width,
    ensures
        final(grid).wf(),
        final(grid).height == old(grid).height,
        final(grid).width == old(grid).width,
        final(grid)@ == flip_model(
            old(grid)@,
            row as int,
            col as int,
            old(grid).height as int,
            old(grid).width as int,
            should_wrap,
        ),
        counts_consistent(
            final(grid)@,
            old(grid).height as int,
            old(grid).width as int,
            should_wrap,
        ),
{
    let ghost s0 = old(grid)@;
    let ghost h = old(grid).height as int;
    let ghost w = old(grid).width as int;
    let ghost t = set_cell(s0, row as int, col as int, flip_cell(s0[row as int][col as int]));
    let ghost nb = nbr_coords(row as int, col as int, h, w, should_wrap);
    proof {
        lemma_nbr_coords_props(row as int, col as int, h, w, should_wrap);
        lemma_flip_preserves(s0, row as int, col as int, h, w, should_wrap);
    }
    let status_opt = grid.toggle(row, col);
    let up = match status_opt {
        Some(b) => b,
        None => false,
    };
    let nbrs = neighbors_of(row, col, grid.height, grid.width, should_wrap);
    let mut j: usize = 0;
    while j < nbrs.len()
        invariant
            grid.wf(),
            grid.height as int == h,
            grid.width as int == w,
            grid_shape(s0, h, w),
            counts_consistent(s0, h, w, should_wrap),
            row < grid.height,
            col < grid.width,
            up == !s0[row as int][col as int].is_alive,
            t == set_cell(s0, row as int, col as int, flip_cell(s0[row as int][col as int])),
            nb == nbr_coords(row as int, col as int, h, w, should_wrap),
            nbrs@ == nb,
            j <= nbrs.len(),
            grid@ == bump_cells(t, nb.take(j as int), up),
        decreases nbrs.len() - j,
    {
        let p = nbrs[j];
        proof {
            lemma_nbr_coords_props(row as int, col as int, h, w, should_wrap);
            assert(is_neighbor(row as int, col as int, p.0 as int, p.1 as int, h, w, should_wrap));
            let taken = nb.take(j as int);
            assert(taken.no_duplicates());
            assert forall|k: int| 0 <= k < taken.len() implies (#[trigger] taken[k]).0 < h && (
            taken[k].1 as int) < w by {
                assert(taken[k] == nb[k]);
                assert(is_neighbor(
                    row as int,
                    col as int,
                    nb[k].0 as int,
                    nb[k].1 as int,
                    h,
                    w,
                    should_wrap,
                ));
            }
            assert(grid_shape(t, h, w));
            lemma_bump_cells_props(t, taken, up, h, w);
            assert(!taken.contains(p)) by {
                if taken.contains(p) {
                    let k = choose|k: int| 0 <= k < taken.len() && taken[k] == p;
                    assert(nb[k] == nb[j as int]);
                }
            }
            assert(grid@[p.0 as int][p.1 as int] == t[p.0 as int][p.1 as int]);
            assert(t[p.0 as int][p.1 as int] == s0[p.0 as int][p.1 as int]);
            if up {
                lemma_consistent_count_le_8(s0, p.0 as int, p.1 as int, h, w, should_wrap);
            } else {
                lemma_is_neighbor_sym(row as int, col as int, p.0 as int, p.1 as int, h, w, should_wrap);
                lemma_nbr_coords_props(p.0 as int, p.1 as int, h, w, should_wrap);
                let own = nbr_coords(p.0 as int, p.1 as int, h, w, should_wrap);
                assert(own.contains((row, col)));
                lemma_count_alive_pos(s0, own, (row, col));
            }
        }
        grid.bump(p.0, p.1, up);
        proof {
            assert(nb.take(j + 1).drop_last() =~= nb.take(j as int));
            assert(nb.take(j + 1).last() == nb[j as int]);
        }
        j += 1;
    }
    proof {
        assert(nb.take(nbrs@.len() as int) =~= nb);
    }
}

/// Apply a whole batch of flips, left to right; out-of-range coordinates are
/// skipped, never an error.
#[verifier::rlimit(60)]
pub fn update_at_indexes(grid: &mut Grid, indexes: &Vec<(usize, usize)>, should_wrap: bool)
    requires
        old(grid).wf(),
        counts_consistent(
            old(grid)@,
            old(grid).height as int,
            old(grid).width as int,
            should_wrap,
        ),
    ensures
        final(grid).wf(),
        final(grid).height == old(grid).height,
        final(grid).width == old(grid).width,
        final(grid)@ == flips_model(
            old(grid)@,
            indexes@,
            old(grid).height as int,
            old(grid).width as int,
            should_wrap,
        ),
        counts_consistent(
            final(grid)@,
            old(grid).height as int,
            old(grid).width as int,
            should_wrap,
        ),
{
    let ghost s0 = old(grid)@;
    let ghost h = old(grid).height as int;
    let ghost w = old(grid).width as int;
    let mut k: usize = 0;
    while k < indexes.len()
        invariant
            grid.wf(),
            grid.height as int == h,
            grid.width as int == w,
            grid_shape(s0, h, w),
            counts_consistent(s0, h, w, should_wrap),
            counts_consistent(grid@, h, w, should_wrap),
            k <= indexes.len(),
            grid@ == flips_model(s0, indexes@.take(k as int), h, w, should_wrap),
        decreases indexes.len() - k,
    {
        let q = indexes[k];
        proof {
            lemma_flips_model_snoc(s0, indexes@.take(k + 1), h, w, should_wrap);
            assert(indexes@.take(k + 1).drop_last() =~= indexes@.take(k as int));
            assert(indexes@.take(k + 1).last() == indexes@[k as int]);
        }
        if q.0 < grid.height && q.1 < grid.width {
            apply_one_flip(grid, q.0, q.1, should_wrap);
        }
        k += 1;
    }
    proof {
        assert(indexes@.take(indexes.len() as int) =~= indexes@);
    }
}

/// The birth/survival/death rule: a live cell with fewer than 2 or more
/// than 3 live neighbors must flip (death), a dead cell with exactly 3 must
/// flip (birth).
pub open spec fn must_flip(cell: Cell) -> bool {
    if cell.is_alive {
        cell.neighbors < 2 || cell.neighbors > 3
    } else {
        cell.neighbors == 3
    }
}

/// The scheduled flips of one row, over its first `w` columns, in column
/// order.
pub open spec fn updates_row(row_cells: Seq<Cell>, r: usize, w: int) -> Seq<(usize, usize)>
    decreases w,
{
    if w <= 0 {
        Seq::empty()
    } else {
        updates_row(row_cells, r, w - 1) + if must_flip(row_cells[w - 1]) {
            seq![(r, (w - 1) as usize)]
        } else {
            Seq::empty()
        }
    }
}

/// The scheduled flips of the whole board, in row-major order.
pub open spec fn updates_model(s: Seq<Seq<Cell>>, h: int, w: int) -> Seq<(usize, usize)>
    decreases h,
{
    if h <= 0 {
        Seq::empty()
    } else {
        updates_model(s, h - 1, w) + updates_row(s[h - 1], (h - 1) as usize, w)
    }
}

/// Scan counts and flags and schedule every cell that must flip, in
/// row-major order; the board is not touched.
pub fn get_updates(grid: &Grid) -> (r: Vec<(usize, usize)>)
    requires
        grid.wf(),
    ensures
        r@ == updates_model(grid@, grid.height as int, grid.width as int),
{
    let ghost w = grid.width as int;
    let mut res: Vec<(usize, usize)> = Vec::new();
    let mut i: usize = 0;
    while i < grid.height
        invariant
            grid.wf(),
            w == grid.width as int,
            i <= grid.height,
            res@ == updates_model(grid@, i as int, w),
        decreases grid.height - i,
    {
        let mut j: usize = 0;
        while j < grid.width
            invariant
                grid.wf(),
                w == grid.width as int,
                i < grid.height,
                j <= grid.width,
                res@ == updates_model(grid@, i as int, w) + updates_row(
                    grid@[i as int],
                    i,
                    j as int,
                ),
            decreases grid.width - j,
        {
            proof {
                assert(grid@[i as int] == grid.cells@[i as int]@);
            }
            let cell = &grid.cells[i][j];
            let ghost before = res@;
            let flip = if cell.is_alive {
                cell.neighbors < 2 || cell.neighbors > 3
            } else {
                cell.neighbors == 3
            };
            if flip {
                res.push((cell.ypos, cell.xpos));
            }
            proof {
                assert(cell.ypos == i && cell.xpos == j);
                let a = updates_model(grid@, i as int, w);
                let b = updates_row(grid@[i as int], i, j as int);
                if flip {
                    assert((a + b).push((i, j)) =~= a + (b + seq![(i, j)]));
                } else {
                    assert(b + Seq::<(usize, usize)>::empty() =~= b);
                }
            }
            j += 1;
        }
        proof {
            assert(res@ == updates_model(grid@, i + 1, w));
        }
        i += 1;
    }
    res
}

/// One whole tick: apply the pending flips, then schedule the next batch
/// from the updated board.
pub fn tick(grid: &mut Grid, flips: &Vec<(usize, usize)>, should_wrap: bool) -> (next: Vec<
    (usize, usize),
>)
    requires
        old(grid).wf(),
        counts_consistent(
            old(grid)@,
            old(grid).height as int,
            old(grid).width as int,
            should_wrap,
        ),
    ensures
        final(grid).wf(),
        final(grid).height == old(grid).height,
        final(grid).width == old(grid).width,
        final(grid)@ == flips_model(
            old(grid)@,
            flips@,
            old(grid).height as int,
            old(grid).width as int,
            should_wrap,
        ),
        counts_consistent(
            final(grid)@,
            old(grid).height as int,
            old(grid).width as int,
            should_wrap,
        ),
        next@ == updates_model(final(grid)@, old(grid).height as int, old(grid).width as int),
{
    update_at_indexes(grid, flips, should_wrap);
    get_updates(grid)
}

/// The run stops on the quit key `q` or on the escape key.
pub fn should_stop(key: i32) -> (r: bool)
    ensures
        r == (key == 113 || key == 27),
{
    key == 'q' as i32 || key == 27
}

/// No cell of the board meets a flip condition.
pub open spec fn stable(s: Seq<Seq<Cell>>, h: int, w: int) -> bool {
    forall|r: int, c: int| 0 <= r < h && 0 <= c < w ==> !must_flip(#[trigger] s[r][c])
}

/// A row schedules nothing exactly when none of its cells must flip.
proof fn lemma_updates_row_empty(row_cells: Seq<Cell>, r: usize, w: int)
    ensures
        (updates_row(row_cells, r, w) == Seq::<(usize, usize)>::empty()) <==> (forall|j: int|
            0 <= j < w ==> !must_flip(#[trigger] row_cells[j])),
    decreases w,
{
    if w > 0 {
        lemma_updates_row_empty(row_cells, r, w - 1);
        let a = updates_row(row_cells, r, w - 1);
        let b = if must_flip(row_cells[w - 1]) {
            seq![(r, (w - 1) as usize)]
        } else {
            Seq::<(usize, usize)>::empty()
        };
        assert(updates_row(row_cells, r, w) == a + b);
        if (a + b).len() == 0 {
            assert(a =~= Seq::<(usize, usize)>::empty());
        }
        if a == Seq::<(usize, usize)>::empty() && !must_flip(row_cells[w - 1]) {
            assert(a + b =~= Seq::<(usize, usize)>::empty());
        }
    }
}

/// The board schedules nothing exactly when no cell must flip.
pub proof fn lemma_updates_model_empty(s: Seq<Seq<Cell>>, h: int, w: int)
    ensures
        (updates_model(s, h, w) == Seq::<(usize, usize)>::empty()) <==> (forall|r: int, c: int|
            0 <= r < h && 0 <= c < w ==> !must_flip(#[trigger] s[r][c])),
    decreases h,
{
    if h > 0 {
        lemma_updates_model_empty(s, h - 1, w);
        lemma_updates_row_empty(s[h - 1], (h - 1) as usize, w);
        let a = updates_model(s, h - 1, w);
        let b = updates_row(s[h - 1], (h - 1) as usize, w);
        assert(updates_model(s, h, w) == a + b);
        if (a + b).len() == 0 {
            assert(a =~= Seq::<(usize, usize)>::empty());
            assert(b =~= Seq::<(usize, usize)>::empty());
        }
        if a == Seq::<(usize, usize)>::empty() && b == Seq::<(usize, usize)>::empty() {
            assert(a + b =~= Seq::<(usize, usize)>::empty());
        }
    }
}

/// One whole tick at the model level: apply every scheduled flip.
pub open spec fn tick_model(s: Seq<Seq<Cell>>, h: int, w: int, wrapping: bool) -> Seq<Seq<Cell>> {
    flips_model(s, updates_model(s, h, w), h, w, wrapping)
}

/// `n` whole ticks at the model level.
pub open spec fn ticks_model(s: Seq<Seq<Cell>>, n: nat, h: int, w: int, wrapping: bool) -> Seq<
    Seq<Cell>,
>
    decreases n,
{
    if n == 0 {
        s
    } else {
        tick_model(ticks_model(s, (n - 1) as nat, h, w, wrapping), h, w, wrapping)
    }
}

/// A configuration with no cell meeting a flip condition schedules an empty
/// flip set and stays unchanged, tick after tick, forever.
pub proof fn lemma_stable_forever(s: Seq<Seq<Cell>>, n: nat, h: int, w: int, wrapping: bool)
    requires
        stable(s, h, w),
    ensures
        updates_model(s, h, w) == Seq::<(usize, usize)>::empty(),
        ticks_model(s, n, h, w, wrapping) == s,
    decreases n,
{
    lemma_updates_model_empty(s, h, w);
    assert(tick_model(s, h, w, wrapping) == s);
    if n > 0 {
        lemma_stable_forever(s, (n - 1) as nat, h, w, wrapping);
    }
}

} // verus!
