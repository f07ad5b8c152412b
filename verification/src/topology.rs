//! Topology resolver: which coordinates count as neighbors of a cell.
//!
//! A dimension of size `n` yields a band of up to three distinct indices
//! around a position: the position itself plus the two adjacent ones, either
//! clipped at the edges (bounded grid) or wrapped modulo the dimension
//! (toroidal grid).  The neighbors of a cell are the cross product of its row
//! band and column band, minus the cell itself.  Bands are de-duplicated, so
//! even degenerate wrapping grids (height or width at most 2) never list the
//! same neighbor twice.

use vstd::prelude::*;

verus! {

/// Predecessor of `a` in a wrapped dimension of size `n`.
pub open spec fn wrap_dec(a: int, n: int) -> int {
    if a == 0 {
        n - 1
    } else {
        a - 1
    }
}

/// Successor of `a` in a wrapped dimension of size `n`.
pub open spec fn wrap_inc(a: int, n: int) -> int {
    if a == n - 1 {
        0
    } else {
        a + 1
    }
}

/// `b` lies in the three-wide band around `a` in a dimension of size `n`.
pub open spec fn band_adj(a: int, b: int, n: int, wrapping: bool) -> bool {
    if wrapping {
        b == a || b == wrap_dec(a, n) || b == wrap_inc(a, n)
    } else {
        a - 1 <= b <= a + 1
    }
}

/// The band around `a`, as a sequence of distinct in-range indices.
pub open spec fn band_seq(a: int, n: int, wrapping: bool) -> Seq<usize> {
    if wrapping {
        let d = wrap_dec(a, n);
        let u = wrap_inc(a, n);
        seq![a as usize] + (if d != a {
            seq![d as usize]
        } else {
            Seq::<usize>::empty()
        }) + (if u != a && u != d {
            seq![u as usize]
        } else {
            Seq::<usize>::empty()
        })
    } else {
        (if a > 0 {
            seq![(a - 1) as usize]
        } else {
            Seq::<usize>::empty()
        }) + seq![a as usize] + (if a + 1 < n {
            seq![(a + 1) as usize]
        } else {
            Seq::<usize>::empty()
        })
    }
}

/// `(nr, nc)` is a neighbor of `(r, c)` on an `h` x `w` grid under the given
/// topology: in range, distinct from the center, and within both bands.
pub open spec fn is_neighbor(
    r: int,
    c: int,
    nr: int,
    nc: int,
    h: int,
    w: int,
    wrapping: bool,
) -> bool {
    &&& 0 <= nr < h
    &&& 0 <= nc < w
    &&& !(nr == r && nc == c)
    &&& band_adj(r, nr, h, wrapping)
    &&& band_adj(c, nc, w, wrapping)
}

/// One row's worth of neighbor coordinates: `rr` crossed with every column of
/// `cols`, skipping the center `(r, c)`.
pub open spec fn pairs_row(rr: usize, cols: Seq<usize>, r: usize, c: usize) -> Seq<(usize, usize)>
    decreases cols.len(),
{
    if cols.len() == 0 {
        Seq::empty()
    } else {
        let rest = pairs_row(rr, cols.drop_last(), r, c);
        if rr == r && cols.last() == c {
            rest
        } else {
            rest.push((rr, cols.last()))
        }
    }
}

/// The cross product of `rows` and `cols`, minus the center `(r, c)`.
pub open spec fn nbr_seq(
    rows: Seq<usize>,
    cols: Seq<usize>,
    r: usize,
    c: usize,
) -> Seq<(usize, usize)>
    decreases rows.len(),
{
    if rows.len() == 0 {
        Seq::empty()
    } else {
        nbr_seq(rows.drop_last(), cols, r, c) + pairs_row(rows.last(), cols, r, c)
    }
}

/// The canonical neighbor enumeration of `(r, c)` on an `h` x `w` grid.
pub open spec fn nbr_coords(r: int, c: int, h: int, w: int, wrapping: bool) -> Seq<(usize, usize)> {
    nbr_seq(band_seq(r, h, wrapping), band_seq(c, w, wrapping), r as usize, c as usize)
}

/// Band adjacency is symmetric within the dimension.
pub proof fn lemma_band_adj_sym(a: int, b: int, n: int, wrapping: bool)
    requires
        0 <= a < n,
        0 <= b < n,
    ensures
        band_adj(a, b, n, wrapping) == band_adj(b, a, n, wrapping),
{
}

/// Neighborhood is symmetric: if `(nr, nc)` is a neighbor of `(r, c)`, then
/// `(r, c)` is a neighbor of `(nr, nc)`.
pub proof fn lemma_is_neighbor_sym(r: int, c: int, nr: int, nc: int, h: int, w: int, wrapping: bool)
    requires
        0 <= r < h,
        0 <= c < w,
    ensures
        is_neighbor(r, c, nr, nc, h, w, wrapping) ==> is_neighbor(nr, nc, r, c, h, w, wrapping),
        0 <= nr < h && 0 <= nc < w && is_neighbor(nr, nc, r, c, h, w, wrapping) ==> is_neighbor(
            r,
            c,
            nr,
            nc,
            h,
            w,
            wrapping,
        ),
{
    if 0 <= nr < h && 0 <= nc < w {
        lemma_band_adj_sym(r, nr, h, wrapping);
        lemma_band_adj_sym(c, nc, w, wrapping);
    }
}

/// The band around `a` holds exactly the in-range indices band-adjacent to
/// `a`, each once, and `a` itself stands at index 0 or 1.
pub proof fn lemma_band_props(a: int, n: int, wrapping: bool)
    requires
        0 <= a < n <= usize::MAX,
    ensures
        1 <= band_seq(a, n, wrapping).len() <= 3,
        band_seq(a, n, wrapping).no_duplicates(),
        forall|k: int|
            0 <= k < band_seq(a, n, wrapping).len() ==> (#[trigger] band_seq(a, n, wrapping)[k])
                < n && band_adj(a, band_seq(a, n, wrapping)[k] as int, n, wrapping),
        forall|x: int|
            0 <= x < n && #[trigger] band_adj(a, x, n, wrapping) ==> band_seq(
                a,
                n,
                wrapping,
            ).contains(x as usize),
        band_seq(a, n, wrapping).contains(a as usize),
{
    let b = band_seq(a, n, wrapping);
    if wrapping {
        let d = wrap_dec(a, n);
        let u = wrap_inc(a, n);
        if d == a {
            assert(b =~= seq![a as usize]);
            assert(b[0] == a as usize);
        } else if u == a || u == d {
            assert(b =~= seq![a as usize, d as usize]);
            assert(b[0] == a as usize);
            assert(b[1] == d as usize);
        } else {
            assert(b =~= seq![a as usize, d as usize, u as usize]);
            assert(b[0] == a as usize);
            assert(b[1] == d as usize);
            assert(b[2] == u as usize);
        }
    } else {
        if a == 0 && a + 1 >= n {
            assert(b =~= seq![a as usize]);
            assert(b[0] == a as usize);
        } else if a == 0 {
            assert(b =~= seq![a as usize, (a + 1) as usize]);
            assert(b[0] == a as usize);
            assert(b[1] == (a + 1) as usize);
        } else if a + 1 >= n {
            assert(b =~= seq![(a - 1) as usize, a as usize]);
            assert(b[0] == (a - 1) as usize);
            assert(b[1] == a as usize);
        } else {
            assert(b =~= seq![(a - 1) as usize, a as usize, (a + 1) as usize]);
            assert(b[0] == (a - 1) as usize);
            assert(b[1] == a as usize);
            assert(b[2] == (a + 1) as usize);
        }
    }
}

/// Membership, distinctness and length of one cross-product row.
pub proof fn lemma_pairs_row_props(rr: usize, cols: Seq<usize>, r: usize, c: usize)
    ensures
        forall|k: int|
            0 <= k < pairs_row(rr, cols, r, c).len() ==> (#[trigger] pairs_row(rr, cols, r, c)[k]).0
                == rr && cols.contains(pairs_row(rr, cols, r, c)[k].1) && pairs_row(
                rr,
                cols,
                r,
                c,
            )[k] != (r, c),
        forall|y: usize|
            #[trigger] cols.contains(y) && !(rr == r && y == c) ==> pairs_row(
                rr,
                cols,
                r,
                c,
            ).contains((rr, y)),
        cols.no_duplicates() ==> pairs_row(rr, cols, r, c).no_duplicates(),
        pairs_row(rr, cols, r, c).len() <= cols.len(),
    decreases cols.len(),
{
    let pr = pairs_row(rr, cols, r, c);
    if cols.len() == 0 {
    } else {
        let prev = cols.drop_last();
        lemma_pairs_row_props(rr, prev, r, c);
        let rest = pairs_row(rr, prev, r, c);
        assert forall|y: usize| prev.contains(y) implies cols.contains(y) by {
            let i = choose|i: int| 0 <= i < prev.len() && prev[i] == y;
            assert(cols[i] == y);
        }
        assert forall|y: usize| #[trigger] cols.contains(y) && !(rr == r && y == c) implies
            pr.contains((rr, y)) by {
            let i = choose|i: int| 0 <= i < cols.len() && cols[i] == y;
            if i < cols.len() - 1 {
                assert(prev[i] == y);
                assert(prev.contains(y));
                assert(rest.contains((rr, y)));
                let k = choose|k: int| 0 <= k < rest.len() && rest[k] == (rr, y);
                assert(pr[k] == (rr, y));
            } else {
                assert(cols.last() == y);
                assert(pr[pr.len() - 1] == (rr, y));
            }
        }
        assert forall|k: int| 0 <= k < pr.len() implies (#[trigger] pr[k]).0 == rr
            && cols.contains(pr[k].1) && pr[k] != (r, c) by {
            if k < rest.len() {
                assert(pr[k] == rest[k]);
                assert(prev.contains(rest[k].1));
                let i = choose|i: int| 0 <= i < prev.len() && prev[i] == rest[k].1;
                assert(cols[i] == rest[k].1);
            } else {
                assert(pr[k] == (rr, cols.last()));
                assert(cols[cols.len() - 1] == cols.last());
            }
        }
        if cols.no_duplicates() {
            assert(prev.no_duplicates());
            if !(rr == r && cols.last() == c) {
                assert forall|k1: int, k2: int| 0 <= k1 < k2 < pr.len() implies pr[k1] != pr[k2] by {
                    if k2 == pr.len() - 1 {
                        assert(pr[k1] == rest[k1]);
                        assert(prev.contains(rest[k1].1));
                        let i = choose|i: int| 0 <= i < prev.len() && prev[i] == rest[k1].1;
                        assert(cols[i] == prev[i]);
                        assert(cols[cols.len() - 1] == cols.last());
                        assert(prev[i] != cols.last());
                    }
                }
            }
        }
    }
}

/// Membership, distinctness and length of the full neighbor enumeration.
pub proof fn lemma_nbr_seq_props(rows: Seq<usize>, cols: Seq<usize>, r: usize, c: usize)
    ensures
        forall|k: int|
            0 <= k < nbr_seq(rows, cols, r, c).len() ==> rows.contains(
                (#[trigger] nbr_seq(rows, cols, r, c)[k]).0,
            ) && cols.contains(nbr_seq(rows, cols, r, c)[k].1) && nbr_seq(rows, cols, r, c)[k] != (
            r,
            c,
            ),
        forall|x: usize, y: usize|
            #[trigger] rows.contains(x) && #[trigger] cols.contains(y) && !(x == r && y == c)
                ==> nbr_seq(rows, cols, r, c).contains((x, y)),
        rows.no_duplicates() && cols.no_duplicates() ==> nbr_seq(rows, cols, r, c).no_duplicates(),
        nbr_seq(rows, cols, r, c).len() <= rows.len() * cols.len(),
    decreases rows.len(),
{
    let ns = nbr_seq(rows, cols, r, c);
    if rows.len() == 0 {
    } else {
        let prev = rows.drop_last();
        lemma_nbr_seq_props(prev, cols, r, c);
        lemma_pairs_row_props(rows.last(), cols, r, c);
        let head = nbr_seq(prev, cols, r, c);
        let tail = pairs_row(rows.last(), cols, r, c);
        assert(ns == head + tail);
        assert forall|y: usize| prev.contains(y) implies rows.contains(y) by {
            let i = choose|i: int| 0 <= i < prev.len() && prev[i] == y;
            assert(rows[i] == y);
        }
        assert(rows[rows.len() - 1] == rows.last());
        assert forall|k: int| 0 <= k < ns.len() implies rows.contains((#[trigger] ns[k]).0)
            && cols.contains(ns[k].1) && ns[k] != (r, c) by {
            if k < head.len() {
                assert(ns[k] == head[k]);
            } else {
                assert(ns[k] == tail[k - head.len()]);
            }
        }
        assert forall|x: usize, y: usize|
            #[trigger] rows.contains(x) && #[trigger] cols.contains(y) && !(x == r && y == c)
            implies ns.contains((x, y)) by {
            let i = choose|i: int| 0 <= i < rows.len() && rows[i] == x;
            if i < rows.len() - 1 {
                assert(prev[i] == x);
                assert(prev.contains(x));
                assert(head.contains((x, y)));
                let k = choose|k: int| 0 <= k < head.len() && head[k] == (x, y);
                assert(ns[k] == (x, y));
            } else {
                assert(rows.last() == x);
                assert(tail.contains((x, y)));
                let k = choose|k: int| 0 <= k < tail.len() && tail[k] == (x, y);
                assert(ns[head.len() + k] == (x, y));
            }
        }
        if rows.no_duplicates() && cols.no_duplicates() {
            assert(prev.no_duplicates());
            assert forall|k1: int, k2: int| 0 <= k1 < k2 < ns.len() implies ns[k1] != ns[k2] by {
                if k1 < head.len() && k2 >= head.len() {
                    assert(ns[k1] == head[k1]);
                    assert(ns[k2] == tail[k2 - head.len()]);
                    assert(prev.contains(head[k1].0));
                    let i = choose|i: int| 0 <= i < prev.len() && prev[i] == head[k1].0;
                    assert(rows[i] == prev[i]);
                    assert(rows[i] != rows.last());
                } else if k1 >= head.len() {
                    assert(ns[k1] == tail[k1 - head.len()]);
                    assert(ns[k2] == tail[k2 - head.len()]);
                } else {
                    assert(ns[k1] == head[k1]);
                    assert(ns[k2] == head[k2]);
                }
            }
        }
        assert(ns.len() == head.len() + tail.len());
        assert(head.len() + tail.len() <= (rows.len() - 1) * cols.len() + cols.len());
        assert((rows.len() - 1) * cols.len() + cols.len() == rows.len() * cols.len())
            by (nonlinear_arith);
    }
}

/// The canonical neighbor enumeration is sound, complete, duplicate-free,
/// never lists the center, and holds at most 8 coordinates.
pub proof fn lemma_nbr_coords_props(r: int, c: int, h: int, w: int, wrapping: bool)
    requires
        0 <= r < h <= usize::MAX,
        0 <= c < w <= usize::MAX,
    ensures
        forall|k: int|
            0 <= k < nbr_coords(r, c, h, w, wrapping).len() ==> is_neighbor(
                r,
                c,
                (#[trigger] nbr_coords(r, c, h, w, wrapping)[k]).0 as int,
                nbr_coords(r, c, h, w, wrapping)[k].1 as int,
                h,
                w,
                wrapping,
            ),
        forall|nr: int, nc: int|
            #[trigger] is_neighbor(r, c, nr, nc, h, w, wrapping) ==> nbr_coords(
                r,
                c,
                h,
                w,
                wrapping,
            ).contains((nr as usize, nc as usize)),
        nbr_coords(r, c, h, w, wrapping).no_duplicates(),
        nbr_coords(r, c, h, w, wrapping).len() <= 8,
{
    let rows = band_seq(r, h, wrapping);
    let cols = band_seq(c, w, wrapping);
    let ns = nbr_coords(r, c, h, w, wrapping);
    lemma_band_props(r, h, wrapping);
    lemma_band_props(c, w, wrapping);
    lemma_nbr_seq_props(rows, cols, r as usize, c as usize);
    assert forall|k: int| 0 <= k < ns.len() implies is_neighbor(
        r,
        c,
        (#[trigger] ns[k]).0 as int,
        ns[k].1 as int,
        h,
        w,
        wrapping,
    ) by {
        let i = choose|i: int| 0 <= i < rows.len() && rows[i] == ns[k].0;
        let j = choose|j: int| 0 <= j < cols.len() && cols[j] == ns[k].1;
        assert(band_adj(r, rows[i] as int, h, wrapping));
        assert(band_adj(c, cols[j] as int, w, wrapping));
    }
    assert forall|nr: int, nc: int| #[trigger] is_neighbor(r, c, nr, nc, h, w, wrapping) implies
        ns.contains((nr as usize, nc as usize)) by {
        assert(rows.contains(nr as usize));
        assert(cols.contains(nc as usize));
    }
    // Length: at most 3 * 3 slots, and the center occupies one of them.
    assert(ns.len() <= rows.len() * cols.len());
    assert(rows.len() * cols.len() <= 9) by (nonlinear_arith)
        requires
            rows.len() <= 3,
            cols.len() <= 3,
    ;
    lemma_nbr_seq_center_len(rows, cols, r as usize, c as usize);
    assert(rows.len() * cols.len() - 1 <= 8) by (nonlinear_arith)
        requires
            rows.len() <= 3,
            cols.len() <= 3,
    ;
}

/// The center occupies one of the cross-product slots, so the enumeration
/// loses one entry against the full product.
proof fn lemma_nbr_seq_center_len(rows: Seq<usize>, cols: Seq<usize>, r: usize, c: usize)
    requires
        rows.no_duplicates(),
        cols.no_duplicates(),
        rows.contains(r),
        cols.contains(c),
    ensures
        nbr_seq(rows, cols, r, c).len() <= rows.len() * cols.len() - 1,
    decreases rows.len(),
{
    let ns = nbr_seq(rows, cols, r, c);
    let prev = rows.drop_last();
    let head = nbr_seq(prev, cols, r, c);
    let tail = pairs_row(rows.last(), cols, r, c);
    lemma_pairs_row_props(rows.last(), cols, r, c);
    lemma_nbr_seq_props(prev, cols, r, c);
    if rows.last() == r {
        // The center row drops one slot for the center column.
        lemma_pairs_row_center_len(rows.last(), cols, r, c);
        assert(ns.len() <= prev.len() * cols.len() + cols.len() - 1);
        assert(prev.len() * cols.len() + cols.len() == rows.len() * cols.len())
            by (nonlinear_arith)
            requires
                prev.len() == rows.len() - 1,
        ;
    } else {
        let i = choose|i: int| 0 <= i < rows.len() && rows[i] == r;
        assert(i < rows.len() - 1);
        assert(prev[i] == r);
        assert(prev.contains(r));
        lemma_nbr_seq_center_len(prev, cols, r, c);
        assert(ns.len() <= prev.len() * cols.len() - 1 + cols.len());
        assert(prev.len() * cols.len() + cols.len() == rows.len() * cols.len())
            by (nonlinear_arith)
            requires
                prev.len() == rows.len() - 1,
        ;
    }
}

/// In the center row, the enumeration loses exactly the center column.
proof fn lemma_pairs_row_center_len(rr: usize, cols: Seq<usize>, r: usize, c: usize)
    requires
        rr == r,
        cols.no_duplicates(),
        cols.contains(c),
    ensures
        pairs_row(rr, cols, r, c).len() == cols.len() - 1,
    decreases cols.len(),
{
    let prev = cols.drop_last();
    lemma_pairs_row_props(rr, prev, r, c);
    if cols.last() == c {
        assert(pairs_row(rr, prev, r, c).len() <= prev.len());
        assert forall|k: int| 0 <= k < prev.len() implies #[trigger] prev[k] != c by {
            assert(cols[k] == prev[k]);
            assert(cols[cols.len() - 1] == c);
        }
        lemma_pairs_row_full_len(rr, prev, r, c);
    } else {
        let i = choose|i: int| 0 <= i < cols.len() && cols[i] == c;
        assert(i < cols.len() - 1);
        assert(prev[i] == c);
        assert(prev.contains(c));
        lemma_pairs_row_center_len(rr, prev, r, c);
    }
}

/// A row that never meets the center keeps every column.
proof fn lemma_pairs_row_full_len(rr: usize, cols: Seq<usize>, r: usize, c: usize)
    requires
        forall|k: int| 0 <= k < cols.len() ==> !(rr == r && #[trigger] cols[k] == c),
    ensures
        pairs_row(rr, cols, r, c).len() == cols.len(),
    decreases cols.len(),
{
    if cols.len() > 0 {
        let prev = cols.drop_last();
        assert forall|k: int| 0 <= k < prev.len() implies !(rr == r && #[trigger] prev[k] == c) by {
            assert(cols[k] == prev[k]);
        }
        assert(cols[cols.len() - 1] == cols.last());
        lemma_pairs_row_full_len(rr, prev, r, c);
    }
}

/// The band around `a`, as a vector of distinct in-range indices.
pub fn band_values(a: usize, n: usize, wrapping: bool) -> (r: Vec<usize>)
    requires
        a < n,
    ensures
        r@ == band_seq(a as int, n as int, wrapping),
{
    let mut v: Vec<usize> = Vec::new();
    if wrapping {
        v.push(a);
        let d = if a == 0 {
            n - 1
        } else {
            a - 1
        };
        if d != a {
            v.push(d);
        }
        let u = if a == n - 1 {
            0
        } else {
            a + 1
        };
        if u != a && u != d {
            v.push(u);
        }
    } else {
        if a > 0 {
            v.push(a - 1);
        }
        v.push(a);
        if a < n - 1 {
            v.push(a + 1);
        }
    }
    proof {
        assert(v@ =~= band_seq(a as int, n as int, wrapping));
    }
    v
}

/// Resolve the neighbors of `(row, col)` on a `height` x `width` grid:
/// exactly the canonical neighbor enumeration, in its order.
pub fn neighbors_of(row: usize, col: usize, height: usize, width: usize, wrapping: bool) -> (r: Vec<
    (usize, usize),
>)
    requires
        row < height,
        col < width,
    ensures
        r@ == nbr_coords(row as int, col as int, height as int, width as int, wrapping),
{
    let rb = band_values(row, height, wrapping);
    let cb = band_values(col, width, wrapping);
    let ghost rows = rb@;
    let ghost cols = cb@;
    let mut res: Vec<(usize, usize)> = Vec::new();
    let mut i: usize = 0;
    while i < rb.len()
        invariant
            rows == rb@,
            cols == cb@,
            i <= rb.len(),
            res@ == nbr_seq(rows.take(i as int), cols, row, col),
        decreases rb.len() - i,
    {
        let rr = rb[i];
        let mut j: usize = 0;
        while j < cb.len()
            invariant
                rows == rb@,
                cols == cb@,
                i < rb.len(),
                rr == rows[i as int],
                j <= cb.len(),
                res@ == nbr_seq(rows.take(i as int), cols, row, col) + pairs_row(
                    rr,
                    cols.take(j as int),
                    row,
                    col,
                ),
            decreases cb.len() - j,
        {
            let cc = cb[j];
            proof {
                assert(cols.take(j + 1).drop_last() =~= cols.take(j as int));
                assert(cols.take(j + 1).last() == cols[j as int]);
            }
            if !(rr == row && cc == col) {
                res.push((rr, cc));
            }
            j += 1;
        }
        proof {
            assert(cols.take(cols.len() as int) =~= cols);
            assert(rows.take(i + 1).drop_last() =~= rows.take(i as int));
            assert(rows.take(i + 1).last() == rows[i as int]);
        }
        i += 1;
    }
    proof {
        assert(rows.take(rows.len() as int) =~= rows);
    }
    res
}

} // verus!
