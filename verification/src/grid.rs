//! Coordinates on a `width` x `height` grid: which cells lie on it, which
//! cells touch each other, and where a cell stands in row-major order.

use vstd::prelude::*;

verus! {

/// The eight unit steps to the cells around a cell, clockwise from the right.
pub open spec fn offsets() -> Seq<(int, int)> {
    seq![(1, 0), (1, -1), (0, -1), (-1, -1), (-1, 0), (-1, 1), (0, 1), (1, 1)]
}

/// `(x, y)` is a cell of the grid: zero is a valid coordinate, the width and
/// the height are not.
pub open spec fn in_grid(w: int, h: int, x: int, y: int) -> bool {
    0 <= x < w && 0 <= y < h
}

/// The two cells differ, by at most one column and at most one row.
pub open spec fn adjacent(x: int, y: int, x1: int, y1: int) -> bool {
    &&& -1 <= x1 - x <= 1
    &&& -1 <= y1 - y <= 1
    &&& (x1 != x || y1 != y)
}

/// The test that keeps the cells of the grid.
pub open spec fn inside(w: int, h: int) -> spec_fn((int, int)) -> bool {
    |c: (int, int)| in_grid(w, h, c.0, c.1)
}

/// The eight cells around `(x, y)`, on the grid or not, clockwise from the
/// right.
pub open spec fn around(x: int, y: int) -> Seq<(int, int)> {
    Seq::new(8, |k: int| (x + offsets()[k].0, y + offsets()[k].1))
}

/// The cells around `(x, y)` that lie on the grid, in clockwise order.
pub open spec fn neighbors_spec(x: int, y: int, w: int, h: int) -> Seq<(int, int)> {
    around(x, y).filter(inside(w, h))
}

/// Cells held as machine integers, read as mathematical ones.
pub open spec fn cells(s: Seq<(u32, u32)>) -> Seq<(int, int)> {
    Seq::new(s.len(), |i: int| (s[i].0 as int, s[i].1 as int))
}

/// Where the cell in column `x` of row `y` stands in row-major order.
pub open spec fn index_of(w: int, x: int, y: int) -> int {
    y * w + x
}

/// Every neighbour is a cell of the grid that touches the centre.
pub proof fn lemma_neighbors_sound(x: int, y: int, w: int, h: int, i: int)
    requires
        0 <= i < neighbors_spec(x, y, w, h).len(),
    ensures
        in_grid(w, h, neighbors_spec(x, y, w, h)[i].0, neighbors_spec(x, y, w, h)[i].1),
        adjacent(x, y, neighbors_spec(x, y, w, h)[i].0, neighbors_spec(x, y, w, h)[i].1),
{
    let ns = neighbors_spec(x, y, w, h);
    around(x, y).lemma_filter_pred(inside(w, h), i);
    assert(ns.contains(ns[i]));
    around(x, y).lemma_filter_contains_rev(inside(w, h), ns[i]);
    let k = choose|k: int| 0 <= k < 8 && around(x, y)[k] == ns[i];
    assert(adjacent(x, y, around(x, y)[k].0, around(x, y)[k].1));
}

/// Every cell of the grid that touches the centre is among the neighbours.
pub proof fn lemma_neighbors_complete(x: int, y: int, w: int, h: int, x1: int, y1: int)
    requires
        in_grid(w, h, x1, y1),
        adjacent(x, y, x1, y1),
    ensures
        neighbors_spec(x, y, w, h).contains((x1, y1)),
{
    let dx = x1 - x;
    let dy = y1 - y;
    let k: int = if dx == 1 && dy == 0 {
        0
    } else if dx == 1 && dy == -1 {
        1
    } else if dx == 0 && dy == -1 {
        2
    } else if dx == -1 && dy == -1 {
        3
    } else if dx == -1 && dy == 0 {
        4
    } else if dx == -1 && dy == 1 {
        5
    } else if dx == 0 && dy == 1 {
        6
    } else {
        7
    };
    assert(around(x, y)[k] == (x1, y1));
    around(x, y).lemma_filter_contains(inside(w, h), k);
}

/// A cell of the grid has its row-major index below `w * h`.
pub proof fn lemma_index_bound(w: int, h: int, x: int, y: int)
    requires
        in_grid(w, h, x, y),
    ensures
        0 <= index_of(w, x, y) < w * h,
{
    assert(y * w + x < w * h) by (nonlinear_arith)
        requires
            0 <= x < w,
            0 <= y < h,
    ;
    assert(0 <= y * w) by (nonlinear_arith)
        requires
            0 <= y,
            0 <= w,
    ;
}

/// Two cells of one width share a row-major index only if they are the same
/// cell.
pub proof fn lemma_index_injective(w: int, x: int, y: int, x1: int, y1: int)
    requires
        0 <= x < w,
        0 <= x1 < w,
        index_of(w, x, y) == index_of(w, x1, y1),
    ensures
        x == x1,
        y == y1,
{
    assert(y == y1) by (nonlinear_arith)
        requires
            0 <= x < w,
            0 <= x1 < w,
            y * w + x == y1 * w + x1,
    ;
}

/// Column and row are remainder and quotient of the row-major index.
pub proof fn lemma_index_coords(w: int, x: int, y: int)
    requires
        0 <= x < w,
    ensures
        index_of(w, x, y) % w == x,
        index_of(w, x, y) / w == y,
{
    vstd::arithmetic::div_mod::lemma_fundamental_div_mod_converse(y * w + x, w, y, x);
}

/// An index below `w * h` is the row-major index of the cell whose column
/// and row are its remainder and quotient.
pub proof fn lemma_coords_index(w: int, h: int, i: int)
    requires
        0 <= i < w * h,
        0 <= h,
    ensures
        in_grid(w, h, i % w, i / w),
        index_of(w, i % w, i / w) == i,
{
    assert(0 < w) by (nonlinear_arith)
        requires
            0 <= i < w * h,
            0 <= h,
    ;
    vstd::arithmetic::div_mod::lemma_fundamental_div_mod(i, w);
    vstd::arithmetic::div_mod::lemma_mod_bound(i, w);
    let q = i / w;
    let r = i % w;
    assert(i == w * q + r);
    assert(0 <= q < h) by (nonlinear_arith)
        requires
            0 <= i < w * h,
            i == w * q + r,
            0 <= r < w,
    ;
    assert(q * w == w * q) by (nonlinear_arith);
}

/// The unit step at place `k` of the clockwise order.
fn offset_at(k: usize) -> (d: (i64, i64))
    requires
        k < 8,
    ensures
        d.0 == offsets()[k as int].0,
        d.1 == offsets()[k as int].1,
{
    if k == 0 {
        (1, 0)
    } else if k == 1 {
        (1, -1)
    } else if k == 2 {
        (0, -1)
    } else if k == 3 {
        (-1, -1)
    } else if k == 4 {
        (-1, 0)
    } else if k == 5 {
        (-1, 1)
    } else if k == 6 {
        (0, 1)
    } else {
        (1, 1)
    }
}

/// The cells around `(x, y)` that lie on a `w` x `h` grid, clockwise from the
/// right. Coordinates below zero or at `w` or `h` are left out; nothing wraps
/// around.
pub fn neighbors(x: u32, y: u32, w: u32, h: u32) -> (out: Vec<(u32, u32)>)
    ensures
        cells(out@) == neighbors_spec(x as int, y as int, w as int, h as int),
{
    let mut out: Vec<(u32, u32)> = Vec::new();
    let mut k: usize = 0;
    let ghost all = around(x as int, y as int);
    let ghost keep = inside(w as int, h as int);
    proof {
        reveal(Seq::filter);
        assert(all.take(0).filter(keep) =~= cells(out@));
    }
    while k < 8
        invariant
            k <= 8,
            all == around(x as int, y as int),
            keep == inside(w as int, h as int),
            cells(out@) == all.take(k as int).filter(keep),
        decreases 8 - k,
    {
        let d = offset_at(k);
        let x1: i64 = x as i64 + d.0;
        let y1: i64 = y as i64 + d.1;
        proof {
            assert(all.take(k as int + 1) =~= all.take(k as int).push(all[k as int]));
            all.take(k as int).lemma_filter_push(all[k as int], keep);
            assert(all[k as int] == (x1 as int, y1 as int));
        }
        if 0 <= x1 && x1 < w as i64 && 0 <= y1 && y1 < h as i64 {
            let ghost before = out@;
            out.push((x1 as u32, y1 as u32));
            assert(cells(out@) =~= cells(before).push((x1 as int, y1 as int)));
        }
        k += 1;
    }
    assert(all.take(8) =~= all);
    out
}

} // verus!
