//! Coordinate arithmetic on an N x N grid stored row by row.

use vstd::arithmetic::div_mod::{
    lemma_fundamental_div_mod, lemma_fundamental_div_mod_converse_div,
    lemma_fundamental_div_mod_converse_mod, lemma_mod_pos_bound,
};
use vstd::prelude::*;

verus! {

/// The square of `w`; kept as a function so that it can serve as a trigger.
pub open spec fn sq(w: int) -> int {
    w * w
}

/// A sequence of length `len` is laid out as a square grid of some width.
pub open spec fn is_square(len: int) -> bool {
    exists|w: int| 0 <= w && #[trigger] sq(w) == len
}

/// One of the eight compass offsets of the Moore neighbourhood.
pub open spec fn is_offset(dx: int, dy: int) -> bool {
    -1 <= dx <= 1 && -1 <= dy <= 1 && !(dx == 0 && dy == 0)
}

/// The cell that lies `dx` columns and `dy` rows away from `pos` on a grid of
/// width `w`, or `None` when that falls off the grid.
pub open spec fn offset_cell(w: int, pos: int, dx: int, dy: int) -> Option<int> {
    let x = pos % w + dx;
    let y = pos / w + dy;
    if 0 <= x < w && 0 <= y < w {
        Some(y * w + x)
    } else {
        None
    }
}

/// The k-th of the eight compass offsets, as (columns, rows).
pub open spec fn compass(k: int) -> (int, int) {
    if k == 0 {
        (0, -1)
    } else if k == 1 {
        (1, -1)
    } else if k == 2 {
        (1, 0)
    } else if k == 3 {
        (1, 1)
    } else if k == 4 {
        (0, 1)
    } else if k == 5 {
        (-1, 1)
    } else if k == 6 {
        (-1, 0)
    } else {
        (-1, -1)
    }
}

/// The compass offsets are the eight offsets of the neighbourhood, each once.
pub proof fn lemma_compass(k: int, j: int)
    requires
        0 <= k < 8,
        0 <= j < 8,
    ensures
        is_offset(compass(k).0, compass(k).1),
        compass(k) == compass(j) ==> k == j,
{
}

/// Each offset of the neighbourhood is a compass offset.
pub proof fn lemma_offset_is_compass(dx: int, dy: int) -> (k: int)
    requires
        is_offset(dx, dy),
    ensures
        0 <= k < 8,
        compass(k) == (dx, dy),
{
    if dx == 0 && dy == -1 {
        0
    } else if dx == 1 && dy == -1 {
        1
    } else if dx == 1 && dy == 0 {
        2
    } else if dx == 1 && dy == 1 {
        3
    } else if dx == 0 && dy == 1 {
        4
    } else if dx == -1 && dy == 1 {
        5
    } else if dx == -1 && dy == 0 {
        6
    } else {
        7
    }
}

/// Two offsets that land on the same cell are the same offset.
pub proof fn lemma_offset_unique(w: int, a: int, dx1: int, dy1: int, dx2: int, dy2: int)
    requires
        0 < w,
        offset_cell(w, a, dx1, dy1) is Some,
        offset_cell(w, a, dx1, dy1) == offset_cell(w, a, dx2, dy2),
    ensures
        dx1 == dx2 && dy1 == dy2,
{
    let n = offset_cell(w, a, dx1, dy1)->Some_0;
    let (x1, y1) = (a % w + dx1, a / w + dy1);
    let (x2, y2) = (a % w + dx2, a / w + dy2);
    assert(n == y1 * w + x1);
    assert(n == y2 * w + x2);
    lemma_fundamental_div_mod_converse_mod(n, w, y1, x1);
    lemma_fundamental_div_mod_converse_div(n, w, y1, x1);
    lemma_fundamental_div_mod_converse_mod(n, w, y2, x2);
    lemma_fundamental_div_mod_converse_div(n, w, y2, x2);
}

/// `b` is one of the (up to eight) cells that touch `a`.
pub open spec fn is_neighbor(w: int, a: int, b: int) -> bool {
    exists|dx: int, dy: int| is_offset(dx, dy) && #[trigger] offset_cell(w, a, dx, dy) == Some(b)
}

proof fn lemma_row_col_bounds(w: int, pos: int)
    requires
        0 < w,
        0 <= pos < w * w,
    ensures
        0 <= pos % w < w,
        0 <= pos / w < w,
{
    lemma_mod_pos_bound(pos, w);
    lemma_fundamental_div_mod(pos, w);
    let q = pos / w;
    let r = pos % w;
    assert(0 <= q < w) by (nonlinear_arith)
        requires
            pos == w * q + r,
            0 <= r < w,
            0 <= pos < w * w,
            0 < w,
    ;
}

pub proof fn lemma_cell_in_grid(w: int, x: int, y: int)
    requires
        0 <= x < w,
        0 <= y < w,
    ensures
        0 <= y * w + x < w * w,
{
    assert(0 <= y * w + x < w * w) by (nonlinear_arith)
        requires
            0 <= x < w,
            0 <= y < w,
    ;
}

/// A cell at an offset that stays on the grid lies on the grid.
pub proof fn lemma_offset_in_grid(w: int, a: int, dx: int, dy: int)
    requires
        0 < w,
    ensures
        offset_cell(w, a, dx, dy) matches Some(b) ==> 0 <= b < w * w,
{
    if offset_cell(w, a, dx, dy) is Some {
        lemma_cell_in_grid(w, a % w + dx, a / w + dy);
    }
}

/// Every neighbour of a cell on the grid lies on the grid.
pub proof fn lemma_neighbor_in_grid(w: int, a: int)
    requires
        0 < w,
    ensures
        forall|b: int| #[trigger] is_neighbor(w, a, b) ==> 0 <= b < w * w,
{
    assert forall|b: int| #[trigger] is_neighbor(w, a, b) implies 0 <= b < w * w by {
        let (dx, dy) = choose|dx: int, dy: int|
            is_offset(dx, dy) && #[trigger] offset_cell(w, a, dx, dy) == Some(b);
        lemma_cell_in_grid(w, a % w + dx, a / w + dy);
    }
}

/// The index of the cell at offset (`offset_x`, `offset_y`) from `pos`, or
/// `None` where that cell lies outside the grid.
pub fn neighbor_index(width: usize, pos: usize, offset_x: i8, offset_y: i8) -> (r: Option<usize>)
    requires
        0 < width,
        width * width <= usize::MAX,
        pos < width * width,
        -1 <= offset_x <= 1,
        -1 <= offset_y <= 1,
    ensures
        match r {
            Some(n) => offset_cell(width as int, pos as int, offset_x as int, offset_y as int)
                == Some(n as int) && n < width * width,
            None => offset_cell(width as int, pos as int, offset_x as int, offset_y as int)
                is None,
        },
{
    proof {
        lemma_row_col_bounds(width as int, pos as int);
    }
    let col = pos % width;
    let row = pos / width;
    let x: usize = if offset_x < 0 {
        if col == 0 {
            return None;
        }
        col - 1
    } else if offset_x > 0 {
        if col + 1 >= width {
            return None;
        }
        col + 1
    } else {
        col
    };
    let y: usize = if offset_y < 0 {
        if row == 0 {
            return None;
        }
        row - 1
    } else if offset_y > 0 {
        if row + 1 >= width {
            return None;
        }
        row + 1
    } else {
        row
    };
    proof {
        lemma_cell_in_grid(width as int, x as int, y as int);
    }
    Some(y * width + x)
}

/// The width of a square grid of `len` cells, or `None` when `len` is not a
/// perfect square.
pub fn square_width(len: usize) -> (r: Option<usize>)
    ensures
        match r {
            Some(w) => sq(w as int) == len,
            None => !is_square(len as int),
        },
{
    let mut w: usize = 0;
    loop
        invariant
            sq(w as int) <= len,
            forall|v: int| 0 <= v < w ==> #[trigger] sq(v) < len,
        decreases len - w,
    {
        assert(w <= len) by (nonlinear_arith)
            requires
                w * w <= len,
        ;
        if w * w == len {
            return Some(w);
        }
        assert(w < len) by (nonlinear_arith)
            requires
                w * w < len,
        ;
        let next = w + 1;
        if next > len / next {
            proof {
                lemma_fundamental_div_mod(len as int, next as int);
                lemma_mod_pos_bound(len as int, next as int);
                let q = len as int / next as int;
                let r = len as int % next as int;
                assert(sq(next as int) > len) by (nonlinear_arith)
                    requires
                        len == next * q + r,
                        0 <= r < next,
                        q < next,
                ;
                assert forall|v: int| 0 <= v implies #[trigger] sq(v) != len by {
                    if v > w {
                        assert(sq(v) >= sq(next as int)) by (nonlinear_arith)
                            requires
                                v >= next,
                                next > 0,
                        ;
                    }
                }
            }
            return None;
        }
        proof {
            lemma_fundamental_div_mod(len as int, next as int);
            lemma_mod_pos_bound(len as int, next as int);
            let q = len as int / next as int;
            let r = len as int % next as int;
            assert(sq(next as int) <= len) by (nonlinear_arith)
                requires
                    len == next * q + r,
                    0 <= r < next,
                    next <= q,
                    0 < next,
            ;
        }
        w = next;
    }
}

} // verus!
