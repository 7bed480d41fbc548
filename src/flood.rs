//! Revealing cells of the visible board, with flood expansion across
//! zero-count regions, and the win check.

use crate::annotate::{
    annotation, grid_width, lemma_annotation_cells, lemma_grid_width, valid_layout,
};
use crate::geometry::{
    compass, is_neighbor, is_offset, is_square, lemma_neighbor_in_grid, lemma_offset_in_grid,
    neighbor_index, offset_cell, square_width,
};
use vstd::prelude::*;
use vstd::set_lib::{lemma_int_range, lemma_len_subset, set_int_range};

verus! {

/// What a reveal uncovered.
#[derive(Debug, Clone, Copy, PartialEq, Eq, Structural)]
pub enum RevealOutcome {
    /// The cell holds a mine.
    HitMine,
    /// The cell is safe.
    RevealedSafe,
}

/// A cell of a solved grid: a mine or a count from `'0'` to `'8'`.
pub open spec fn is_solved_char(c: char) -> bool {
    c == 'X' || c == '0' || c == '1' || c == '2' || c == '3' || c == '4' || c == '5' || c == '6'
        || c == '7' || c == '8'
}

/// Every cell of the solved grid is a mine or a count.
pub open spec fn valid_solution(solution: Seq<char>) -> bool {
    forall|i: int| 0 <= i < solution.len() ==> #[trigger] is_solved_char(solution[i])
}

/// A chain of touching cells along which a flood spreads from `p[0]`: every
/// cell but the last has a count of zero, and every cell after the first is
/// hidden on `board` and differs from the first.
pub open spec fn flood_path(board: Seq<char>, solution: Seq<char>, w: int, p: Seq<int>) -> bool {
    &&& p.len() >= 1
    &&& forall|j: int| 0 <= j < p.len() ==> 0 <= #[trigger] p[j] < board.len()
    &&& forall|j: int| 1 <= j < p.len() ==> board[#[trigger] p[j]] == '-' && p[j] != p[0]
    &&& forall|j: int|
        0 <= j < p.len() - 1 ==> solution[#[trigger] p[j]] == '0' && is_neighbor(w, p[j], p[j + 1])
}

/// Revealing `start` on `board` uncovers `c`.
pub open spec fn reachable(board: Seq<char>, solution: Seq<char>, w: int, start: int, c: int) -> bool {
    exists|p: Seq<int>| #[trigger] flood_path(board, solution, w, p) && p[0] == start && p.last() == c
}

/// `board` after every cell reachable from `start` has been uncovered.
pub open spec fn flood_from(board: Seq<char>, solution: Seq<char>, w: int, start: int) -> Seq<char> {
    Seq::new(
        board.len(),
        |c: int|
            if reachable(board, solution, w, start, c) {
                solution[c]
            } else {
                board[c]
            },
    )
}

/// `board` after the player reveals `pos`: nothing changes where `pos` is
/// already uncovered.
pub open spec fn revealed_board(board: Seq<char>, solution: Seq<char>, w: int, pos: int) -> Seq<
    char,
> {
    if board[pos] == '-' {
        flood_from(board, solution, w, pos)
    } else {
        board
    }
}

fn compass_offset(k: usize) -> (r: (i8, i8))
    requires
        k < 8,
    ensures
        r.0 as int == compass(k as int).0,
        r.1 as int == compass(k as int).1,
        is_offset(r.0 as int, r.1 as int),
{
    if k == 0 {
        (0, -1)
    } else if k == 1 {
        (1, -1)
    } else if k == 2 {
        (1, 0)
    } else if k == 3 {
        (1, 1)
    } else if k == 4 {
        (0, 1)
    } else if k == 5 {
        (-1, 1)
    } else if k == 6 {
        (-1, 0)
    } else {
        (-1, -1)
    }
}

/// The offset cell is uncovered, or off the grid.
pub open spec fn uncovered_at(board: Seq<char>, w: int, c: int, dx: int, dy: int) -> bool {
    match offset_cell(w, c, dx, dy) {
        Some(n) => board[n] != '-',
        None => true,
    }
}

/// Every cell that touches `c` is uncovered.
pub open spec fn neighbors_uncovered(board: Seq<char>, w: int, c: int) -> bool {
    forall|n: int| #[trigger] is_neighbor(w, c, n) ==> board[n] != '-'
}

proof fn lemma_compass_covers(board: Seq<char>, w: int, c: int)
    requires
        forall|k: int| 0 <= k < 8 ==> #[trigger] uncovered_at(board, w, c, compass(k).0, compass(k).1),
    ensures
        neighbors_uncovered(board, w, c),
{
    assert forall|n: int| #[trigger] is_neighbor(w, c, n) implies board[n] != '-' by {
        let (dx, dy) = choose|dx: int, dy: int|
            is_offset(dx, dy) && #[trigger] offset_cell(w, c, dx, dy) == Some(n);
        assert(uncovered_at(board, w, c, compass(0).0, compass(0).1));
        assert(uncovered_at(board, w, c, compass(1).0, compass(1).1));
        assert(uncovered_at(board, w, c, compass(2).0, compass(2).1));
        assert(uncovered_at(board, w, c, compass(3).0, compass(3).1));
        assert(uncovered_at(board, w, c, compass(4).0, compass(4).1));
        assert(uncovered_at(board, w, c, compass(5).0, compass(5).1));
        assert(uncovered_at(board, w, c, compass(6).0, compass(6).1));
        assert(uncovered_at(board, w, c, compass(7).0, compass(7).1));
    }
}

/// A flood that reaches a zero cell `c` reaches every hidden cell `n` that
/// touches it.
proof fn lemma_extend_path(
    board: Seq<char>,
    solution: Seq<char>,
    w: int,
    start: int,
    c: int,
    n: int,
    dx: int,
    dy: int,
)
    requires
        reachable(board, solution, w, start, c),
        solution[c] == '0',
        is_offset(dx, dy),
        offset_cell(w, c, dx, dy) == Some(n),
        0 <= n < board.len(),
        board[n] == '-',
        n != start,
    ensures
        reachable(board, solution, w, start, n),
{
    let p = choose|p: Seq<int>|
        #[trigger] flood_path(board, solution, w, p) && p[0] == start && p.last() == c;
    let q = p.push(n);
    assert(is_neighbor(w, c, n));
    assert forall|j: int| 0 <= j < q.len() - 1 implies solution[#[trigger] q[j]] == '0'
        && is_neighbor(w, q[j], q[j + 1]) by {
        if j < p.len() - 1 {
            assert(q[j] == p[j] && q[j + 1] == p[j + 1]);
        }
    }
    assert(flood_path(board, solution, w, q));
}

/// Only the start and cells hidden on `board` are reachable.
proof fn lemma_reachable_hidden(board: Seq<char>, solution: Seq<char>, w: int, start: int, c: int)
    requires
        reachable(board, solution, w, start, c),
        c != start,
    ensures
        board[c] == '-',
        0 <= c < board.len(),
{
    let p = choose|p: Seq<int>|
        #[trigger] flood_path(board, solution, w, p) && p[0] == start && p.last() == c;
    assert(p[p.len() - 1] == c);
}

proof fn lemma_uncovered_grows(before: Seq<char>, after: Seq<char>, w: int, d: int)
    requires
        before.len() == after.len(),
        neighbors_uncovered(before, w, d),
        forall|i: int| 0 <= i < before.len() && #[trigger] before[i] != '-' ==> after[i] != '-',
        forall|n: int| #[trigger] is_neighbor(w, d, n) ==> 0 <= n < before.len(),
    ensures
        neighbors_uncovered(after, w, d),
{
    assert forall|n: int| #[trigger] is_neighbor(w, d, n) implies after[n] != '-' by {
        assert(before[n] != '-');
    }
}

proof fn lemma_path_uncovered(
    start: Seq<char>,
    board: Seq<char>,
    solution: Seq<char>,
    w: int,
    origin: int,
    p: Seq<int>,
    j: int,
)
    requires
        board.len() == start.len(),
        flood_path(start, solution, w, p),
        p[0] == origin,
        board[origin] != '-',
        0 <= j < p.len(),
        forall|d: int|
            0 <= d < board.len() && reachable(start, solution, w, origin, d) && board[d] != '-'
                && solution[d] == '0' ==> #[trigger] neighbors_uncovered(board, w, d),
    ensures
        board[p[j]] != '-',
    decreases j,
{
    if j > 0 {
        lemma_path_uncovered(start, board, solution, w, origin, p, j - 1);
        let pre = p.subrange(0, j);
        assert(flood_path(start, solution, w, pre)) by {
            assert forall|i: int| 0 <= i < pre.len() - 1 implies solution[#[trigger] pre[i]] == '0'
                && is_neighbor(w, pre[i], pre[i + 1]) by {
                assert(pre[i] == p[i] && pre[i + 1] == p[i + 1]);
            }
        }
        assert(pre.last() == p[j - 1]);
        assert(reachable(start, solution, w, origin, p[j - 1]));
        assert(solution[p[j - 1]] == '0' && is_neighbor(w, p[j - 1], p[j]));
        assert(neighbors_uncovered(board, w, p[j - 1]));
    }
}

/// Every cell reachable from `origin` is uncovered once each uncovered
/// reachable zero cell has all its neighbours uncovered.
proof fn lemma_flood_complete(
    start: Seq<char>,
    board: Seq<char>,
    solution: Seq<char>,
    w: int,
    origin: int,
    c: int,
)
    requires
        board.len() == start.len(),
        board[origin] != '-',
        forall|d: int|
            0 <= d < board.len() && reachable(start, solution, w, origin, d) && board[d] != '-'
                && solution[d] == '0' ==> #[trigger] neighbors_uncovered(board, w, d),
        reachable(start, solution, w, origin, c),
    ensures
        board[c] != '-',
{
    let p = choose|p: Seq<int>|
        #[trigger] flood_path(start, solution, w, p) && p[0] == origin && p.last() == c;
    lemma_path_uncovered(start, board, solution, w, origin, p, p.len() - 1);
}

/// The cells that were hidden on `before` and show a zero on `after`.
pub open spec fn new_zeros(before: Seq<char>, after: Seq<char>) -> Set<int> {
    Set::new(|i: int| 0 <= i < before.len() && before[i] == '-' && after[i] == '0')
}

/// Uncovers every cell that a flood from the zero cell `pos` reaches: each
/// hidden neighbour of a zero cell is uncovered, and the flood goes on from
/// those that are zero themselves. Returns the number of cells whose
/// neighbourhood was scanned: `pos` and each zero it uncovered, once each.
/// A cell is written only while it is hidden, and then takes its solved value.
pub fn expand_surrounding_0s(
    board: &mut Vec<char>,
    solution: &Vec<char>,
    width: usize,
    pos: usize,
) -> (scanned: usize)
    requires
        0 < width,
        width * width <= usize::MAX,
        old(board)@.len() == width * width,
        solution@.len() == width * width,
        valid_solution(solution@),
        pos < width * width,
        old(board)@[pos as int] == '0',
        solution@[pos as int] == '0',
    ensures
        final(board)@ == flood_from(old(board)@, solution@, width as int, pos as int),
        new_zeros(old(board)@, final(board)@).finite(),
        scanned == 1 + new_zeros(old(board)@, final(board)@).len(),
        forall|i: int|
            0 <= i < old(board)@.len() && #[trigger] final(board)@[i] != old(board)@[i] ==> old(
                board,
            )@[i] == '-' && final(board)@[i] == solution@[i],
{
    let ghost start = board@;
    let ghost sol = solution@;
    let ghost w = width as int;
    let ghost len = start.len() as int;
    let ghost origin = pos as int;
    proof {
        lemma_int_range(0, len);
        assert(flood_path(start, sol, w, seq![origin]));
        assert(seq![origin].last() == origin);
    }
    let mut stack: Vec<usize> = Vec::new();
    stack.push(pos);
    let ghost mut opened: Set<int> = Set::empty();
    let ghost mut zeros: Set<int> = Set::empty();
    let mut scanned: usize = 0;
    proof {
        assert forall|d: int|
            0 <= d < len && reachable(start, sol, w, origin, d) && board@[d] != '-' && sol[d] == '0'
                && !stack@.contains(d as usize) implies #[trigger] neighbors_uncovered(board@, w, d) by {
            if d != origin {
                lemma_reachable_hidden(start, sol, w, origin, d);
            } else {
                assert(stack@[0] == pos);
            }
        }
    }
    while stack.len() > 0
        invariant
            0 < width,
            width * width <= usize::MAX,
            len == width * width,
            start.len() == len,
            board@.len() == len,
            sol == solution@,
            sol.len() == len,
            valid_solution(sol),
            0 <= origin < len,
            start[origin] == '0',
            sol[origin] == '0',
            w == width as int,
            set_int_range(0, len).finite(),
            set_int_range(0, len).len() == len,
            forall|i: int|
                0 <= i < len ==> (#[trigger] board@[i] == start[i] || (start[i] == '-' && board@[i]
                    == sol[i] && reachable(start, sol, w, origin, i))),
            forall|k: int|
                0 <= k < stack@.len() ==> (#[trigger] stack@[k]) < len && sol[stack@[k] as int]
                    == '0' && board@[stack@[k] as int] != '-' && reachable(
                    start,
                    sol,
                    w,
                    origin,
                    stack@[k] as int,
                ),
            forall|d: int|
                0 <= d < len && reachable(start, sol, w, origin, d) && board@[d] != '-' && sol[d]
                    == '0' && !stack@.contains(d as usize) ==> #[trigger] neighbors_uncovered(
                    board@,
                    w,
                    d,
                ),
            opened.subset_of(set_int_range(0, len)),
            opened.finite(),
            opened.len() <= len,
            zeros.finite(),
            forall|i: int|
                #[trigger] zeros.contains(i) <==> (0 <= i < len && start[i] == '-' && board@[i]
                    == '0'),
            scanned + stack.len() == 1 + zeros.len(),
            forall|i: int|
                #[trigger] opened.contains(i) <==> (0 <= i < len && start[i] == '-' && board@[i]
                    != '-'),
        decreases 2 * (len - opened.len()) + stack.len(),
    {
        proof {
            lemma_len_subset(opened, set_int_range(0, len));
        }
        proof {
            lemma_len_subset(zeros, set_int_range(0, len).remove(origin));
        }
        let ghost before = stack@;
        let c = stack.pop().unwrap();
        scanned = scanned + 1;
        let ghost measure = 2 * (len - opened.len()) + stack.len();
        proof {
            assert(before == stack@.push(c));
            assert(before[before.len() - 1] == c);
            assert forall|d: int|
                0 <= d < len && d != c && !stack@.contains(d as usize) implies !#[trigger] before.contains(
                d as usize,
            ) by {
                if before.contains(d as usize) {
                    let k = choose|k: int| 0 <= k < before.len() && before[k] == d as usize;
                    assert(k < before.len() - 1);
                    assert(stack@[k] == d as usize);
                }
            }
        }
        let mut k: usize = 0;
        while k < 8
            invariant
                0 < width,
                width * width <= usize::MAX,
                len == width * width,
                start.len() == len,
                board@.len() == len,
                sol == solution@,
                sol.len() == len,
                valid_solution(sol),
                0 <= origin < len,
                start[origin] == '0',
                sol[origin] == '0',
                w == width as int,
                set_int_range(0, len).finite(),
                set_int_range(0, len).len() == len,
                c < len,
                sol[c as int] == '0',
                board@[c as int] != '-',
                reachable(start, sol, w, origin, c as int),
                k <= 8,
                forall|kk: int|
                    0 <= kk < k ==> #[trigger] uncovered_at(
                        board@,
                        w,
                        c as int,
                        compass(kk).0,
                        compass(kk).1,
                    ),
                forall|i: int|
                    0 <= i < len ==> (#[trigger] board@[i] == start[i] || (start[i] == '-'
                        && board@[i] == sol[i] && reachable(start, sol, w, origin, i))),
                forall|kk: int|
                    0 <= kk < stack@.len() ==> (#[trigger] stack@[kk]) < len && sol[stack@[kk] as int]
                        == '0' && board@[stack@[kk] as int] != '-' && reachable(
                        start,
                        sol,
                        w,
                        origin,
                        stack@[kk] as int,
                    ),
                forall|d: int|
                    0 <= d < len && d != c && reachable(start, sol, w, origin, d) && board@[d] != '-'
                        && sol[d] == '0' && !stack@.contains(d as usize)
                        ==> #[trigger] neighbors_uncovered(board@, w, d),
                opened.subset_of(set_int_range(0, len)),
                opened.finite(),
                zeros.finite(),
                forall|i: int|
                    #[trigger] zeros.contains(i) <==> (0 <= i < len && start[i] == '-' && board@[i]
                        == '0'),
                scanned + stack.len() == 1 + zeros.len(),
                forall|i: int|
                    #[trigger] opened.contains(i) <==> (0 <= i < len && start[i] == '-'
                        && board@[i] != '-'),
                2 * (len - opened.len()) + stack.len() <= measure,
            decreases 8 - k,
        {
            let ghost board0 = board@;
            let (dx, dy) = compass_offset(k);
            match neighbor_index(width, c, dx, dy) {
                Some(n) => {
                    if board[n] == '-' {
                        let v = solution[n];
                        let ghost prev = board@;
                        let ghost prev_stack = stack@;
                        proof {
                            assert(start[n as int] == '-');
                            lemma_extend_path(
                                start,
                                sol,
                                w,
                                origin,
                                c as int,
                                n as int,
                                dx as int,
                                dy as int,
                            );
                            assert(is_solved_char(sol[n as int]));
                            assert(!opened.contains(n as int));
                        }
                        board.set(n, v);
                        proof {
                            opened = opened.insert(n as int);
                            assert(!zeros.contains(n as int));
                            if v == '0' {
                                zeros = zeros.insert(n as int);
                            }
                            lemma_len_subset(opened, set_int_range(0, len));
                        }
                        if v == '0' {
                            stack.push(n);
                        }
                        proof {
                            assert forall|i: int|
                                0 <= i < len && #[trigger] board0[i] != '-' implies board@[i] != '-' by {
                                if i == n as int {
                                }
                            }
                            assert forall|d: int|
                                0 <= d < len && d != c && reachable(start, sol, w, origin, d)
                                    && board@[d] != '-' && sol[d] == '0' && !stack@.contains(
                                    d as usize,
                                ) implies #[trigger] neighbors_uncovered(board@, w, d) by {
                                if d == n as int {
                                    assert(stack@[stack@.len() - 1] == n);
                                } else {
                                    if prev_stack.contains(d as usize) {
                                        let kk = choose|kk: int|
                                            0 <= kk < prev_stack.len() && prev_stack[kk]
                                                == d as usize;
                                        assert(stack@[kk] == d as usize);
                                    }
                                    assert(neighbors_uncovered(prev, w, d));
                                    lemma_neighbor_in_grid(w, d);
                                    lemma_uncovered_grows(prev, board@, w, d);
                                }
                            }
                        }
                    }
                },
                None => {},
            }
            proof {
                assert forall|kk: int| 0 <= kk < k + 1 implies #[trigger] uncovered_at(
                    board@,
                    w,
                    c as int,
                    compass(kk).0,
                    compass(kk).1,
                ) by {
                    lemma_offset_in_grid(w, c as int, compass(kk).0, compass(kk).1);
                    if kk < k {
                        assert(uncovered_at(board0, w, c as int, compass(kk).0, compass(kk).1));
                    }
                }
            }
            k = k + 1;
        }
        proof {
            lemma_len_subset(opened, set_int_range(0, len));
            lemma_compass_covers(board@, w, c as int);
        }
    }
    proof {
        assert forall|d: int|
            0 <= d < len && reachable(start, sol, w, origin, d) && board@[d] != '-' && sol[d] == '0'
                implies #[trigger] neighbors_uncovered(board@, w, d) by {
            assert(!stack@.contains(d as usize));
        }
        assert forall|c: int| 0 <= c < len implies board@[c] == flood_from(start, sol, w, origin)[c] by {
            if reachable(start, sol, w, origin, c) {
                lemma_flood_complete(start, board@, sol, w, origin, c);
                if c != origin {
                    lemma_reachable_hidden(start, sol, w, origin, c);
                }
            }
        }
        assert(board@ =~= flood_from(start, sol, w, origin));
        assert(zeros =~= new_zeros(start, board@));
        assert forall|i: int| 0 <= i < len && #[trigger] board@[i] != start[i] implies start[i] == '-'
            && board@[i] == sol[i] by {
            if i == origin {
                assert(board@[i] == sol[i]);
            }
        }
    }
    scanned
}

/// Uncovering the hidden start before the flood leaves what the flood reaches
/// unchanged.
proof fn lemma_flood_after_uncover(start: Seq<char>, solution: Seq<char>, w: int, pos: int, v: char)
    requires
        0 <= pos < start.len(),
        start[pos] == '-',
        v != '-',
    ensures
        flood_from(start.update(pos, v), solution, w, pos) == flood_from(start, solution, w, pos),
{
    let mid = start.update(pos, v);
    assert forall|p: Seq<int>|
        p.len() >= 1 && p[0] == pos && (forall|j: int| 0 <= j < p.len() ==> 0 <= #[trigger] p[j]
            < start.len()) implies #[trigger] flood_path(
        mid,
        solution,
        w,
        p,
    ) == flood_path(start, solution, w, p) by {
        assert forall|j: int| 1 <= j < p.len() implies (mid[#[trigger] p[j]] == '-' && p[j] != p[0])
            == (start[p[j]] == '-' && p[j] != p[0]) by {
            if p[j] != pos {
                assert(mid[p[j]] == start[p[j]]);
            }
        }
    }
    assert forall|c: int| 0 <= c < start.len() implies reachable(mid, solution, w, pos, c)
        == reachable(start, solution, w, pos, c) by {
        if reachable(mid, solution, w, pos, c) {
            let p = choose|p: Seq<int>|
                #[trigger] flood_path(mid, solution, w, p) && p[0] == pos && p.last() == c;
            assert(flood_path(start, solution, w, p));
        }
        if reachable(start, solution, w, pos, c) {
            let p = choose|p: Seq<int>|
                #[trigger] flood_path(start, solution, w, p) && p[0] == pos && p.last() == c;
            assert(flood_path(mid, solution, w, p));
        }
    }
    assert(flood_path(start, solution, w, seq![pos]));
    assert(seq![pos].last() == pos);
    assert(flood_from(mid, solution, w, pos) =~= flood_from(start, solution, w, pos));
}

/// A flood from a cell with a non-zero value uncovers that cell alone.
proof fn lemma_flood_single(start: Seq<char>, solution: Seq<char>, w: int, pos: int)
    requires
        0 <= pos < start.len(),
        start[pos] == '-',
        solution[pos] != '0',
    ensures
        flood_from(start, solution, w, pos) == start.update(pos, solution[pos]),
{
    assert forall|c: int| 0 <= c < start.len() implies reachable(start, solution, w, pos, c) == (c
        == pos) by {
        if reachable(start, solution, w, pos, c) {
            let p = choose|p: Seq<int>|
                #[trigger] flood_path(start, solution, w, p) && p[0] == pos && p.last() == c;
            if p.len() > 1 {
                assert(solution[p[0]] == '0');
            }
        }
        if c == pos {
            assert(flood_path(start, solution, w, seq![pos]));
            assert(seq![pos].last() == pos);
        }
    }
    assert(flood_from(start, solution, w, pos) =~= start.update(pos, solution[pos]));
}

/// The outcome of revealing a cell whose solved value is `v`.
pub open spec fn outcome_of(v: char) -> RevealOutcome {
    if v == 'X' {
        RevealOutcome::HitMine
    } else {
        RevealOutcome::RevealedSafe
    }
}

/// Reveals `pos` on the visible board: a hidden cell takes its solved value,
/// and a zero starts a flood across the neighbouring cells. A cell that is
/// already uncovered is left as it is.
pub fn reveal_tile(board: &mut Vec<char>, solution: &Vec<char>, pos: usize) -> (r: RevealOutcome)
    requires
        old(board)@.len() == solution@.len(),
        is_square(solution@.len() as int),
        valid_solution(solution@),
        pos < solution@.len(),
    ensures
        final(board)@ == revealed_board(
            old(board)@,
            solution@,
            grid_width(solution@.len() as int),
            pos as int,
        ),
        r == outcome_of(solution@[pos as int]),
        forall|i: int|
            0 <= i < old(board)@.len() && #[trigger] final(board)@[i] != old(board)@[i] ==> old(
                board,
            )@[i] == '-' && final(board)@[i] == solution@[i],
{
    let len = solution.len();
    let width = match square_width(len) {
        Some(w) => w,
        None => {
            return RevealOutcome::RevealedSafe;
        },
    };
    proof {
        lemma_grid_width(width as int);
    }
    let v = solution[pos];
    let outcome = if v == 'X' {
        RevealOutcome::HitMine
    } else {
        RevealOutcome::RevealedSafe
    };
    if board[pos] != '-' {
        return outcome;
    }
    let ghost start = board@;
    proof {
        assert(is_solved_char(solution@[pos as int]));
    }
    board.set(pos, v);
    if v == '0' {
        expand_surrounding_0s(board, solution, width, pos);
        proof {
            lemma_flood_after_uncover(start, solution@, width as int, pos as int, v);
        }
    } else {
        proof {
            lemma_flood_single(start, solution@, width as int, pos as int);
        }
    }
    outcome
}

/// Why a move could not be played.
#[derive(Debug, Clone, Copy, PartialEq, Eq, Structural)]
pub enum MoveError {
    /// The column or the row lies outside the board.
    OutOfBounds,
}

/// Plays the move at the 1-based `column` and `row`.
pub fn process_move(board: &mut Vec<char>, solution: &Vec<char>, column: u16, row: u16) -> (r:
    Result<RevealOutcome, MoveError>)
    requires
        old(board)@.len() == solution@.len(),
        is_square(solution@.len() as int),
        valid_solution(solution@),
    ensures
        ({
            let w = grid_width(solution@.len() as int);
            if 1 <= column <= w && 1 <= row <= w {
                let pos = (row - 1) * w + (column - 1);
                r == Ok::<RevealOutcome, MoveError>(outcome_of(solution@[pos]))
                    && final(board)@ == revealed_board(old(board)@, solution@, w, pos)
            } else {
                r == Err::<RevealOutcome, MoveError>(MoveError::OutOfBounds) && final(board)@ == old(
                    board,
                )@
            }
        }),
{
    let len = solution.len();
    let width = match square_width(len) {
        Some(w) => w,
        None => {
            return Err(MoveError::OutOfBounds);
        },
    };
    proof {
        lemma_grid_width(width as int);
    }
    if column == 0 || row == 0 || column as usize > width || row as usize > width {
        return Err(MoveError::OutOfBounds);
    }
    let x = column as usize - 1;
    let y = row as usize - 1;
    proof {
        crate::geometry::lemma_cell_in_grid(width as int, x as int, y as int);
    }
    let pos = y * width + x;
    let outcome = reveal_tile(board, solution, pos);
    Ok(outcome)
}

/// The cell of the visible board agrees with the solution: uncovered with
/// the same value, or a mine that stays hidden.
pub open spec fn cell_won(b: char, s: char) -> bool {
    b == s || (b == '-' && s == 'X')
}

/// The game is won: every cell agrees with the solution.
pub open spec fn is_won(board: Seq<char>, solution: Seq<char>) -> bool {
    board.len() == solution.len() && forall|i: int|
        0 <= i < board.len() ==> #[trigger] cell_won(board[i], solution[i])
}

/// Whether the visible board is won against `solution`.
pub fn is_win(board: &Vec<char>, solution: &Vec<char>) -> (r: bool)
    ensures
        r == is_won(board@, solution@),
{
    if board.len() != solution.len() {
        return false;
    }
    let mut i: usize = 0;
    while i < board.len()
        invariant
            board@.len() == solution@.len(),
            i <= board@.len(),
            forall|j: int| 0 <= j < i ==> #[trigger] cell_won(board@[j], solution@[j]),
        decreases board@.len() - i,
    {
        let b = board[i];
        let s = solution[i];
        if !(b == s || (b == '-' && s == 'X')) {
            assert(!cell_won(board@[i as int], solution@[i as int]));
            return false;
        }
        i = i + 1;
    }
    true
}

/// Every uncovered cell of the visible board shows its solved value.
pub open spec fn agrees(board: Seq<char>, solution: Seq<char>) -> bool {
    board.len() == solution.len() && forall|i: int|
        0 <= i < board.len() ==> #[trigger] board[i] == '-' || board[i] == solution[i]
}

/// On a visible board that agrees with its solution, the game is won exactly
/// when every cell without a mine shows its solved value.
pub proof fn lemma_win_iff_safe_cells_shown(board: Seq<char>, solution: Seq<char>)
    requires
        agrees(board, solution),
    ensures
        is_won(board, solution) == (forall|i: int|
            0 <= i < board.len() && solution[i] != 'X' ==> #[trigger] board[i] == solution[i]),
{
    if forall|i: int| 0 <= i < board.len() && solution[i] != 'X' ==> #[trigger] board[i] == solution[i] {
        assert forall|i: int| 0 <= i < board.len() implies #[trigger] cell_won(board[i], solution[i]) by {
            assert(board[i] == '-' || board[i] == solution[i]);
        }
    }
    if is_won(board, solution) {
        assert forall|i: int| 0 <= i < board.len() && solution[i] != 'X' implies #[trigger] board[i]
            == solution[i] by {
            assert(cell_won(board[i], solution[i]));
        }
    }
}

/// Revealing keeps the visible board in agreement with the solution: cells
/// only go from hidden to their solved value.
pub proof fn lemma_reveal_keeps_agreement(board: Seq<char>, solution: Seq<char>, w: int, pos: int)
    requires
        agrees(board, solution),
        0 <= pos < board.len(),
    ensures
        agrees(revealed_board(board, solution, w, pos), solution),
        forall|i: int|
            0 <= i < board.len() && board[i] != '-' ==> #[trigger] revealed_board(
                board,
                solution,
                w,
                pos,
            )[i] == board[i],
{
    let after = revealed_board(board, solution, w, pos);
    assert forall|i: int| 0 <= i < board.len() implies #[trigger] after[i] == '-' || after[i]
        == solution[i] by {
        assert(board[i] == '-' || board[i] == solution[i]);
    }
    assert forall|i: int| 0 <= i < board.len() && board[i] != '-' implies #[trigger] after[i]
        == board[i] by {
        assert(board[i] == solution[i]);
    }
}

/// The annotation of a square layout is a valid solved grid.
pub proof fn lemma_annotation_is_solution(grid: Seq<char>)
    requires
        is_square(grid.len() as int),
        valid_layout(grid),
    ensures
        valid_solution(annotation(grid)),
        annotation(grid).len() == grid.len(),
{
    assert forall|i: int| 0 <= i < grid.len() implies #[trigger] is_solved_char(annotation(grid)[i]) by {
        lemma_annotation_cells(grid, i);
    }
}

} // verus!
