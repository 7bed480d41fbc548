//! Turning a mine layout into its solved grid of adjacency counts.

use crate::geometry::{
    compass, is_neighbor, is_offset, is_square, lemma_compass, lemma_offset_is_compass,
    lemma_offset_unique, neighbor_index, offset_cell, sq, square_width,
};
use vstd::prelude::*;

verus! {

/// Why a layout could not be annotated.
#[derive(Debug, Clone, Copy, PartialEq, Eq, Structural)]
pub enum BoardError {
    /// The number of cells is not a perfect square, so no width exists.
    InvalidShape,
    /// A cell holds something other than `'X'` (mine) or `'-'` (empty).
    InvalidCell,
}

/// Every cell of the layout is a mine `'X'` or empty `'-'`.
pub open spec fn valid_layout(grid: Seq<char>) -> bool {
    forall|i: int| 0 <= i < grid.len() ==> (#[trigger] grid[i] == 'X' || grid[i] == '-')
}

/// The width of a square grid of `len` cells.
pub open spec fn grid_width(len: int) -> int {
    choose|w: int| 0 <= w && #[trigger] sq(w) == len
}

/// The cell at offset (`dx`, `dy`) from `pos` exists and holds a mine.
pub open spec fn mine_at(grid: Seq<char>, w: int, pos: int, dx: int, dy: int) -> bool {
    match offset_cell(w, pos, dx, dy) {
        Some(n) => grid[n] == 'X',
        None => false,
    }
}

/// One for a true condition, zero otherwise.
pub open spec fn count_if(b: bool) -> nat {
    if b {
        1
    } else {
        0
    }
}

/// The number of mines among the cells that touch `pos`, taking each of the
/// eight compass directions once and skipping those that leave the grid.
pub open spec fn mine_count(grid: Seq<char>, w: int, pos: int) -> nat {
    count_if(mine_at(grid, w, pos, 0, -1)) + count_if(mine_at(grid, w, pos, 1, -1)) + count_if(
        mine_at(grid, w, pos, 1, 0),
    ) + count_if(mine_at(grid, w, pos, 1, 1)) + count_if(mine_at(grid, w, pos, 0, 1)) + count_if(
        mine_at(grid, w, pos, -1, 1),
    ) + count_if(mine_at(grid, w, pos, -1, 0)) + count_if(mine_at(grid, w, pos, -1, -1))
}

/// The character of a single decimal digit.
pub open spec fn digit(n: nat) -> char {
    if n == 0 {
        '0'
    } else if n == 1 {
        '1'
    } else if n == 2 {
        '2'
    } else if n == 3 {
        '3'
    } else if n == 4 {
        '4'
    } else if n == 5 {
        '5'
    } else if n == 6 {
        '6'
    } else if n == 7 {
        '7'
    } else {
        '8'
    }
}

/// What the solved grid holds at `pos`: the mine, or the count of its
/// neighbouring mines.
pub open spec fn solved_cell(grid: Seq<char>, w: int, pos: int) -> char {
    if grid[pos] == 'X' {
        'X'
    } else {
        digit(mine_count(grid, w, pos))
    }
}

/// The solved grid of a layout of width `w`.
pub open spec fn solved_grid(grid: Seq<char>, w: int) -> Seq<char> {
    Seq::new(grid.len(), |i: int| solved_cell(grid, w, i))
}

/// The solved grid of a layout whose width follows from its length.
pub open spec fn annotation(grid: Seq<char>) -> Seq<char> {
    solved_grid(grid, grid_width(grid.len() as int))
}

/// A grid has only one width.
pub proof fn lemma_width_unique(a: int, b: int)
    requires
        0 <= a,
        0 <= b,
        sq(a) == sq(b),
    ensures
        a == b,
{
    assert(a == b) by (nonlinear_arith)
        requires
            0 <= a,
            0 <= b,
            a * a == b * b,
    ;
}

/// `grid_width` is the width `w` of any grid of `sq(w)` cells.
pub proof fn lemma_grid_width(w: int)
    requires
        0 <= w,
    ensures
        grid_width(sq(w)) == w,
{
    let g = grid_width(sq(w));
    assert(0 <= g && sq(g) == sq(w));
    lemma_width_unique(g, w);
}

/// The tile at offset (`offset_x`, `offset_y`) from `pos`, with cells off the
/// grid reading as empty.
pub fn try_get_tile(grid: &Vec<char>, width: usize, pos: usize, offset_x: i8, offset_y: i8) -> (r:
    char)
    requires
        0 < width,
        width * width <= usize::MAX,
        grid@.len() == width * width,
        pos < grid@.len(),
        -1 <= offset_x <= 1,
        -1 <= offset_y <= 1,
    ensures
        r == match offset_cell(width as int, pos as int, offset_x as int, offset_y as int) {
            Some(n) => grid@[n],
            None => '-',
        },
{
    match neighbor_index(width, pos, offset_x, offset_y) {
        Some(n) => grid[n],
        None => '-',
    }
}

/// The number of mines that touch `pos`.
pub fn calculate_mine_count(grid: &Vec<char>, width: usize, pos: usize) -> (r: usize)
    requires
        0 < width,
        width * width <= usize::MAX,
        grid@.len() == width * width,
        pos < grid@.len(),
    ensures
        r == mine_count(grid@, width as int, pos as int),
        r == neighbor_mines(grid@, width as int, pos as int).len(),
        r <= 8,
{
    proof {
        lemma_mine_count_is_neighbor_mines(grid@, width as int, pos as int);
    }
    let n = try_get_tile(grid, width, pos, 0, -1) == 'X';
    let ne = try_get_tile(grid, width, pos, 1, -1) == 'X';
    let e = try_get_tile(grid, width, pos, 1, 0) == 'X';
    let se = try_get_tile(grid, width, pos, 1, 1) == 'X';
    let s = try_get_tile(grid, width, pos, 0, 1) == 'X';
    let sw = try_get_tile(grid, width, pos, -1, 1) == 'X';
    let w = try_get_tile(grid, width, pos, -1, 0) == 'X';
    let nw = try_get_tile(grid, width, pos, -1, -1) == 'X';
    one_if(n) + one_if(ne) + one_if(e) + one_if(se) + one_if(s) + one_if(sw) + one_if(w) + one_if(nw)
}

fn one_if(b: bool) -> (r: usize)
    ensures
        r == count_if(b),
{
    if b {
        1
    } else {
        0
    }
}

fn digit_char(n: usize) -> (r: char)
    requires
        n <= 8,
    ensures
        r == digit(n as nat),
{
    if n == 0 {
        '0'
    } else if n == 1 {
        '1'
    } else if n == 2 {
        '2'
    } else if n == 3 {
        '3'
    } else if n == 4 {
        '4'
    } else if n == 5 {
        '5'
    } else if n == 6 {
        '6'
    } else if n == 7 {
        '7'
    } else {
        '8'
    }
}

/// Annotates a square layout of mines (`'X'`) and empty cells (`'-'`): each
/// mine stays `'X'` and each empty cell becomes the digit that counts the
/// mines around it.
pub fn minesweeper(grid: &Vec<char>) -> (r: Result<Vec<char>, BoardError>)
    ensures
        !is_square(grid@.len() as int) ==> r == Err::<Vec<char>, BoardError>(
            BoardError::InvalidShape,
        ),
        is_square(grid@.len() as int) && !valid_layout(grid@) ==> r == Err::<Vec<char>, BoardError>(
            BoardError::InvalidCell,
        ),
        is_square(grid@.len() as int) && valid_layout(grid@) ==> r is Ok && r->Ok_0@ == annotation(
            grid@,
        ),
{
    let len = grid.len();
    let width = match square_width(len) {
        Some(w) => w,
        None => {
            return Err(BoardError::InvalidShape);
        },
    };
    proof {
        lemma_grid_width(width as int);
    }
    let mut solved: Vec<char> = Vec::new();
    let mut pos: usize = 0;
    while pos < len
        invariant
            len == grid@.len(),
            sq(width as int) == len,
            grid_width(len as int) == width,
            pos <= len,
            forall|i: int| 0 <= i < pos ==> (#[trigger] grid@[i] == 'X' || grid@[i] == '-'),
            solved@ == solved_grid(grid@, width as int).subrange(0, pos as int),
        decreases len - pos,
    {
        let tile = grid[pos];
        let solved_tile = if tile == 'X' {
            'X'
        } else if tile == '-' {
            digit_char(calculate_mine_count(grid, width, pos))
        } else {
            return Err(BoardError::InvalidCell);
        };
        solved.push(solved_tile);
        pos = pos + 1;
        assert(solved@ =~= solved_grid(grid@, width as int).subrange(0, pos as int));
    }
    assert(solved@ =~= solved_grid(grid@, width as int));
    Ok(solved)
}

/// Annotation is deterministic: equal layouts have equal solved grids.
pub proof fn lemma_annotation_deterministic(a: Seq<char>, b: Seq<char>)
    requires
        a == b,
    ensures
        annotation(a) == annotation(b),
{
}

/// In the solved grid of a square layout, a cell is a mine exactly where the
/// layout has one, and every other cell is the digit of the number of its
/// neighbours on the grid that hold a mine, which is at most eight.
pub proof fn lemma_annotation_cells(grid: Seq<char>, pos: int)
    requires
        is_square(grid.len() as int),
        valid_layout(grid),
        0 <= pos < grid.len(),
    ensures
        (annotation(grid)[pos] == 'X') == (grid[pos] == 'X'),
        ({
            let mines = neighbor_mines(grid, grid_width(grid.len() as int), pos);
            grid[pos] == '-' ==> mines.finite() && mines.len() <= 8 && annotation(grid)[pos]
                == digit(mines.len())
        }),
{
    let w = grid_width(grid.len() as int);
    assert(grid[pos] == 'X' || grid[pos] == '-');
    if grid.len() > 0 {
        assert(w * w == grid.len());
        if w == 0 {
            assert(w * w == 0);
        }
        lemma_mine_count_is_neighbor_mines(grid, w, pos);
    }
}

/// The cells that touch `pos` and hold a mine.
pub open spec fn neighbor_mines(grid: Seq<char>, w: int, pos: int) -> Set<int> {
    Set::new(|n: int| is_neighbor(w, pos, n) && grid[n] == 'X')
}

/// The mines at the first `k` compass offsets from `pos`.
spec fn mines_among(grid: Seq<char>, w: int, pos: int, k: int) -> Set<int>
    decreases k,
{
    if k <= 0 {
        Set::empty()
    } else {
        let prev = mines_among(grid, w, pos, k - 1);
        match offset_cell(w, pos, compass(k - 1).0, compass(k - 1).1) {
            Some(n) => if grid[n] == 'X' {
                prev.insert(n)
            } else {
                prev
            },
            None => prev,
        }
    }
}

/// The number of mines at the first `k` compass offsets from `pos`.
spec fn count_among(grid: Seq<char>, w: int, pos: int, k: int) -> nat
    decreases k,
{
    if k <= 0 {
        0
    } else {
        count_among(grid, w, pos, k - 1) + count_if(
            mine_at(grid, w, pos, compass(k - 1).0, compass(k - 1).1),
        )
    }
}

proof fn lemma_mines_among(grid: Seq<char>, w: int, pos: int, k: int)
    requires
        0 < w,
        0 <= k <= 8,
    ensures
        mines_among(grid, w, pos, k).finite(),
        mines_among(grid, w, pos, k).len() == count_among(grid, w, pos, k),
        forall|n: int|
            #[trigger] mines_among(grid, w, pos, k).contains(n) <==> exists|j: int|
                0 <= j < k && #[trigger] offset_cell(w, pos, compass(j).0, compass(j).1) == Some(n)
                    && grid[n] == 'X',
    decreases k,
{
    if k > 0 {
        lemma_mines_among(grid, w, pos, k - 1);
        let prev = mines_among(grid, w, pos, k - 1);
        let cur = mines_among(grid, w, pos, k);
        let (dx, dy) = compass(k - 1);
        if let Some(n) = offset_cell(w, pos, dx, dy) {
            if grid[n] == 'X' {
                assert(!prev.contains(n)) by {
                    if prev.contains(n) {
                        let j = choose|j: int|
                            0 <= j < k - 1 && #[trigger] offset_cell(w, pos, compass(j).0, compass(j).1)
                                == Some(n) && grid[n] == 'X';
                        lemma_offset_unique(w, pos, dx, dy, compass(j).0, compass(j).1);
                        lemma_compass(j, k - 1);
                    }
                }
            }
        }
        assert forall|n: int| #[trigger] cur.contains(n) <==> exists|j: int|
            0 <= j < k && #[trigger] offset_cell(w, pos, compass(j).0, compass(j).1) == Some(n)
                && grid[n] == 'X' by {
            if offset_cell(w, pos, dx, dy) == Some(n) && grid[n] == 'X' {
                assert(offset_cell(w, pos, compass(k - 1).0, compass(k - 1).1) == Some(n));
            }
            if exists|j: int|
                0 <= j < k && #[trigger] offset_cell(w, pos, compass(j).0, compass(j).1) == Some(n)
                    && grid[n] == 'X' {
                let j = choose|j: int|
                    0 <= j < k && #[trigger] offset_cell(w, pos, compass(j).0, compass(j).1)
                        == Some(n) && grid[n] == 'X';
                if j < k - 1 {
                    assert(prev.contains(n));
                }
            }
        }
    }
}

/// The count of a cell is the number of its neighbours that hold a mine.
pub proof fn lemma_mine_count_is_neighbor_mines(grid: Seq<char>, w: int, pos: int)
    requires
        0 < w,
    ensures
        neighbor_mines(grid, w, pos).finite(),
        mine_count(grid, w, pos) == neighbor_mines(grid, w, pos).len(),
        mine_count(grid, w, pos) <= 8,
{
    lemma_mines_among(grid, w, pos, 8);
    reveal_with_fuel(count_among, 9);
    let all = mines_among(grid, w, pos, 8);
    assert forall|n: int| #[trigger] all.contains(n) == neighbor_mines(grid, w, pos).contains(n) by {
        if all.contains(n) {
            let j = choose|j: int|
                0 <= j < 8 && #[trigger] offset_cell(w, pos, compass(j).0, compass(j).1) == Some(n)
                    && grid[n] == 'X';
            lemma_compass(j, j);
        }
        if neighbor_mines(grid, w, pos).contains(n) {
            let (dx, dy) = choose|dx: int, dy: int|
                is_offset(dx, dy) && #[trigger] offset_cell(w, pos, dx, dy) == Some(n);
            let j = lemma_offset_is_compass(dx, dy);
            assert(offset_cell(w, pos, compass(j).0, compass(j).1) == Some(n));
        }
    }
    assert(all =~= neighbor_mines(grid, w, pos));
}

} // verus!
