//! Building mine layouts, with mines at chosen or at random cells.

use rand::Rng;
use vstd::prelude::*;

verus! {

/// The layout of `len` cells with a mine at each index in `mines` and empty
/// cells elsewhere.
pub open spec fn layout_of(len: int, mines: Seq<usize>) -> Seq<char> {
    Seq::new(len as nat, |i: int| if mines.contains(i as usize) { 'X' } else { '-' })
}

/// Relies on `rand::thread_rng` and `Rng::gen_range`, which returns a value of
/// the half-open range `0..len` and panics on an empty range.
#[verifier::external_body]
fn random_index(len: usize) -> (r: usize)
    requires
        0 < len,
    ensures
        r < len,
{
    rand::thread_rng().gen_range(0..len)
}

/// A `width` x `width` layout with a mine at each cell listed in `mines`.
pub fn place_mines(width: u16, mines: &Vec<usize>) -> (r: Vec<char>)
    requires
        forall|k: int| 0 <= k < mines@.len() ==> #[trigger] mines@[k] < width * width,
    ensures
        r@ == layout_of(width * width, mines@),
{
    assert(width as int * width as int <= 0xffff_ffff && (width > 0 ==> width * width > 0))
        by (nonlinear_arith)
        requires
            width <= 0xffff,
    ;
    let len = width as usize * width as usize;
    let mut board: Vec<char> = Vec::new();
    let mut i: usize = 0;
    while i < len
        invariant
            len == width * width,
            i <= len,
            board@ == layout_of(i as int, seq![]),
        decreases len - i,
    {
        board.push('-');
        i = i + 1;
        assert(board@ =~= layout_of(i as int, seq![]));
    }
    let mut k: usize = 0;
    while k < mines.len()
        invariant
            len == width * width,
            k <= mines@.len(),
            forall|j: int| 0 <= j < mines@.len() ==> #[trigger] mines@[j] < width * width,
            board@ == layout_of(len as int, mines@.subrange(0, k as int)),
        decreases mines@.len() - k,
    {
        let m = mines[k];
        board.set(m, 'X');
        proof {
            let done = mines@.subrange(0, k as int);
            let next = mines@.subrange(0, k as int + 1);
            assert(next == done.push(m));
            assert forall|i: int| 0 <= i < len implies #[trigger] next.contains(i as usize) == (done.contains(
                i as usize,
            ) || i == m as int) by {
                if next.contains(i as usize) && !done.contains(i as usize) {
                    let j = choose|j: int| 0 <= j < next.len() && next[j] == i as usize;
                    if j < done.len() {
                        assert(done[j] == next[j]);
                    }
                }
                if done.contains(i as usize) {
                    let j = choose|j: int| 0 <= j < done.len() && done[j] == i as usize;
                    assert(next[j] == done[j]);
                }
                if i == m as int {
                    assert(next[k as int] == m);
                }
            }
        }
        k = k + 1;
        assert(board@ =~= layout_of(len as int, mines@.subrange(0, k as int)));
    }
    assert(mines@.subrange(0, mines@.len() as int) == mines@);
    board
}

/// A `width` x `width` layout with `mines` mines dropped on random cells; two
/// drops may land on the same cell. A board without cells gets no mines.
pub fn generate_board(width: u16, mines: u8) -> (r: Vec<char>)
    ensures
        exists|drops: Seq<usize>|
            drops.len() == (if width > 0 { mines as int } else { 0 }) && (forall|k: int|
                0 <= k < drops.len() ==> #[trigger] drops[k] < width * width) && #[trigger] layout_of(
                width * width,
                drops,
            ) == r@,
{
    assert(width as int * width as int <= 0xffff_ffff && (width > 0 ==> width * width > 0))
        by (nonlinear_arith)
        requires
            width <= 0xffff,
    ;
    let len = width as usize * width as usize;
    let mut drops: Vec<usize> = Vec::new();
    if len > 0 {
        let mut k: u8 = 0;
        while k < mines
            invariant
                0 < len,
                len == width * width,
                k <= mines,
                drops@.len() == k,
                forall|j: int| 0 <= j < drops@.len() ==> #[trigger] drops@[j] < len,
            decreases mines - k,
        {
            drops.push(random_index(len));
            k = k + 1;
        }
    }
    let board = place_mines(width, &drops);
    assert(layout_of(width * width, drops@) == board@);
    board
}

} // verus!
