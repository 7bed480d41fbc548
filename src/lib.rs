//! A verified Minesweeper board engine: a square mine layout is annotated
//! with adjacency counts, player reveals flood across zero-count regions, and
//! a win check compares the visible board with the solution.

pub mod annotate;
pub mod geometry;
pub mod layout;
pub mod flood;

pub use geometry::{neighbor_index, square_width};
pub use annotate::{calculate_mine_count, minesweeper, try_get_tile, BoardError};
pub use flood::{expand_surrounding_0s, is_win, process_move, reveal_tile, MoveError, RevealOutcome};
pub use layout::{generate_board, place_mines};
