//! Chain resolution and placement search for a falling-block matching game
//! on a board of thirteen rows and six columns.
//!
//! A puzzle gives a board, a list of two-cell pieces and a chain length. The
//! search places the pieces one after the other and looks for a placement
//! after which the chain of the board has exactly that length.
//!
//! * `grid`, `group` and `search` hold the mathematics: what a board is, what
//!   gravity does, which cells form a matching group, what a chain leaves,
//!   and which board the search returns.
//! * `field` holds the board contract `Field` and what is computed through
//!   it: the top of a column, a pending match, a chain. `naive_field`,
//!   `field1d` and `field_naive_bit` are the three storage layouts.
//! * `sweep` finds and clears the matching groups of one round.
//! * `nazopuyo_solver` is the search, `memo` the set of boards it has met,
//!   `naive_next_puyo` and `nazopuyo_info` the pieces and the puzzle.
//! * `replay` runs a list of operations on a board of any layout.

pub mod field;
pub mod field1d;
pub mod field_naive_bit;
pub mod grid;
pub mod group;
pub mod memo;
pub mod naive_field;
pub mod naive_next_puyo;
pub mod nazopuyo_info;
pub mod nazopuyo_solver;
pub mod replay;
pub mod search;
pub mod sweep;
