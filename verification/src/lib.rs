//! A solver for the numeral-elimination puzzle played on rows of numbered
//! cells: boards, their legal moves, and a best-first search for a shortest
//! winning sequence of moves.
//!
//! A board is a sequence of cells read row by row. A move duplicates the
//! live cells of the board, or crosses out two live cells that match and
//! are neighbours down a column or in reading order. The board is solved
//! when no live cell is left.

pub mod board;
pub mod cell;
pub mod compaction;
pub mod consistency;
pub mod digest;
pub mod frontier;
pub mod laws;
pub mod layout;
pub mod moves;
pub mod notation;
pub mod optimality;
pub mod path;
pub mod search;
