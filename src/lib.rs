//! A chess-like rules engine on boards of any size, with a move search.
//!
//! `pos` holds coordinates, `piece` the colors, pieces and actions, `board`
//! the grid with lookup, playing and move listing, `rules` each piece's
//! candidate moves, `game` the starting position, `ai` the evaluation and
//! the negamax search, `notation` the text of a move, and `symmetry` the
//! proof that the search treats both colors alike.
pub mod pos;
pub mod piece;
pub mod board;
pub mod rules;
pub mod game;
pub mod ai;
pub mod notation;
pub mod symmetry;
