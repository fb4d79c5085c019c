//! Othello: the rules of the game on 64-bit masks, a Monte Carlo tree search
//! for a strong move, and a board of squares for a game against a person.
//!
//! - `grid` and `rules` say what the squares, the directions and the legal
//!   moves are;
//! - `flood` holds the bit-parallel search for legal squares and its proof;
//! - `bitboard` is the position that the search works on;
//! - `random` and `clock` hold the random source and the time budget;
//! - `search` is the tree search;
//! - `board` and `game` are the board that is shown and the game on it.
pub mod bitboard;
pub mod board;
pub mod clock;
pub mod flood;
pub mod game;
pub mod grid;
pub mod random;
pub mod rules;
pub mod search;
