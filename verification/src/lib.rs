//! A sliding-tile game on a board of four by four cells: tiles slide and
//! merge at the player's command, a new tile comes after each move, and the
//! game is over when nothing can move any more.
//!
//! `merge` collapses one line of tiles, `board` says what a move, a new tile
//! and the end of the game are, `room` shows that the tiles never outgrow
//! their cells, `game` holds the board and the game, `app` the game with its
//! queue of commands, and `display` what a cell looks like on the screen.

pub mod app;
pub mod board;
pub mod display;
pub mod game;
pub mod merge;
mod random;
pub mod room;
pub mod utils;
