//! A box-pushing puzzle engine. The player walks a board of squares and
//! pushes crates onto targets; a level is solved once every crate stands
//! on one.
//!
//! The engine keeps no window, file or clock. It takes the text of the
//! level file and of the score file, commands, and milliseconds, and hands
//! back what to draw, what to write and whether to go on. Every rule is
//! stated as a contract and proved.
//!
//! - `cell`, `grid`: the squares and the board, and what is counted on it.
//! - `text`: lines, fields and decimal numbers in a sequence of characters.
//! - `level`: the level file.
//! - `score`: the score file.
//! - `state`: the state of play and the undo history.
//! - `game`: moves, undo, snapshots, levels, the clock.
//! - `session`: commands.
//! - `render`: pictures, places on screen, the status line.
//! - `laws`: what holds of every game.

pub mod cell;
pub mod game;
pub mod grid;
pub mod laws;
pub mod level;
pub mod render;
pub mod score;
pub mod session;
pub mod state;
pub mod text;
