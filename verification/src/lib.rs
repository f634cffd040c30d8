//! A terminal runtime for turn-based full-screen applications: it decodes
//! the bytes of a keyboard, a mouse or a Telnet connection into key and
//! mouse events, works out the control sequences that bring the terminal
//! from what it shows to what the application wants it to show, and hands
//! keys and timer ticks to the application in the order of their arrival.
//! A minesweeper is the application that comes with it.
//!
//! Nothing here reads or writes: the library takes the bytes that were read
//! and returns the bytes to write.

pub mod game;
pub mod key;
pub mod minesweeper;
pub mod runner;
pub mod screen;
