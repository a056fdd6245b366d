//! The game and drawing logic of a small set of console games (Tetris,
//! Snake, Breakout, Ping-Pong) and of a tangram picture, and the decisions
//! of the user runtime and of the C interface of a Doom engine, written so
//! that every step is checked by Verus. Reading input, the clock and the
//! framebuffer device, and issuing system calls, stays with the caller;
//! this crate decides what the programs do and which pixels change.

pub mod framebuffer;
pub mod mode;
pub mod breakout;
pub mod tetris;
pub mod snake;
pub mod pingpong;
pub mod tangram;
pub mod runtime;
pub mod doom;
