# user_lib

The user-side library of a small teaching operating system, with four
console games (Tetris, Snake, Breakout, Ping-Pong), a tangram picture and
the C interface of a Doom engine. Everything that decides something is
written in Verus and checked against its contract; reading the keyboard,
the clock and the framebuffer, and issuing system calls, is left to the
programs in `app/`.

## Layout

- `src/framebuffer.rs`: 32-bit pixels in a byte buffer, rectangles and
  painting a list of them.
- `src/mode.rs`: the keyboard input mode and the system call that sets it.
- `src/tetris.rs`, `src/snake.rs`, `src/breakout.rs`, `src/pingpong.rs`:
  each game's state, its steps and keys, and the rectangles a frame
  redraws. Breakout also saves and restores a game as a 44-byte record.
- `src/tangram.rs`: the pieces of the picture and the triangle rasteriser.
- `src/runtime.rs`: clock arithmetic, the framebuffer registers, file names
  and flags for `open`, the bump allocator's step, trace results and the
  steps of pipe transfers. Calls into `tg_syscall` that only compute
  (`TimeSpec` arithmetic, `OpenFlags`) are made here.
- `src/doom.rs`: the framebuffer record, clock, sleep, key poll and frame
  pacing of the Doom interface.
- `tests/`: examples for every module.
- `app/`: the programs' main loops, the system calls, and the exported C
  functions.
