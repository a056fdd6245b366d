//! The decisions behind the C interface that the Doom engine (written in C) calls: the
//! framebuffer record it is handed, its millisecond clock, its sleep, its
//! key poll and the frame pacing of its main loop.
use vstd::prelude::*;

verus! {

/// The framebuffer as the C side sees it: its address, its length in
/// bytes and its size in pixels.
#[derive(Clone, Copy, Debug, PartialEq, Eq)]
pub struct TgFramebufferInfo {
    pub ptr: usize,
    pub len: usize,
    pub width: usize,
    pub height: usize,
}

/// Milliseconds between two frames of the main loop.
pub const FRAME_TIME_MS: u32 = 28;

/// Fills the record the C side asked for from what the kernel reported:
/// 0 and the four values when there is a framebuffer, -1 and the record
/// untouched when there is none.
pub fn store_framebuffer_info(out: &mut TgFramebufferInfo, info: Option<(usize, usize, usize, usize)>) -> (r: i32)
    ensures
        match info {
            Some((ptr, len, width, height)) => {
                &&& r == 0
                &&& *final(out) == (TgFramebufferInfo { ptr, len, width, height })
            },
            None => r == -1 && *final(out) == *old(out),
        },
{
    match info {
        Some((ptr, len, width, height)) => {
            out.ptr = ptr;
            out.len = len;
            out.width = width;
            out.height = height;
            0
        },
        None => -1,
    }
}

/// The clock in milliseconds as the C side reads it: a negative reading
/// counts as 0, and the value is cut to 32 bits as Rust's `as` does.
pub fn ticks_ms(time: isize) -> (t: u32)
    ensures
        t == (if time < 0 { 0 } else { time }) as u32,
{
    let t = if time < 0 { 0 } else { time };
    t as u32
}

/// When a sleep of `ms` milliseconds begun at `start` ends: their sum, held
/// at the largest value instead of wrapping.
pub fn sleep_ms_deadline(start: u32, ms: u32) -> (d: u32)
    ensures
        d == if start + ms > u32::MAX { u32::MAX as int } else { start + ms },
{
    start.saturating_add(ms)
}

/// A key poll as the C side reads it: the key's code, or -1 when no key
/// is waiting.
pub fn getchar_code(c: Option<u8>) -> (code: i32)
    ensures
        code == match c {
            Some(b) => b as int,
            None => -1,
        },
{
    match c {
        Some(b) => b as i32,
        None => -1,
    }
}

/// The bytes of the framebuffer that the game may draw in: those of
/// `width` by `height` pixels of four bytes, but no more than the `fb_len`
/// there are, and 0 (the game gives up) when the size overflows.
pub fn frame_used_len(width: usize, height: usize, fb_len: usize) -> (used: usize)
    ensures
        used == if width * height * 4 > usize::MAX {
            0
        } else if width * height * 4 < fb_len {
            width * height * 4
        } else {
            fb_len as int
        },
{
    let bytes = match width.checked_mul(height) {
        Some(pixels) => match pixels.checked_mul(4) {
            Some(b) => b,
            None => 0,
        },
        None => 0,
    };
    proof {
        if width * height > usize::MAX {
            assert(width * height * 4 > usize::MAX);
        }
    }
    if bytes < fb_len {
        bytes
    } else {
        fb_len
    }
}

/// The main loop's pacing at time `now` when the next frame is due at
/// `next_frame_ms`: `None` while it is not due (the loop yields), else the
/// time the frame after it is due, `FRAME_TIME_MS` later, held at the
/// largest value.
pub fn frame_due(now: u32, next_frame_ms: u32) -> (next: Option<u32>)
    ensures
        next == if now < next_frame_ms {
            None::<u32>
        } else if now + FRAME_TIME_MS > u32::MAX {
            Some(u32::MAX)
        } else {
            Some((now + FRAME_TIME_MS) as u32)
        },
{
    if now < next_frame_ms {
        None
    } else {
        Some(now.saturating_add(FRAME_TIME_MS))
    }
}

} // verus!
