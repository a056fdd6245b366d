//! How the games read the keyboard, and the system call that chooses it.
use vstd::prelude::*;

verus! {

/// Whether the console is polled for keys or delivers them as they come.
#[derive(Clone, Copy, Debug, PartialEq, Eq)]
pub enum InputMode {
    Polling,
    InterruptLike,
}

/// The number of the system call that sets the console input mode.
pub const SYSCALL_SET_INPUT_MODE: usize = 0x1000_0003;
/// The argument of that system call that selects polling.
pub const MODE_POLLING: usize = 0;
/// Colour of the mode bar in polling mode.
pub const COLOR_MODE_POLL: u32 = 0xffffc107;
/// Colour of the mode bar in interrupt-like mode.
pub const COLOR_MODE_IRQ: u32 = 0xff42a5f5;

/// A system call for the caller to issue: its number and two arguments
/// (an argument that the call does not read is 0).
#[derive(Clone, Copy, Debug, PartialEq, Eq)]
pub struct SyscallRequest {
    pub id: usize,
    pub arg0: usize,
    pub arg1: usize,
}

pub open spec fn spec_mode_id(mode: InputMode) -> u8 {
    match mode {
        InputMode::Polling => 0,
        InputMode::InterruptLike => 1,
    }
}

/// The number of a mode: 0 for polling, 1 for interrupt-like.
pub fn mode_id(mode: InputMode) -> (id: u8)
    ensures
        id == spec_mode_id(mode),
{
    match mode {
        InputMode::Polling => 0,
        InputMode::InterruptLike => 1,
    }
}

pub open spec fn spec_mode_color(mode: InputMode) -> u32 {
    match mode {
        InputMode::Polling => COLOR_MODE_POLL,
        InputMode::InterruptLike => COLOR_MODE_IRQ,
    }
}

/// The colour of the bar that shows the mode.
pub fn mode_color(mode: InputMode) -> (color: u32)
    ensures
        color == spec_mode_color(mode),
{
    match mode {
        InputMode::Polling => COLOR_MODE_POLL,
        InputMode::InterruptLike => COLOR_MODE_IRQ,
    }
}

/// The system call that switches the console to `mode`.
pub fn set_input_mode(mode: InputMode) -> (req: SyscallRequest)
    ensures
        req == (SyscallRequest { id: SYSCALL_SET_INPUT_MODE, arg0: spec_mode_id(mode) as usize, arg1: 0 }),
{
    SyscallRequest { id: SYSCALL_SET_INPUT_MODE, arg0: mode_id(mode) as usize, arg1: 0 }
}

/// The system call that switches the console to polling.
pub fn set_input_mode_polling() -> (req: SyscallRequest)
    ensures
        req == (SyscallRequest { id: SYSCALL_SET_INPUT_MODE, arg0: MODE_POLLING, arg1: 0 }),
{
    SyscallRequest { id: SYSCALL_SET_INPUT_MODE, arg0: MODE_POLLING, arg1: 0 }
}

/// The mode that a key at the start screen chooses: `p` or `P` polling,
/// `i` or `I` interrupt-like, any other key none.
pub fn mode_for_key(key: u8) -> (mode: Option<InputMode>)
    ensures
        mode == if key == 0x70 || key == 0x50 {
            Some(InputMode::Polling)
        } else if key == 0x69 || key == 0x49 {
            Some(InputMode::InterruptLike)
        } else {
            None::<InputMode>
        },
{
    if key == 0x70 || key == 0x50 {
        Some(InputMode::Polling)
    } else if key == 0x69 || key == 0x49 {
        Some(InputMode::InterruptLike)
    } else {
        None
    }
}

} // verus!
