use user_lib::mode::{
    mode_color, mode_for_key, mode_id, set_input_mode, set_input_mode_polling, InputMode, SyscallRequest,
    COLOR_MODE_IRQ, COLOR_MODE_POLL, MODE_POLLING, SYSCALL_SET_INPUT_MODE,
};

#[test]
fn mode_numbers_and_colours() {
    assert_eq!(mode_id(InputMode::Polling), 0);
    assert_eq!(mode_id(InputMode::InterruptLike), 1);
    assert_eq!(mode_color(InputMode::Polling), 0xffffc107);
    assert_eq!(mode_color(InputMode::InterruptLike), 0xff42a5f5);
    assert_eq!(COLOR_MODE_POLL, 0xffffc107);
    assert_eq!(COLOR_MODE_IRQ, 0xff42a5f5);
}

#[test]
fn mode_system_calls() {
    assert_eq!(
        set_input_mode(InputMode::InterruptLike),
        SyscallRequest { id: 0x1000_0003, arg0: 1, arg1: 0 }
    );
    assert_eq!(set_input_mode(InputMode::Polling), SyscallRequest { id: SYSCALL_SET_INPUT_MODE, arg0: 0, arg1: 0 });
    assert_eq!(set_input_mode_polling(), SyscallRequest { id: 0x1000_0003, arg0: MODE_POLLING, arg1: 0 });
}

#[test]
fn keys_choose_a_mode() {
    assert_eq!(mode_for_key(b'p'), Some(InputMode::Polling));
    assert_eq!(mode_for_key(b'P'), Some(InputMode::Polling));
    assert_eq!(mode_for_key(b'i'), Some(InputMode::InterruptLike));
    assert_eq!(mode_for_key(b'I'), Some(InputMode::InterruptLike));
    assert_eq!(mode_for_key(b'x'), None);
    assert_eq!(mode_for_key(b'\n'), None);
}
