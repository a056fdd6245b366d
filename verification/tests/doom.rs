use user_lib::doom::{
    frame_due, frame_used_len, getchar_code, sleep_ms_deadline, store_framebuffer_info, ticks_ms,
    TgFramebufferInfo, FRAME_TIME_MS,
};

fn empty() -> TgFramebufferInfo {
    TgFramebufferInfo { ptr: 0, len: 0, width: 0, height: 0 }
}

#[test]
fn framebuffer_record_filled() {
    let mut out = empty();
    assert_eq!(store_framebuffer_info(&mut out, Some((0x1000, 640 * 480 * 4, 640, 480))), 0);
    assert_eq!(out, TgFramebufferInfo { ptr: 0x1000, len: 640 * 480 * 4, width: 640, height: 480 });
}

#[test]
fn framebuffer_record_missing() {
    let mut out = TgFramebufferInfo { ptr: 1, len: 2, width: 3, height: 4 };
    assert_eq!(store_framebuffer_info(&mut out, None), -1);
    assert_eq!(out, TgFramebufferInfo { ptr: 1, len: 2, width: 3, height: 4 });
}

#[test]
fn ticks_clip_negative_and_wrap() {
    assert_eq!(ticks_ms(-5), 0);
    assert_eq!(ticks_ms(1234), 1234);
    assert_eq!(ticks_ms(0x1_0000_0005), 5);
}

#[test]
fn sleep_deadline_saturates() {
    assert_eq!(sleep_ms_deadline(100, 28), 128);
    assert_eq!(sleep_ms_deadline(u32::MAX - 3, 10), u32::MAX);
}

#[test]
fn key_codes() {
    assert_eq!(getchar_code(Some(b'w')), 119);
    assert_eq!(getchar_code(Some(255)), 255);
    assert_eq!(getchar_code(None), -1);
}

#[test]
fn used_length_of_the_framebuffer() {
    assert_eq!(frame_used_len(320, 200, 320 * 200 * 4), 320 * 200 * 4);
    assert_eq!(frame_used_len(320, 200, 1000), 1000);
    assert_eq!(frame_used_len(320, 200, 1_000_000), 256_000);
    assert_eq!(frame_used_len(0, 200, 1000), 0);
    assert_eq!(frame_used_len(usize::MAX, 2, 1000), 0);
}

#[test]
fn frame_pacing() {
    assert_eq!(frame_due(99, 100), None);
    assert_eq!(frame_due(100, 100), Some(100 + FRAME_TIME_MS));
    assert_eq!(frame_due(150, 100), Some(178));
    assert_eq!(frame_due(u32::MAX - 1, 0), Some(u32::MAX));
}
