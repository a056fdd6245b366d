use user_lib::framebuffer::{fill_rect, paint, put_pixel, saturating_mul, used_len, Rect};

#[test]
fn pixel_is_stored_little_endian() {
    let mut fb = vec![0u8; 4 * 4 * 2];
    put_pixel(&mut fb, 4, 1, 1, 0xaabbccdd);
    let idx = (1 * 4 + 1) * 4;
    assert_eq!(&fb[idx..idx + 4], &[0xdd, 0xcc, 0xbb, 0xaa]);
    assert_eq!(fb.iter().filter(|&&b| b != 0).count(), 4);
}

#[test]
fn pixel_outside_row_or_buffer_is_skipped() {
    let mut fb = vec![0u8; 4 * 4 * 2];
    put_pixel(&mut fb, 4, 4, 0, 0xffffffff);
    put_pixel(&mut fb, 4, 0, 2, 0xffffffff);
    assert!(fb.iter().all(|&b| b == 0));
}

#[test]
fn rectangle_is_filled_and_clipped() {
    let mut fb = vec![0u8; 4 * 3 * 3];
    fill_rect(&mut fb, 3, 1, 1, 5, 5, 0x01020304);
    for y in 0..3 {
        for x in 0..3 {
            let idx = (y * 3 + x) * 4;
            let inside = x >= 1 && y >= 1;
            let expect: [u8; 4] = if inside { [4, 3, 2, 1] } else { [0, 0, 0, 0] };
            assert_eq!(&fb[idx..idx + 4], &expect, "pixel {x},{y}");
        }
    }
}

#[test]
fn rectangles_are_painted_in_order() {
    let mut fb = vec![0u8; 4 * 2 * 1];
    let rects = vec![
        Rect { x: 0, y: 0, w: 2, h: 1, color: 0x11111111 },
        Rect { x: 1, y: 0, w: 1, h: 1, color: 0x22222222 },
    ];
    paint(&mut fb, 2, &rects);
    assert_eq!(fb, vec![0x11, 0x11, 0x11, 0x11, 0x22, 0x22, 0x22, 0x22]);
}

#[test]
fn saturating_product() {
    assert_eq!(saturating_mul(6, 7), 42);
    assert_eq!(saturating_mul(usize::MAX, 2), usize::MAX);
}

#[test]
fn usable_framebuffer_length() {
    assert_eq!(used_len(4, 3, 48), Some(48));
    assert_eq!(used_len(4, 3, 100), Some(48));
    assert_eq!(used_len(4, 3, 47), None);
    assert_eq!(used_len(0, 3, 100), None);
    assert_eq!(used_len(usize::MAX, 3, 100), None);
}
