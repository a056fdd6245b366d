use user_lib::tangram::{
    bgra, draw_triangle, edge, maybe_flip_x, mesh_point, os_tangram_block, render_block_by_index, render_blocks,
    render_one_block, rotate_45, same_sign, scale_and_offset, translate, Point, BLOCK_COUNT,
};

fn pt(x: i32, y: i32) -> Point {
    Point { x, y }
}

fn pixel(fb: &[u8], width: usize, x: usize, y: usize) -> u32 {
    let i = (y * width + x) * 4;
    u32::from_le_bytes([fb[i], fb[i + 1], fb[i + 2], fb[i + 3]])
}

#[test]
fn colours() {
    assert_eq!(bgra(255, 84, 84), 0xffff5454);
    assert_eq!(bgra(0, 0, 0), 0xff000000);
    assert_eq!(bgra(1, 2, 3), 0xff010203);
}

#[test]
fn eighth_turns() {
    let p = pt(10, 0);
    assert_eq!(rotate_45(p, 0), pt(10, 0));
    assert_eq!(rotate_45(p, 1), pt(7, 7));
    assert_eq!(rotate_45(p, 2), pt(0, 10));
    assert_eq!(rotate_45(p, 3), pt(-8, 7));
    assert_eq!(rotate_45(p, 4), pt(-10, 0));
    assert_eq!(rotate_45(p, 5), pt(-8, -8));
    assert_eq!(rotate_45(p, 6), pt(0, -10));
    assert_eq!(rotate_45(p, 7), pt(7, -8));
    // Only the low three bits count.
    assert_eq!(rotate_45(p, 9), pt(7, 7));
    assert_eq!(rotate_45(pt(3, -4), 2), pt(4, 3));
}

#[test]
fn quarter_turns_compose() {
    let p = pt(17, -5);
    assert_eq!(rotate_45(rotate_45(p, 2), 2), rotate_45(p, 4));
    assert_eq!(rotate_45(rotate_45(p, 2), 6), p);
}

#[test]
fn flip_move_and_scale() {
    assert_eq!(maybe_flip_x(pt(3, 4), true), pt(-3, 4));
    assert_eq!(maybe_flip_x(pt(3, 4), false), pt(3, 4));
    assert_eq!(translate(pt(3, 4), pt(100, -10)), pt(103, -6));
    assert_eq!(scale_and_offset(pt(100, -100), 512, pt(5, 6)), pt(55, -44));
    // The shift rounds towards minus infinity.
    assert_eq!(scale_and_offset(pt(-3, 3), 512, pt(0, 0)), pt(-2, 1));
}

#[test]
fn edges_and_signs() {
    assert_eq!(edge(pt(0, 0), pt(10, 0), pt(0, 10)), 100);
    assert_eq!(edge(pt(0, 0), pt(0, 10), pt(10, 0)), -100);
    assert_eq!(edge(pt(0, 0), pt(10, 10), pt(5, 5)), 0);
    assert!(same_sign(0, -5));
    assert!(same_sign(0, 5));
    assert!(same_sign(-2, -3));
    assert!(!same_sign(3, -1));
}

#[test]
fn pieces_of_the_picture() {
    let b = os_tangram_block(0);
    assert_eq!(b.pos, pt(210, 210));
    assert_eq!(b.color, 0xffff5454);
    assert_eq!((b.rot45, b.flip_x, b.mesh), (0, false, 2));
    let f = os_tangram_block(6);
    assert!(f.flip_x);
    assert_eq!(mesh_point(2, 0, 1), pt(32, -32));
    assert_eq!(mesh_point(4, 1, 2), pt(-32, 32));
    assert_eq!(BLOCK_COUNT, 14);
}

#[test]
fn a_triangle_is_filled_edges_included() {
    let mut fb = vec![0u8; 10 * 10 * 4];
    draw_triangle(&mut fb, 10, 10, [pt(0, 0), pt(9, 0), pt(0, 9)], 0xff00ff00);
    assert_eq!(pixel(&fb, 10, 0, 0), 0xff00ff00);
    assert_eq!(pixel(&fb, 10, 9, 0), 0xff00ff00);
    assert_eq!(pixel(&fb, 10, 4, 4), 0xff00ff00);
    assert_eq!(pixel(&fb, 10, 5, 5), 0);
    assert_eq!(pixel(&fb, 10, 9, 9), 0);
    let lit = (0..100).filter(|&p| pixel(&fb, 10, p % 10, p / 10) != 0).count();
    assert_eq!(lit, 55);
}

#[test]
fn a_flat_or_offscreen_triangle_draws_nothing() {
    let mut fb = vec![0u8; 10 * 10 * 4];
    draw_triangle(&mut fb, 10, 10, [pt(0, 0), pt(5, 5), pt(9, 9)], 0xffffffff);
    draw_triangle(&mut fb, 10, 10, [pt(20, 20), pt(30, 20), pt(20, 30)], 0xffffffff);
    assert!(fb.iter().all(|&b| b == 0));
}

#[test]
fn first_piece_at_half_scale() {
    let mut fb = vec![0u8; 640 * 400 * 4];
    render_block_by_index(&mut fb, 640, 400, 0);
    // Corners (178, 178), (242, 178), (178, 242) halved.
    assert_eq!(pixel(&fb, 640, 90, 90), 0xffff5454);
    assert_eq!(pixel(&fb, 640, 89, 89), 0xffff5454);
    assert_eq!(pixel(&fb, 640, 120, 120), 0);
    assert_eq!(pixel(&fb, 640, 88, 90), 0);
    let mut again = vec![0u8; 640 * 400 * 4];
    render_one_block(&mut again, 640, 400, &os_tangram_block(0));
    assert_eq!(fb, again);
}

#[test]
fn pieces_past_the_last_draw_nothing() {
    let mut fb = vec![0u8; 64 * 40 * 4];
    render_block_by_index(&mut fb, 64, 40, BLOCK_COUNT);
    render_blocks(&mut fb, 64, 40, 0);
    assert!(fb.iter().all(|&b| b == 0));
}

#[test]
fn the_whole_picture_is_every_piece_in_order() {
    let mut all = vec![0u8; 320 * 200 * 4];
    render_blocks(&mut all, 320, 200, 100);
    let mut one_by_one = vec![0u8; 320 * 200 * 4];
    for i in 0..BLOCK_COUNT {
        render_block_by_index(&mut one_by_one, 320, 200, i);
    }
    assert_eq!(all, one_by_one);
    assert!(all.iter().any(|&b| b != 0));
}

#[test]
fn unit_and_zero_scales() {
    assert_eq!(scale_and_offset(pt(123_456, -7_000_000), 1024, pt(10, 20)), pt(123_466, -6_999_980));
    assert_eq!(scale_and_offset(pt(123_456, -7_000_000), 0, pt(10, 20)), pt(10, 20));
}

#[test]
fn a_triangle_on_a_very_wide_screen() {
    let width = 1usize << 21;
    let mut fb = vec![0u8; width * 4];
    draw_triangle(&mut fb, width, 1, [pt(100, 0), pt(2_000_000, 0), pt(100, 5)], 0xff123456);
    assert_eq!(pixel(&fb, width, 100, 0), 0xff123456);
    assert_eq!(pixel(&fb, width, 2_000_000, 0), 0xff123456);
    assert_eq!(pixel(&fb, width, 99, 0), 0);
    assert_eq!(pixel(&fb, width, 2_000_001, 0), 0);
}

#[test]
fn a_triangle_reaching_far_off_the_screen() {
    let mut fb = vec![0u8; 16 * 4 * 4];
    draw_triangle(&mut fb, 16, 4, [pt(0, 0), pt(1_000_000_000, 0), pt(0, 3)], 0xff00ff00);
    for y in 0..3 {
        for x in 0..16 {
            assert_eq!(pixel(&fb, 16, x, y), 0xff00ff00);
        }
    }
    assert_eq!(pixel(&fb, 16, 0, 3), 0xff00ff00);
    for x in 1..16 {
        assert_eq!(pixel(&fb, 16, x, 3), 0);
    }
}
