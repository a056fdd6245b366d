use user_lib::breakout::{
    build_layout, decode_bricks, decode_save, encode_bricks, encode_save, get_i32, get_u32, handle_key, put_i32,
    put_u32, render, run_ticks, tick_steps, transfer_step, Ball, Game, KeyOutcome, Layout, RenderState,
    BRICK_COUNT, COLOR_BALL, COLOR_BG, COLOR_BRICK_A, COLOR_BRICK_E, COLOR_FIELD, COLOR_PADDLE, SAVE_BYTES,
    SAVE_MAGIC,
};
use user_lib::mode::InputMode;

fn layout() -> Layout {
    build_layout(640, 480)
}

fn pixel(fb: &[u8], width: usize, x: usize, y: usize) -> u32 {
    let i = (y * width + x) * 4;
    u32::from_le_bytes([fb[i], fb[i + 1], fb[i + 2], fb[i + 3]])
}

#[test]
fn breakout_layout_of_a_screen() {
    let l = layout();
    assert_eq!((l.field_x, l.field_y, l.field_w, l.field_h), (32, 60, 576, 384));
    assert_eq!((l.paddle_w, l.paddle_h, l.ball_s), (82, 10, 8));
    assert_eq!((l.brick_top, l.brick_gap, l.brick_w, l.brick_h), (16, 2, 55, 14));
}

#[test]
fn breakout_new_game() {
    let l = layout();
    let g = Game::new(&l);
    assert_eq!(g.paddle_x, 247);
    assert_eq!(g.ball, Ball { x: 284, y: 356, vx: 2, vy: -2 });
    assert_eq!((g.score, g.lives), (0, 3));
    assert!(g.bricks.iter().all(|&b| b));
    assert!(g.running && !g.paused && !g.quit);
    assert!(!g.won());
    assert_eq!(g.paddle_y(&l), 366);
}

#[test]
fn ball_is_served_by_score_parity() {
    let l = layout();
    let mut g = Game::new(&l);
    g.score = 7;
    g.reset_ball(&l);
    assert_eq!(g.ball, Ball { x: 284, y: 356, vx: -2, vy: -2 });
}

#[test]
fn paddle_stays_in_the_field() {
    let l = layout();
    let mut g = Game::new(&l);
    g.move_paddle(&l, -1000);
    assert_eq!(g.paddle_x, 0);
    g.move_paddle(&l, 10_000);
    assert_eq!(g.paddle_x, 576 - 82);
    g.move_paddle(&l, -18);
    assert_eq!(g.paddle_x, 576 - 82 - 18);
}

#[test]
fn breakout_tick_moves_the_ball() {
    let l = layout();
    let mut g = Game::new(&l);
    g.on_tick(&l);
    assert_eq!(g.ball, Ball { x: 286, y: 354, vx: 2, vy: -2 });
}

#[test]
fn paused_game_does_not_move() {
    let l = layout();
    let mut g = Game::new(&l);
    g.paused = true;
    g.on_tick(&l);
    assert_eq!(g.ball, Ball { x: 284, y: 356, vx: 2, vy: -2 });
}

#[test]
fn left_wall_bounces() {
    let l = layout();
    let mut g = Game::new(&l);
    g.ball = Ball { x: 1, y: 200, vx: -3, vy: 2 };
    g.on_tick(&l);
    assert_eq!(g.ball, Ball { x: 0, y: 202, vx: 3, vy: 2 });
}

#[test]
fn a_brick_is_knocked_out() {
    let l = layout();
    let mut g = Game::new(&l);
    // Just below brick 0 (columns 2..57, rows 16..30), moving up.
    g.ball = Ball { x: 10, y: 32, vx: 0, vy: -3 };
    g.on_tick(&l);
    assert!(!g.bricks[0]);
    assert_eq!(g.bricks.iter().filter(|&&b| !b).count(), 1);
    assert_eq!(g.score, 10);
    assert_eq!(g.ball, Ball { x: 10, y: 29, vx: 0, vy: 3 });
    assert!(g.running);
}

#[test]
fn the_paddle_sends_the_ball_back_up() {
    let l = layout();
    let mut g = Game::new(&l);
    // The ball falls onto the middle of the paddle (top at 366).
    g.ball = Ball { x: 284, y: 355, vx: 0, vy: 4 };
    g.on_tick(&l);
    assert_eq!(g.ball.y, 358);
    assert_eq!(g.ball.vy, -4);
    // Hit at the centre: speed 0 is turned into 1 for an even score.
    assert_eq!(g.ball.vx, 1);
}

#[test]
fn losing_the_ball_costs_a_life() {
    let l = layout();
    let mut g = Game::new(&l);
    g.paddle_x = 0;
    g.ball = Ball { x: 400, y: 382, vx: 0, vy: 4 };
    g.on_tick(&l);
    assert_eq!(g.lives, 2);
    assert_eq!(g.ball, Ball { x: 284, y: 356, vx: 2, vy: -2 });
    g.lives = 1;
    g.ball = Ball { x: 400, y: 382, vx: 0, vy: 4 };
    g.on_tick(&l);
    assert_eq!(g.lives, 0);
    assert!(!g.running);
}

#[test]
fn clearing_the_last_brick_wins() {
    let l = layout();
    let mut g = Game::new(&l);
    g.bricks = [false; BRICK_COUNT];
    g.bricks[0] = true;
    g.ball = Ball { x: 10, y: 32, vx: 0, vy: -3 };
    g.on_tick(&l);
    assert!(g.won());
    assert!(!g.running);
}

#[test]
fn little_endian_fields() {
    let mut buf = [0u8; 8];
    let mut at = 0usize;
    put_u32(&mut buf, &mut at, 0x1234_5678);
    put_i32(&mut buf, &mut at, -2);
    assert_eq!(buf, [0x78, 0x56, 0x34, 0x12, 0xfe, 0xff, 0xff, 0xff]);
    assert_eq!(at, 8);
    let mut at = 0usize;
    assert_eq!(get_u32(&buf, &mut at), 0x1234_5678);
    assert_eq!(get_i32(&buf, &mut at), -2);
    assert_eq!(at, 8);
}

#[test]
fn bricks_as_bits() {
    let mut bricks = [false; BRICK_COUNT];
    bricks[0] = true;
    bricks[3] = true;
    bricks[49] = true;
    let bits = encode_bricks(&bricks);
    assert_eq!(bits, 1 | 8 | (1u64 << 49));
    let mut back = [true; BRICK_COUNT];
    decode_bricks(&mut back, bits);
    assert_eq!(back, bricks);
    decode_bricks(&mut back, u64::MAX);
    assert!(back.iter().all(|&b| b));
}

#[test]
fn save_record_layout() {
    let l = layout();
    let mut g = Game::new(&l);
    g.score = 30;
    g.paused = true;
    g.bricks[1] = false;
    let mut out = [0u8; SAVE_BYTES];
    encode_save(&g, &mut out);
    assert_eq!(&out[0..4], &SAVE_MAGIC.to_le_bytes());
    assert_eq!(&out[4..8], &30u32.to_le_bytes());
    assert_eq!(&out[8..12], &3u32.to_le_bytes());
    assert_eq!(&out[12..16], &247i32.to_le_bytes());
    assert_eq!(&out[24..28], &2i32.to_le_bytes());
    assert_eq!(&out[28..32], &(-2i32).to_le_bytes());
    assert_eq!(&out[32..36], &3u32.to_le_bytes());
    let bits = ((1u64 << 50) - 1) & !2;
    assert_eq!(&out[36..44], &bits.to_le_bytes());
}

#[test]
fn save_then_restore_gives_the_game_back() {
    let l = layout();
    let mut g = Game::new(&l);
    g.score = 120;
    g.lives = 2;
    g.paddle_x = 10;
    g.ball = Ball { x: -5, y: 77, vx: -3, vy: 1 };
    g.bricks[7] = false;
    g.bricks[42] = false;
    g.running = false;
    g.quit = true;
    let mut out = [0u8; SAVE_BYTES];
    encode_save(&g, &mut out);
    let mut h = Game::new(&l);
    assert!(decode_save(&mut h, &out));
    assert_eq!((h.score, h.lives, h.paddle_x), (120, 2, 10));
    assert_eq!(h.ball, g.ball);
    assert_eq!(h.bricks, g.bricks);
    assert_eq!((h.running, h.paused, h.quit), (false, false, true));
}

#[test]
fn a_record_without_the_magic_is_refused() {
    let l = layout();
    let g = Game::new(&l);
    let mut out = [0u8; SAVE_BYTES];
    encode_save(&g, &mut out);
    out[0] ^= 1;
    let mut h = Game::new(&l);
    h.score = 55;
    assert!(!decode_save(&mut h, &out));
    assert_eq!(h.score, 55);
    assert_eq!(h.ball, Ball { x: 284, y: 356, vx: 2, vy: -2 });
}

#[test]
fn keys() {
    let l = layout();
    let mut g = Game::new(&l);
    assert_eq!(handle_key(&mut g, &l, b'a'), KeyOutcome::Changed);
    assert_eq!(g.paddle_x, 229);
    assert_eq!(handle_key(&mut g, &l, b'L'), KeyOutcome::Changed);
    assert_eq!(g.paddle_x, 247);
    assert_eq!(handle_key(&mut g, &l, b'p'), KeyOutcome::Changed);
    assert!(g.paused);
    assert_eq!(handle_key(&mut g, &l, b'P'), KeyOutcome::Changed);
    assert!(!g.paused);
    assert_eq!(handle_key(&mut g, &l, b'k'), KeyOutcome::Save);
    assert_eq!(handle_key(&mut g, &l, b'R'), KeyOutcome::Restore);
    assert_eq!(handle_key(&mut g, &l, b'x'), KeyOutcome::Ignored);
    assert!(!g.quit);
    assert_eq!(handle_key(&mut g, &l, b'q'), KeyOutcome::Changed);
    assert!(g.quit);
}

#[test]
fn ticks_due() {
    assert_eq!(tick_steps(1019, 1000), None);
    assert_eq!(tick_steps(1020, 1000), Some(1));
    assert_eq!(tick_steps(1059, 1000), Some(2));
    assert_eq!(tick_steps(1080, 1000), Some(4));
    assert_eq!(tick_steps(5000, 1000), Some(4));
}

#[test]
fn several_ticks_at_once() {
    let l = layout();
    let mut g = Game::new(&l);
    run_ticks(&mut g, &l, 3);
    assert_eq!(g.ball, Ball { x: 290, y: 350, vx: 2, vy: -2 });
    run_ticks(&mut g, &l, 0);
    assert_eq!(g.ball, Ball { x: 290, y: 350, vx: 2, vy: -2 });
}

#[test]
fn transfer_steps() {
    assert_eq!(transfer_step(0, 44, 20), Some(20));
    assert_eq!(transfer_step(20, 44, 24), Some(44));
    assert_eq!(transfer_step(20, 44, 0), None);
    assert_eq!(transfer_step(20, 44, -1), None);
}

#[test]
fn full_frame() {
    let l = layout();
    let g = Game::new(&l);
    let mut st = RenderState::new();
    let mut fb = vec![0u8; 640 * 480 * 4];
    render(&g, InputMode::Polling, &l, &mut st, &mut fb, true);
    assert_eq!(pixel(&fb, 640, 0, 0), COLOR_BG);
    assert_eq!(pixel(&fb, 640, 40, 80), COLOR_BRICK_A);
    assert_eq!(pixel(&fb, 640, 40, 80 + 4 * 16), COLOR_BRICK_E);
    assert_eq!(pixel(&fb, 640, 280, 427), COLOR_PADDLE);
    assert_eq!(pixel(&fb, 640, 317, 417), COLOR_BALL);
    assert_eq!(pixel(&fb, 640, 33, 300), COLOR_FIELD);
    assert!(st.inited);
}

#[test]
fn partial_frame_erases_a_lost_brick() {
    let l = layout();
    let mut g = Game::new(&l);
    let mut st = RenderState::new();
    let mut fb = vec![0u8; 640 * 480 * 4];
    render(&g, InputMode::Polling, &l, &mut st, &mut fb, true);
    g.bricks[0] = false;
    render(&g, InputMode::Polling, &l, &mut st, &mut fb, false);
    assert_eq!(pixel(&fb, 640, 40, 80), COLOR_FIELD);
    let before = fb.clone();
    render(&g, InputMode::Polling, &l, &mut st, &mut fb, false);
    assert_eq!(fb, before);
}

#[test]
fn long_play_only_removes_bricks() {
    let l = layout();
    let mut g = Game::new(&l);
    let mut prev = g.bricks;
    let mut prev_score = g.score;
    for _ in 0..20_000 {
        g.on_tick(&l);
        for i in 0..BRICK_COUNT {
            assert!(!g.bricks[i] || prev[i]);
        }
        let lost = (0..BRICK_COUNT).filter(|&i| prev[i] && !g.bricks[i]).count();
        assert!(lost <= 1);
        assert_eq!(g.score, prev_score + 10 * lost);
        prev = g.bricks;
        prev_score = g.score;
    }
}

fn small_layout() -> Layout {
    Layout {
        width: 100,
        height: 100,
        field_x: 0,
        field_y: 0,
        field_w: 100,
        field_h: 100,
        paddle_w: 20,
        paddle_h: 4,
        ball_s: 4,
        brick_top: 10,
        brick_gap: 2,
        brick_w: 8,
        brick_h: 4,
    }
}

#[test]
fn a_hand_made_layout_hits_the_first_brick_only() {
    let l = small_layout();
    let mut g = Game::new(&layout());
    g.paddle_x = 40;
    g.ball = Ball { x: 8, y: 15, vx: 1, vy: -2 };
    g.on_tick(&l);
    assert_eq!(g.score, 10);
    assert!(!g.bricks[0]);
    assert!(g.bricks[1..].iter().all(|&b| b));
    assert_eq!(g.ball, Ball { x: 9, y: 13, vx: 1, vy: 2 });
    assert_eq!((g.lives, g.paddle_x), (3, 40));
    assert!(g.running && !g.paused && !g.quit);
}

#[test]
fn a_ball_far_below_the_field_costs_a_life() {
    let l = layout();
    let mut g = Game::new(&l);
    g.ball = Ball { x: 10, y: 1 << 27, vx: 0, vy: 3 };
    g.on_tick(&l);
    assert_eq!(g.lives, 2);
    assert_eq!(g.ball, Ball { x: 284, y: 356, vx: 2, vy: -2 });
}
