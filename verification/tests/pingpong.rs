use user_lib::mode::{InputMode, SyscallRequest};
use user_lib::pingpong::{
    apply_message, build_layout, draw_score, key_message, mq_recv, mq_send, render, Ball, Game, Layout, Paddle,
    RenderState, COLOR_BALL, COLOR_BG, COLOR_BORDER, COLOR_P1, COLOR_P2, COLOR_WIN, MSG_P1_DOWN, MSG_P1_UP,
    MSG_P2_DOWN, MSG_P2_UP, MSG_QUIT, MSG_TICK, SYSCALL_MQ_SEND,
};

fn layout() -> Layout {
    build_layout(640, 480)
}

fn pixel(fb: &[u8], width: usize, x: usize, y: usize) -> u32 {
    let i = (y * width + x) * 4;
    u32::from_le_bytes([fb[i], fb[i + 1], fb[i + 2], fb[i + 3]])
}

#[test]
fn pingpong_layout_of_a_screen() {
    let l = layout();
    assert_eq!((l.field_x, l.field_y, l.field_w, l.field_h), (32, 48, 576, 384));
    assert_eq!((l.paddle_w, l.paddle_h, l.ball_s), (7, 64, 6));
    assert_eq!((l.p1_x, l.p2_x), (44, 589));
}

#[test]
fn pingpong_new_game() {
    let l = layout();
    let g = Game::new(&l);
    assert_eq!(g.p1, Paddle { y: 160 });
    assert_eq!(g.p2, Paddle { y: 160 });
    assert_eq!(g.ball, Ball { x: 288, y: 192, vx: 2, vy: 1 });
    assert_eq!((g.score_l, g.score_r), (0, 0));
    assert!(g.running && !g.quit);
}

#[test]
fn paddles_are_kept_in_the_field() {
    let l = layout();
    let mut g = Game::new(&l);
    g.p1.y = -5;
    g.p2.y = 1000;
    g.clamp_paddles(&l);
    assert_eq!((g.p1.y, g.p2.y), (0, 320));
}

#[test]
fn serve_speeds_grow_with_the_points() {
    let l = layout();
    let mut g = Game::new(&l);
    g.score_l = 3;
    g.score_r = 2;
    g.reset_ball(&l, true);
    assert_eq!(g.ball, Ball { x: 288, y: 192, vx: -4, vy: -2 });
    g.score_l = 9;
    g.score_r = 9;
    g.reset_ball(&l, false);
    assert_eq!(g.ball, Ball { x: 288, y: 192, vx: 6, vy: 3 });
}

#[test]
fn boost_is_capped() {
    let l = layout();
    let mut g = Game::new(&l);
    g.ball.vx = -5;
    g.ball.vy = 3;
    g.boost_after_paddle_hit();
    assert_eq!((g.ball.vx, g.ball.vy), (-6, 3));
    g.boost_after_paddle_hit();
    assert_eq!((g.ball.vx, g.ball.vy), (-6, 3));
    g.ball.vx = 0;
    g.ball.vy = -1;
    g.boost_after_paddle_hit();
    assert_eq!((g.ball.vx, g.ball.vy), (1, -2));
}

#[test]
fn pingpong_tick_moves_the_ball() {
    let l = layout();
    let mut g = Game::new(&l);
    g.on_tick(&l);
    assert_eq!(g.ball, Ball { x: 290, y: 193, vx: 2, vy: 1 });
}

#[test]
fn the_top_bounces() {
    let l = layout();
    let mut g = Game::new(&l);
    g.ball = Ball { x: 300, y: 1, vx: 2, vy: -3 };
    g.on_tick(&l);
    assert_eq!(g.ball, Ball { x: 302, y: 0, vx: 2, vy: 3 });
}

#[test]
fn the_left_paddle_returns_the_ball_faster() {
    let l = layout();
    let mut g = Game::new(&l);
    g.ball = Ball { x: 22, y: 170, vx: -3, vy: 1 };
    g.on_tick(&l);
    assert_eq!(g.ball, Ball { x: 19, y: 171, vx: 4, vy: 2 });
}

#[test]
fn a_missed_ball_scores_for_the_other_side() {
    let l = layout();
    let mut g = Game::new(&l);
    g.ball = Ball { x: 2, y: 10, vx: -3, vy: 1 };
    g.on_tick(&l);
    assert_eq!((g.score_l, g.score_r), (0, 1));
    assert_eq!(g.ball, Ball { x: 288, y: 192, vx: 2, vy: -1 });
    assert!(g.running);
}

#[test]
fn five_points_end_the_game() {
    let l = layout();
    let mut g = Game::new(&l);
    g.score_l = 4;
    g.ball = Ball { x: 575, y: 10, vx: 3, vy: 1 };
    g.on_tick(&l);
    assert_eq!(g.score_l, 5);
    assert!(!g.running);
    assert_eq!(g.ball, Ball { x: 288, y: 192, vx: -4, vy: -2 });
    let before = g;
    g.on_tick(&l);
    assert_eq!(g, before);
}

#[test]
fn messages() {
    let l = layout();
    let mut g = Game::new(&l);
    assert!(apply_message(&mut g, &l, MSG_P1_UP));
    assert_eq!(g.p1.y, 150);
    assert!(apply_message(&mut g, &l, MSG_P1_DOWN));
    assert!(apply_message(&mut g, &l, MSG_P1_DOWN));
    assert_eq!(g.p1.y, 170);
    assert!(apply_message(&mut g, &l, MSG_P2_UP));
    assert_eq!(g.p2.y, 150);
    assert!(apply_message(&mut g, &l, MSG_P2_DOWN));
    assert_eq!(g.p2.y, 160);
    assert!(apply_message(&mut g, &l, MSG_TICK));
    assert_eq!(g.ball, Ball { x: 290, y: 193, vx: 2, vy: 1 });
    assert!(!apply_message(&mut g, &l, 99));
    assert!(!g.quit);
    assert!(apply_message(&mut g, &l, MSG_QUIT));
    assert!(g.quit);
}

#[test]
fn keys_become_messages() {
    assert_eq!(key_message(b'w'), Some(MSG_P1_UP));
    assert_eq!(key_message(b'S'), Some(MSG_P1_DOWN));
    assert_eq!(key_message(b'i'), Some(MSG_P2_UP));
    assert_eq!(key_message(b'K'), Some(MSG_P2_DOWN));
    assert_eq!(key_message(b'q'), Some(MSG_QUIT));
    assert_eq!(key_message(b'x'), None);
}

#[test]
fn message_queue_calls() {
    assert_eq!(mq_send(7, MSG_TICK), SyscallRequest { id: SYSCALL_MQ_SEND, arg0: 7, arg1: 5 });
    assert_eq!(SYSCALL_MQ_SEND, 0x1000_0010);
    assert_eq!(mq_recv(-1), None);
    assert_eq!(mq_recv(-7), None);
    assert_eq!(mq_recv(0), Some(0));
    assert_eq!(mq_recv(255), Some(MSG_QUIT));
}

#[test]
fn score_slot_and_bar() {
    let l = layout();
    let mut fb = vec![0u8; 640 * 480 * 4];
    draw_score(&mut fb, &l, 2, true, 0xff00ff00);
    assert_eq!(pixel(&fb, 640, 41, 25), 0xff00ff00);
    assert_eq!(pixel(&fb, 640, 67, 33), 0xff00ff00);
    assert_eq!(pixel(&fb, 640, 68, 25), COLOR_BORDER);
    assert_eq!(pixel(&fb, 640, 159, 25), COLOR_BORDER);
    assert_eq!(pixel(&fb, 640, 160, 25), 0);
    draw_score(&mut fb, &l, 20, false, 0xff0000ff);
    // On the right: the slot ends eight pixels before the field's edge.
    assert_eq!(pixel(&fb, 640, 32 + 576 - 128, 25), 0xff0000ff);
    assert_eq!(pixel(&fb, 640, 32 + 576 - 9, 25), 0xff0000ff);
    assert_eq!(pixel(&fb, 640, 32 + 576 - 8, 25), 0);
}

#[test]
fn first_frame_and_game_over_band() {
    let l = layout();
    let mut g = Game::new(&l);
    let mut st = RenderState::new();
    let mut fb = vec![0u8; 640 * 480 * 4];
    render(&g, InputMode::Polling, &mut st, &mut fb, 640, 480);
    assert_eq!(pixel(&fb, 640, 0, 0), COLOR_BG);
    assert_eq!(pixel(&fb, 640, 45, 210), COLOR_P1);
    assert_eq!(pixel(&fb, 640, 590, 210), COLOR_P2);
    assert_eq!(pixel(&fb, 640, 321, 241), COLOR_BALL);
    assert_eq!(pixel(&fb, 640, 41, 25), COLOR_BORDER);
    assert_eq!(pixel(&fb, 640, 100, 10), 0xffffc107);
    assert!(st.inited);
    let before = fb.clone();
    render(&g, InputMode::Polling, &mut st, &mut fb, 640, 480);
    assert_eq!(fb, before);
    g.running = false;
    render(&g, InputMode::Polling, &mut st, &mut fb, 640, 480);
    assert_eq!(pixel(&fb, 640, 200, 235), COLOR_WIN);
    assert!(!st.prev_running);
}

#[test]
fn long_play_stays_in_range_and_stops_at_five() {
    let l = layout();
    let mut g = Game::new(&l);
    for _ in 0..20_000 {
        g.on_tick(&l);
        if g.running {
            assert!(g.score_l < 5 && g.score_r < 5);
            assert!(g.ball.x >= 0 && g.ball.x as usize <= l.field_w);
            assert!(g.ball.vx.abs() <= 6 && g.ball.vy.abs() <= 3);
        }
    }
    assert!(!g.running);
    assert!(g.score_l == 5 || g.score_r == 5);
}

#[test]
fn a_hand_made_layout_scores_and_serves() {
    let l = Layout {
        width: 200,
        height: 100,
        field_x: 0,
        field_y: 0,
        field_w: 200,
        field_h: 100,
        paddle_w: 6,
        paddle_h: 30,
        ball_s: 6,
        p1_x: 12,
        p2_x: 182,
    };
    let mut g = Game::new(&layout());
    g.p1 = Paddle { y: 0 };
    g.p2 = Paddle { y: 0 };
    g.ball = Ball { x: 1, y: 80, vx: -2, vy: 1 };
    g.on_tick(&l);
    assert_eq!((g.score_l, g.score_r), (0, 1));
    assert_eq!(g.ball, Ball { x: 100, y: 50, vx: 2, vy: -1 });
    assert!(g.running && !g.quit);
}
