use user_lib::mode::InputMode;
use user_lib::tetris::{
    block_at, board_idx, build_layout, calc_level, clear_lines, compose_cells, draw_cell, drop_due,
    drop_interval_ms, handle_key, is_collide, line_score, lock_piece, render_gui, seed_from_time, Game,
    Piece, RenderState, BOARD_CELLS, CELL_COLORS, COLOR_BG, COLOR_BOARD_BG, COLOR_BORDER,
};

const I_FLAT: Piece = Piece { kind: 0, rot: 0, x: 3, y: 0 };

fn game_with_i_piece() -> Game {
    let mut g = Game::new(1);
    g.active = I_FLAT;
    g
}

fn pixel(fb: &[u8], width: usize, x: usize, y: usize) -> u32 {
    let i = (y * width + x) * 4;
    u32::from_le_bytes([fb[i], fb[i + 1], fb[i + 2], fb[i + 3]])
}

#[test]
fn new_game_spawns_from_the_generator() {
    let g = Game::new(1);
    // lcg(1) = 1015568748, which is 5 mod 7; lcg of that is 4 mod 7.
    assert_eq!(g.active, Piece { kind: 5, rot: 0, x: 3, y: 0 });
    assert_eq!(g.next_kind, 4);
    assert_eq!(g.rng, 1586005467);
    assert!(g.board.iter().all(|&c| c == 0));
    assert_eq!((g.score, g.lines, g.level, g.pieces), (0, 0, 0, 0));
    assert!(!g.over && !g.quit);
}

#[test]
fn board_index_and_blocks() {
    assert_eq!(board_idx(3, 2), 23);
    assert_eq!(board_idx(9, 19), 199);
    let b = block_at(&I_FLAT, 2);
    assert_eq!((b.x, b.y), (5, 1));
}

#[test]
fn collision_with_walls_and_cells() {
    let mut board = [0u8; BOARD_CELLS];
    assert!(!is_collide(&board, &I_FLAT));
    assert!(is_collide(&board, &Piece { kind: 0, rot: 0, x: -1, y: 0 }));
    assert!(is_collide(&board, &Piece { kind: 0, rot: 0, x: 7, y: 0 }));
    assert!(is_collide(&board, &Piece { kind: 0, rot: 0, x: 3, y: 19 }));
    board[board_idx(5, 1)] = 3;
    assert!(is_collide(&board, &I_FLAT));
}

#[test]
fn locking_writes_kind_plus_one() {
    let mut board = [0u8; BOARD_CELLS];
    lock_piece(&mut board, &I_FLAT);
    for x in 0..10i16 {
        let expect = if (3..7).contains(&x) { 1 } else { 0 };
        assert_eq!(board[board_idx(x, 1)], expect);
    }
    assert_eq!(board.iter().filter(|&&c| c != 0).count(), 4);
}

#[test]
fn full_rows_are_cleared_and_the_rest_falls() {
    let mut board = [0u8; BOARD_CELLS];
    for x in 0..10 {
        board[board_idx(x, 19)] = 2;
        board[board_idx(x, 17)] = 4;
    }
    board[board_idx(0, 18)] = 7;
    board[board_idx(4, 16)] = 1;
    let cleared = clear_lines(&mut board);
    assert_eq!(cleared, 2);
    let mut expect = [0u8; BOARD_CELLS];
    expect[board_idx(0, 19)] = 7;
    expect[board_idx(4, 18)] = 1;
    assert_eq!(board, expect);
}

#[test]
fn no_full_row_keeps_the_board() {
    let mut board = [0u8; BOARD_CELLS];
    board[board_idx(2, 10)] = 5;
    let before = board;
    assert_eq!(clear_lines(&mut board), 0);
    assert_eq!(board, before);
}

#[test]
fn scores_levels_and_speeds() {
    assert_eq!(line_score(1, 0), 100);
    assert_eq!(line_score(2, 1), 600);
    assert_eq!(line_score(3, 0), 500);
    assert_eq!(line_score(4, 2), 2400);
    assert_eq!(line_score(0, 5), 0);
    assert_eq!(line_score(5, 0), 0);
    assert_eq!(calc_level(25, 40), 4);
    assert_eq!(calc_level(9, 17), 0);
    assert_eq!(drop_interval_ms(0), 700);
    assert_eq!(drop_interval_ms(1), 645);
    assert_eq!(drop_interval_ms(11), 95);
    assert_eq!(drop_interval_ms(12), 80);
    assert_eq!(drop_interval_ms(100), 80);
}

#[test]
fn drop_interval_never_grows() {
    let mut prev = drop_interval_ms(0);
    for level in 1..40 {
        let cur = drop_interval_ms(level);
        assert!(cur <= prev && (80..=700).contains(&cur));
        prev = cur;
    }
}

#[test]
fn seeds_and_drop_timing() {
    assert_eq!(seed_from_time(0), 0x4d43_5a18);
    assert_eq!(seed_from_time(2), 0x4d43_5a1b);
    assert!(drop_due(1700, 1000, 0));
    assert!(!drop_due(1699, 1000, 0));
    assert!(drop_due(1080, 1000, 30));
}

#[test]
fn keys_move_rotate_and_quit() {
    let mut g = game_with_i_piece();
    assert!(handle_key(&mut g, b'a'));
    assert_eq!(g.active.x, 2);
    assert!(handle_key(&mut g, b'D'));
    assert_eq!(g.active.x, 3);
    assert!(handle_key(&mut g, b's'));
    assert_eq!(g.active.y, 1);
    assert!(handle_key(&mut g, b'w'));
    assert_eq!(g.active.rot, 1);
    assert!(!handle_key(&mut g, b'x'));
    assert!(handle_key(&mut g, b'q'));
    assert!(g.quit);
    // Once the game has stopped, only quitting counts.
    assert!(!handle_key(&mut g, b'a'));
    assert!(handle_key(&mut g, b'Q'));
}

#[test]
fn blocked_move_reports_nothing() {
    let mut g = game_with_i_piece();
    g.active.x = 0;
    assert!(!handle_key(&mut g, b'a'));
    assert_eq!(g.active.x, 0);
}

#[test]
fn rotation_kicks_away_from_the_wall() {
    let mut g = game_with_i_piece();
    // Upright at the left wall, its blocks in column 1.
    g.active = Piece { kind: 0, rot: 3, x: 0, y: 5 };
    g.try_rotate();
    // Flat, the piece would poke out of the left wall only when shifted;
    // here it fits at once.
    assert_eq!(g.active, Piece { kind: 0, rot: 0, x: 0, y: 5 });
    g.active = Piece { kind: 0, rot: 1, x: -2, y: 5 };
    g.try_rotate();
    assert_eq!(g.active, Piece { kind: 0, rot: 2, x: 0, y: 5 });
}

#[test]
fn gravity_moves_then_locks() {
    let mut g = game_with_i_piece();
    g.tick_drop();
    assert_eq!(g.active.y, 1);
    g.active.y = 18;
    g.tick_drop();
    assert_eq!(g.pieces, 1);
    for x in 3..7 {
        assert_eq!(g.board[board_idx(x, 19)], 1);
    }
    assert_eq!(g.active, Piece { kind: 4, rot: 0, x: 3, y: 0 });
}

#[test]
fn hard_drop_completes_a_row() {
    let mut g = game_with_i_piece();
    for x in [0i16, 1, 2, 7, 8, 9] {
        g.board[board_idx(x, 19)] = 6;
    }
    assert!(handle_key(&mut g, b' '));
    assert_eq!(g.score, 100);
    assert_eq!(g.lines, 1);
    assert_eq!(g.pieces, 1);
    assert_eq!(g.level, 0);
    assert!(g.board.iter().all(|&c| c == 0));
}

#[test]
fn spawning_into_a_full_top_ends_the_game() {
    let mut g = game_with_i_piece();
    for x in 0..10 {
        g.board[board_idx(x, 1)] = 1;
        g.board[board_idx(x, 0)] = 1;
    }
    g.spawn_piece();
    assert!(g.over);
}

#[test]
fn composed_cells_show_the_piece() {
    let g = game_with_i_piece();
    let mut out = [9u8; BOARD_CELLS];
    compose_cells(&g, &mut out);
    let mut expect = [0u8; BOARD_CELLS];
    for x in 3..7 {
        expect[board_idx(x, 1)] = 1;
    }
    assert_eq!(out, expect);
}

#[test]
fn layout_centres_the_board() {
    let l = build_layout(180, 280);
    assert_eq!((l.cell_px, l.board_w_px, l.board_h_px, l.origin_x, l.origin_y), (10, 100, 200, 40, 40));
    let small = build_layout(50, 50);
    assert_eq!(small.cell_px, 8);
    assert_eq!((small.origin_x, small.origin_y), (0, 0));
}

#[test]
fn one_cell_is_drawn_one_pixel_smaller() {
    let l = build_layout(180, 280);
    let mut fb = vec![0u8; 180 * 280 * 4];
    draw_cell(&mut fb, &l, 1, 2, 3);
    assert_eq!(pixel(&fb, 180, 50, 60), CELL_COLORS[3]);
    assert_eq!(pixel(&fb, 180, 58, 68), CELL_COLORS[3]);
    assert_eq!(pixel(&fb, 180, 59, 68), 0);
    assert_eq!(pixel(&fb, 180, 58, 69), 0);
}

#[test]
fn first_frame_and_unchanged_frame() {
    let g = game_with_i_piece();
    let mut st = RenderState::new();
    let mut fb = vec![0u8; 180 * 280 * 4];
    render_gui(&g, InputMode::Polling, &mut st, &mut fb, 180, 280);
    assert_eq!(pixel(&fb, 180, 0, 0), COLOR_BG);
    assert_eq!(pixel(&fb, 180, 37, 37), COLOR_BORDER);
    assert_eq!(pixel(&fb, 180, 49, 49), COLOR_BOARD_BG);
    assert_eq!(pixel(&fb, 180, 41, 231), CELL_COLORS[0]);
    assert_eq!(pixel(&fb, 180, 71, 51), CELL_COLORS[1]);
    assert_eq!(pixel(&fb, 180, 45, 20), 0xffffc107);
    assert!(st.initialized);
    assert_eq!(st.prev_cells[board_idx(3, 1)], 1);

    let before = fb.clone();
    render_gui(&g, InputMode::Polling, &mut st, &mut fb, 180, 280);
    assert_eq!(fb, before);
}

#[test]
fn later_frames_redraw_what_changed() {
    let mut g = game_with_i_piece();
    let mut st = RenderState::new();
    let mut fb = vec![0u8; 180 * 280 * 4];
    render_gui(&g, InputMode::Polling, &mut st, &mut fb, 180, 280);
    handle_key(&mut g, b'a');
    render_gui(&g, InputMode::InterruptLike, &mut st, &mut fb, 180, 280);
    // Cell (6, 1) is empty again, cell (2, 1) holds the piece.
    assert_eq!(pixel(&fb, 180, 101, 51), COLOR_BOARD_BG);
    assert_eq!(pixel(&fb, 180, 61, 51), CELL_COLORS[1]);
    assert_eq!(pixel(&fb, 180, 45, 20), 0xff42a5f5);
    assert_eq!(st.prev_mode, 1);
}

#[test]
fn high_level_scores_and_level_is_recomputed() {
    let mut g = game_with_i_piece();
    g.level = 1000;
    for x in [0i16, 1, 2, 7, 8, 9] {
        g.board[board_idx(x, 19)] = 6;
    }
    assert!(handle_key(&mut g, b' '));
    assert_eq!(g.score, 100 * 1001);
    // The level follows the rows and pieces, not what it was before.
    assert_eq!(g.level, 0);
}

#[test]
fn layout_of_a_very_large_screen() {
    let side = 1usize << 30;
    let l = build_layout(side, side);
    assert_eq!(l.cell_px, side / 28);
    assert_eq!((l.board_w_px, l.board_h_px), (10 * (side / 28), 20 * (side / 28)));
    assert_eq!(l.origin_y, (side - 20 * (side / 28)) / 2);
}
