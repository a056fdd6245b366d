use user_lib::mode::InputMode;
use user_lib::snake::{
    build_layout, cell, handle_key, render_gui, seed_from_time, Direction, Game, Pos, RenderState,
    COLOR_BG, COLOR_BODY, COLOR_BOARD_BG, COLOR_FOOD, COLOR_HEAD, MAX_SNAKE_LEN,
};

// The generator applied to 1586005467.
const LCG_AFTER_FOOD: u32 = 2165703038;

fn p(x: i16, y: i16) -> Pos {
    Pos { x, y }
}

fn pixel(fb: &[u8], width: usize, x: usize, y: usize) -> u32 {
    let i = (y * width + x) * 4;
    u32::from_le_bytes([fb[i], fb[i + 1], fb[i + 2], fb[i + 3]])
}

fn body(game: &Game) -> Vec<Pos> {
    game.snake[..game.len].to_vec()
}

fn game_with(cells: &[Pos], dir: Direction, food: Pos) -> Game {
    let mut g = Game::new(1);
    g.snake = [p(0, 0); MAX_SNAKE_LEN];
    for (i, c) in cells.iter().enumerate() {
        g.snake[i] = *c;
    }
    g.len = cells.len();
    g.dir = dir;
    g.food = food;
    g
}

#[test]
fn new_game_places_food_from_the_seed() {
    let g = Game::new(1);
    assert_eq!(body(&g), vec![p(12, 8), p(11, 8), p(10, 8)]);
    assert_eq!(g.dir, Direction::Right);
    // Two draws of the generator: 1015568748 % 24 and 1586005467 % 16.
    assert_eq!(g.food, p(12, 11));
    assert_eq!(g.seed, 1586005467);
    assert_eq!(g.score(), 0);
    assert!(!g.over && !g.quit);
}

#[test]
fn generator_and_body_lookup() {
    let mut g = Game::new(1);
    assert_eq!(g.next_rand(), LCG_AFTER_FOOD);
    assert_eq!(g.seed, LCG_AFTER_FOOD);
    assert!(g.contains(p(11, 8)));
    assert!(!g.contains(p(13, 8)));
}

#[test]
fn the_snake_does_not_turn_back() {
    let mut g = Game::new(1);
    handle_key(&mut g, b'a');
    assert_eq!(g.dir, Direction::Right);
    handle_key(&mut g, b'W');
    assert_eq!(g.dir, Direction::Up);
    handle_key(&mut g, b's');
    assert_eq!(g.dir, Direction::Up);
    handle_key(&mut g, b'd');
    assert_eq!(g.dir, Direction::Right);
    handle_key(&mut g, b'z');
    assert_eq!(g.dir, Direction::Right);
    handle_key(&mut g, b'q');
    assert!(g.quit);
}

#[test]
fn a_step_moves_the_head() {
    let mut g = Game::new(1);
    g.step();
    assert_eq!(body(&g), vec![p(13, 8), p(12, 8), p(11, 8)]);
    assert_eq!(g.food, p(12, 11));
    assert!(!g.over);
}

#[test]
fn eating_grows_and_places_new_food() {
    let mut g = Game::new(1);
    g.food = p(13, 8);
    g.step();
    assert_eq!(body(&g), vec![p(13, 8), p(12, 8), p(11, 8), p(10, 8)]);
    assert_eq!(g.score(), 1);
    assert_eq!(g.food, p(14, 5));
    assert_eq!(g.seed, 3027450565);
    assert!(!g.contains(g.food));
}

#[test]
fn a_wall_ends_the_game() {
    let mut g = game_with(&[p(23, 8), p(22, 8), p(21, 8)], Direction::Right, p(0, 0));
    g.step();
    assert!(g.over);
    assert_eq!(body(&g), vec![p(23, 8), p(22, 8), p(21, 8)]);
    // Nothing moves once the game is over.
    g.step();
    assert_eq!(body(&g), vec![p(23, 8), p(22, 8), p(21, 8)]);
}

#[test]
fn biting_the_body_ends_the_game() {
    let mut g = game_with(&[p(5, 5), p(6, 5), p(6, 6), p(5, 6), p(4, 6)], Direction::Down, p(0, 0));
    g.step();
    assert!(g.over);
}

#[test]
fn cells_show_head_body_and_food() {
    let g = Game::new(1);
    assert_eq!(cell(&g, 12, 8), 1);
    assert_eq!(cell(&g, 10, 8), 2);
    assert_eq!(cell(&g, 12, 11), 3);
    assert_eq!(cell(&g, 0, 0), 0);
}

#[test]
fn seed_from_clock() {
    assert_eq!(seed_from_time(-3), 0x5a5a_a5a4);
    assert_eq!(seed_from_time(1), 0x5a5a_a5a4);
}

#[test]
fn layout_of_the_board() {
    let l = build_layout(280, 220);
    assert_eq!((l.cell_px, l.board_w, l.board_h, l.origin_x, l.origin_y), (10, 240, 160, 20, 30));
}

#[test]
fn first_frame_shows_the_board() {
    let g = Game::new(1);
    let mut st = RenderState::new();
    let mut fb = vec![0u8; 280 * 220 * 4];
    render_gui(&g, InputMode::Polling, &mut st, &mut fb, 280, 220);
    assert_eq!(pixel(&fb, 280, 0, 0), COLOR_BG);
    assert_eq!(pixel(&fb, 280, 141, 111), COLOR_HEAD);
    assert_eq!(pixel(&fb, 280, 131, 111), COLOR_BODY);
    assert_eq!(pixel(&fb, 280, 141, 141), COLOR_FOOD);
    assert_eq!(pixel(&fb, 280, 21, 31), COLOR_BOARD_BG);
    assert_eq!(pixel(&fb, 280, 25, 10), 0xffffc107);
    assert!(st.initialized);
    assert_eq!(st.prev_cells[8 * 24 + 12], 1);
}

#[test]
fn a_step_redraws_the_cells_that_changed() {
    let mut g = Game::new(1);
    let mut st = RenderState::new();
    let mut fb = vec![0u8; 280 * 220 * 4];
    render_gui(&g, InputMode::Polling, &mut st, &mut fb, 280, 220);
    g.step();
    render_gui(&g, InputMode::Polling, &mut st, &mut fb, 280, 220);
    assert_eq!(pixel(&fb, 280, 151, 111), COLOR_HEAD);
    assert_eq!(pixel(&fb, 280, 141, 111), COLOR_BODY);
    assert_eq!(pixel(&fb, 280, 121, 111), COLOR_BOARD_BG);
    let before = fb.clone();
    render_gui(&g, InputMode::Polling, &mut st, &mut fb, 280, 220);
    assert_eq!(fb, before);
}

#[test]
fn first_food_is_placed_for_any_seed() {
    for seed in (0u32..2000).chain([u32::MAX, 0x8000_0000, 12345678]) {
        let g = Game::new(seed);
        assert!(!g.contains(g.food));
        assert!((0..24).contains(&g.food.x) && (0..16).contains(&g.food.y));
    }
}
