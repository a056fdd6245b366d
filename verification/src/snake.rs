//! Snake on a 24 by 16 board: the snake moves one cell per step, grows when
//! it eats, and dies on the walls or on itself.
use vstd::prelude::*;
use crate::tetris::lcg;
use crate::framebuffer::{paint, paint_spec, rects_fit, saturating_mul, sat_mul_spec, sat_sub_spec, Rect};
use crate::framebuffer::{SMALL_SIDE, rect_small, rects_small, lemma_small_rects_fit, lemma_rects_small_concat};
use crate::mode::{InputMode, mode_id, mode_color, spec_mode_id, spec_mode_color};

verus! {

pub const WIDTH: i16 = 24;
pub const HEIGHT: i16 = 16;
pub const MAX_SNAKE_LEN: usize = 384;
/// How long the game loop sleeps between two steps.
pub const POLL_TICK_MS: usize = 100;

/// A cell of the board.
#[derive(Clone, Copy, Debug, PartialEq, Eq, Structural)]
pub struct Pos {
    pub x: i16,
    pub y: i16,
}

#[derive(Clone, Copy, Debug, PartialEq, Eq)]
pub enum Direction {
    Up,
    Down,
    Left,
    Right,
}

/// A game of Snake: `snake[0]` is the head, `snake[0..len]` the body.
pub struct Game {
    pub snake: [Pos; MAX_SNAKE_LEN],
    pub len: usize,
    pub dir: Direction,
    pub food: Pos,
    pub seed: u32,
    pub quit: bool,
    pub over: bool,
}

/// The state of a game of Snake as a value.
pub struct GameView {
    pub snake: Seq<Pos>,
    pub len: usize,
    pub dir: Direction,
    pub food: Pos,
    pub seed: u32,
    pub quit: bool,
    pub over: bool,
}

impl View for Game {
    type V = GameView;

    open spec fn view(&self) -> GameView {
        GameView {
            snake: self.snake@,
            len: self.len,
            dir: self.dir,
            food: self.food,
            seed: self.seed,
            quit: self.quit,
            over: self.over,
        }
    }
}

pub open spec fn on_board(p: Pos) -> bool {
    0 <= p.x < WIDTH && 0 <= p.y < HEIGHT
}

/// Whether `p` is one of the first `len` cells of `snake`.
pub open spec fn in_body(snake: Seq<Pos>, len: int, p: Pos) -> bool {
    exists|i: int| 0 <= i < len && #[trigger] snake[i] == p
}

/// The generator applied `n` times.
#[verifier::opaque]
pub open spec fn lcg_iter(seed: u32, n: nat) -> u32
    decreases n,
{
    if n == 0 {
        seed
    } else {
        lcg(lcg_iter(seed, (n - 1) as nat))
    }
}

/// The cell the `k`-th attempt to place food picks: two draws of the
/// generator, the first for the column and the second for the row.
#[verifier::opaque]
pub open spec fn food_candidate(seed: u32, k: nat) -> Pos {
    Pos {
        x: (lcg_iter(seed, 2 * k + 1) % (WIDTH as u32)) as i16,
        y: (lcg_iter(seed, 2 * k + 2) % (HEIGHT as u32)) as i16,
    }
}

/// Whether attempt `k` is the first that picks a cell off the snake.
pub open spec fn first_free_attempt(g: GameView, k: nat) -> bool {
    &&& !in_body(g.snake, g.len as int, food_candidate(g.seed, k))
    &&& forall|j: nat| j < k ==> in_body(g.snake, g.len as int, #[trigger] food_candidate(g.seed, j))
}

/// Whether placing food ends: some attempt picks a cell off the snake.
pub open spec fn food_reachable(g: GameView) -> bool {
    exists|k: nat| !in_body(g.snake, g.len as int, #[trigger] food_candidate(g.seed, k))
}

/// The attempt at which food is placed.
pub open spec fn food_attempt(g: GameView) -> nat {
    choose|k: nat| first_free_attempt(g, k)
}

/// The game after food is placed on the first free cell the generator picks.
pub open spec fn with_food(g: GameView) -> GameView {
    let k = food_attempt(g);
    GameView { food: food_candidate(g.seed, k), seed: lcg_iter(g.seed, 2 * k + 2), ..g }
}

proof fn lemma_lcg_iter_step(seed: u32, n: nat)
    ensures
        lcg_iter(seed, n + 1) == lcg(lcg_iter(seed, n)),
        lcg_iter(seed, 0) == seed,
{
    reveal(lcg_iter);
    assert(lcg_iter(seed, n + 1) == lcg(lcg_iter(seed, ((n + 1) - 1) as nat)));
}

proof fn lemma_with_food(g: GameView)
    requires
        food_reachable(g),
    ensures
        !in_body(g.snake, g.len as int, with_food(g).food),
        on_board(with_food(g).food),
{
    reveal(food_candidate);
    let w = choose|k: nat| !in_body(g.snake, g.len as int, #[trigger] food_candidate(g.seed, k));
    lemma_least_free(g, w);
    let k = food_attempt(g);
    assert(first_free_attempt(g, k));
}

/// Some attempt is the first free one when any attempt is free.
proof fn lemma_least_free(g: GameView, w: nat)
    requires
        !in_body(g.snake, g.len as int, food_candidate(g.seed, w)),
    ensures
        exists|k: nat| first_free_attempt(g, k),
    decreases w,
{
    if forall|j: nat| j < w ==> in_body(g.snake, g.len as int, #[trigger] food_candidate(g.seed, j)) {
        assert(first_free_attempt(g, w));
    } else {
        let j = choose|j: nat| j < w && !in_body(g.snake, g.len as int, #[trigger] food_candidate(g.seed, j));
        lemma_least_free(g, j);
    }
}

proof fn lemma_first_free_unique(g: GameView, a: nat, b: nat)
    requires
        first_free_attempt(g, a),
        first_free_attempt(g, b),
    ensures
        a == b,
{
    if a < b {
        assert(in_body(g.snake, g.len as int, food_candidate(g.seed, a)));
    } else if b < a {
        assert(in_body(g.snake, g.len as int, food_candidate(g.seed, b)));
    }
}

proof fn lemma_lcg_low_bits(s: u32)
    ensures
        lcg(s) % 16 == (13 * (s % 16) + 15) % 16,
{
    reveal(lcg);
    let m = s * 1664525;
    assert(m % 0x1_0000_0000 % 16 == m % 16) by {
        vstd::arithmetic::div_mod::lemma_mod_mod(m, 16, 0x1000_0000);
    }
    let w = (m % 0x1_0000_0000) as u32;
    assert((w + 1013904223) % 0x1_0000_0000 % 16 == (w + 1013904223) % 16) by {
        vstd::arithmetic::div_mod::lemma_mod_mod(w + 1013904223, 16, 0x1000_0000);
    }
    assert((s * 1664525 + 1013904223) % 16 == (13 * (s % 16) + 15) % 16) by {
        let t = s / 16;
        let u = s % 16;
        assert(s * 1664525 + 1013904223 == 16 * (t * 1664525 + 63369013) + u * 1664525 + 15) by (nonlinear_arith)
            requires
                s == 16 * t + u,
        ;
        assert(u * 1664525 == 16 * (u * 104032) + 13 * u) by (nonlinear_arith);
        vstd::arithmetic::div_mod::lemma_mod_multiples_vanish(t * 1664525 + 63369013 + u * 104032, 13 * u + 15, 16);
    }
    vstd::arithmetic::div_mod::lemma_add_mod_noop(m, 1013904223, 16);
    vstd::arithmetic::div_mod::lemma_add_mod_noop(w as int, 1013904223, 16);
}

/// A game's first food is always placed: the rows of the first two cells
/// drawn cannot both be row 8, where the starting snake lies, since the
/// generator's low four bits turn 8 into 10 two draws later.
pub proof fn lemma_start_food_reachable(seed: u32)
    ensures
        food_reachable(start_view(seed)),
{
    reveal(food_candidate);
    let g = start_view(seed);
    let s2 = lcg_iter(seed, 2);
    lemma_lcg_iter_step(seed, 2);
    lemma_lcg_iter_step(seed, 3);
    lemma_lcg_low_bits(s2);
    lemma_lcg_low_bits(lcg(s2));
    let c0 = food_candidate(seed, 0);
    let c1 = food_candidate(seed, 1);
    assert(c0.y != 8 || c1.y != 8);
    if c0.y != 8 {
        assert(!in_body(g.snake, g.len as int, food_candidate(g.seed, 0nat)));
    } else {
        assert(!in_body(g.snake, g.len as int, food_candidate(g.seed, 1nat)));
    }
}

/// The cell next to `p` in direction `d`.
pub open spec fn neighbour(p: Pos, d: Direction) -> Pos {
    match d {
        Direction::Up => Pos { x: p.x, y: (p.y - 1) as i16 },
        Direction::Down => Pos { x: p.x, y: (p.y + 1) as i16 },
        Direction::Left => Pos { x: (p.x - 1) as i16, y: p.y },
        Direction::Right => Pos { x: (p.x + 1) as i16, y: p.y },
    }
}

pub open spec fn opposite(a: Direction, b: Direction) -> bool {
    (a == Direction::Up && b == Direction::Down) || (a == Direction::Down && b == Direction::Up) || (a
        == Direction::Left && b == Direction::Right) || (a == Direction::Right && b == Direction::Left)
}

/// The direction the snake moves in after a key asks for `next` while it
/// moves in `dir`.
pub open spec fn steered(dir: Direction, next: Direction) -> Direction {
    if opposite(dir, next) {
        dir
    } else {
        next
    }
}

/// A key never turns the snake straight back: from any cell, a step in the
/// old direction followed by a step in the new one never comes back to that
/// cell, so the head never moves onto its neck. A key asking for the reverse
/// of the current direction (up while moving down, down while moving up,
/// left while moving right, right while moving left) leaves the direction
/// as it is, and every other key is obeyed.
pub proof fn lemma_never_turns_back(dir: Direction, next: Direction, p: Pos)
    requires
        -100 <= p.x <= 100,
        -100 <= p.y <= 100,
    ensures
        neighbour(neighbour(p, dir), steered(dir, next)) != p,
        neighbour(neighbour(p, dir), next) != p ==> steered(dir, next) == next,
        dir == Direction::Down && next == Direction::Up ==> steered(dir, next) == Direction::Down,
        dir == Direction::Up && next == Direction::Down ==> steered(dir, next) == Direction::Up,
        dir == Direction::Left && next == Direction::Right ==> steered(dir, next) == Direction::Left,
        dir == Direction::Right && next == Direction::Left ==> steered(dir, next) == Direction::Right,
{
}

impl GameView {
    /// The invariant every game keeps: the body lies on the board and never
    /// crosses itself, and while the game runs the food is off the body.
    pub open spec fn wf(self) -> bool {
        &&& self.snake.len() == MAX_SNAKE_LEN
        &&& 1 <= self.len <= MAX_SNAKE_LEN - 1
        &&& forall|i: int| 0 <= i < self.len ==> on_board(#[trigger] self.snake[i])
        &&& forall|i: int, j: int| 0 <= i < j < self.len ==> self.snake[i] != self.snake[j]
        &&& !self.over ==> !in_body(self.snake, self.len as int, self.food)
    }

    /// The body after the head moves to `next`: the first `m` cells shift
    /// back by one, where `m` is the length, or one less when not growing.
    pub open spec fn advanced(self, next: Pos, grow: bool) -> Seq<Pos> {
        let m = if grow { self.len as int } else { self.len - 1 };
        Seq::new(
            self.snake.len(),
            |i: int|
                if i == 0 {
                    next
                } else if i <= m {
                    self.snake[i - 1]
                } else {
                    self.snake[i]
                },
        )
    }

    /// Whether placing food after this step ends (it only matters when the
    /// snake eats and still has room to grow).
    pub open spec fn step_fits(self) -> bool {
        let next = neighbour(self.snake[0], self.dir);
        (!self.over && !self.quit && on_board(next) && !in_body(self.snake, self.len as int, next) && next
            == self.food && self.len < MAX_SNAKE_LEN - 1) ==> food_reachable(
            GameView { snake: self.advanced(next, true), len: (self.len + 1) as usize, ..self },
        )
    }

    /// One step: the head moves one cell; the game ends on a wall or on the
    /// body; eating makes the snake one longer and places new food, and a
    /// snake that can grow no more ends the game.
    pub open spec fn stepped(self) -> GameView {
        let next = neighbour(self.snake[0], self.dir);
        if self.over || self.quit {
            self
        } else if !on_board(next) || in_body(self.snake, self.len as int, next) {
            GameView { over: true, ..self }
        } else if next == self.food {
            let moved = GameView { snake: self.advanced(next, true), ..self };
            if self.len < MAX_SNAKE_LEN - 1 {
                with_food(GameView { len: (self.len + 1) as usize, ..moved })
            } else {
                GameView { over: true, ..moved }
            }
        } else {
            GameView { snake: self.advanced(next, false), ..self }
        }
    }
}

/// One step moves the head one cell in the snake's direction. A head that
/// would leave the board, or run into the body, ends the game. Otherwise the
/// new head is that cell, every other cell of the body takes the place of the
/// one in front of it, and the snake is one longer exactly when it reaches
/// the food.
pub proof fn lemma_step_moves_head(g: GameView)
    requires
        g.wf(),
        !g.over && !g.quit,
    ensures
        ({
            let h = g.snake[0];
            let ax = h.x + if g.dir == Direction::Left { -1int } else if g.dir == Direction::Right { 1int } else { 0int };
            let ay = h.y + if g.dir == Direction::Up { -1int } else if g.dir == Direction::Down { 1int } else { 0int };
            let t = g.stepped();
            &&& !(0 <= ax < WIDTH && 0 <= ay < HEIGHT) ==> t.over
            &&& (exists|i: int| 0 <= i < g.len && g.snake[i].x == ax && g.snake[i].y == ay) ==> t.over
            &&& !t.over ==> {
                &&& t.snake[0].x == ax && t.snake[0].y == ay
                &&& forall|i: int| 1 <= i < g.len ==> #[trigger] t.snake[i] == g.snake[i - 1]
                &&& t.len == if g.food.x == ax && g.food.y == ay { g.len + 1 } else { g.len as int }
            }
        }),
{
    let h = g.snake[0];
    let next = neighbour(h, g.dir);
    let ax = h.x + if g.dir == Direction::Left { -1int } else if g.dir == Direction::Right { 1int } else { 0int };
    let ay = h.y + if g.dir == Direction::Up { -1int } else if g.dir == Direction::Down { 1int } else { 0int };
    assert(on_board(h));
    assert(next.x == ax && next.y == ay);
    if exists|i: int| 0 <= i < g.len && g.snake[i].x == ax && g.snake[i].y == ay {
        let i = choose|i: int| 0 <= i < g.len && g.snake[i].x == ax && g.snake[i].y == ay;
        assert(g.snake[i] == next);
        assert(in_body(g.snake, g.len as int, next));
    }
}

/// The snake at the start: three cells pointing right from the middle.
pub open spec fn start_snake() -> Seq<Pos> {
    Seq::new(
        MAX_SNAKE_LEN as nat,
        |i: int|
            if i == 0 {
                Pos { x: 12, y: 8 }
            } else if i == 1 {
                Pos { x: 11, y: 8 }
            } else if i == 2 {
                Pos { x: 10, y: 8 }
            } else {
                Pos { x: 0, y: 0 }
            },
    )
}

pub open spec fn start_view(seed: u32) -> GameView {
    GameView {
        snake: start_snake(),
        len: 3,
        dir: Direction::Right,
        food: Pos { x: 0, y: 0 },
        seed,
        quit: false,
        over: false,
    }
}

/// The seed of a new game from the clock: the time, at least 1, cut to 32
/// bits as Rust's `as` does and mixed with a fixed pattern.
pub fn seed_from_time(time: isize) -> (seed: u32)
    ensures
        seed == ((if time < 1 { 1 } else { time }) as u32) ^ 0x5a5a_a5a5u32,
{
    let t = if time < 1 { 1 } else { time };
    (t as u32) ^ 0x5a5a_a5a5
}

impl Game {
    /// A fresh game with a three-cell snake in the middle and food placed
    /// from `seed`.
    pub fn new(seed: u32) -> (g: Game)
        ensures
            g@ == with_food(start_view(seed)),
            g@.wf(),
    {
        let mid_x = WIDTH / 2;
        let mid_y = HEIGHT / 2;
        let mut game = Self {
            snake: [Pos { x: 0, y: 0 }; MAX_SNAKE_LEN],
            len: 3,
            dir: Direction::Right,
            food: Pos { x: 0, y: 0 },
            seed,
            quit: false,
            over: false,
        };
        game.snake[0] = Pos { x: mid_x, y: mid_y };
        game.snake[1] = Pos { x: mid_x - 1, y: mid_y };
        game.snake[2] = Pos { x: mid_x - 2, y: mid_y };
        assert(game.snake@ =~= start_snake());
        proof { lemma_start_food_reachable(seed); }
        game.place_food();
        game
    }

    /// Puts the food on the first cell off the snake that the generator picks.
    #[verifier::rlimit(100)]
    pub fn place_food(&mut self)
        requires
            food_reachable(old(self)@),
            old(self).len <= MAX_SNAKE_LEN,
        ensures
            final(self)@ == with_food(old(self)@),
            !in_body(final(self)@.snake, final(self).len as int, final(self).food),
            on_board(final(self).food),
    {
        proof { lemma_with_food(self@); }
        let ghost g = self@;
        let ghost witness = choose|k: nat| !in_body(g.snake, g.len as int, #[trigger] food_candidate(g.seed, k));
        let ghost mut k: nat = 0;
        proof { lemma_lcg_iter_step(g.seed, 0); }
        loop
            invariant_except_break
                self.food == g.food,
                self.seed == lcg_iter(g.seed, 2 * k),
            invariant
                self.snake@ == g.snake,
                self.len == g.len,
                self.dir == g.dir,
                self.quit == g.quit,
                self.over == g.over,
                !in_body(g.snake, g.len as int, food_candidate(g.seed, witness)),
                forall|j: nat| j < k ==> in_body(g.snake, g.len as int, #[trigger] food_candidate(g.seed, j)),
                k <= witness,
                g.len <= MAX_SNAKE_LEN,
            ensures
                self.snake@ == g.snake,
                self.len == g.len,
                self.dir == g.dir,
                self.quit == g.quit,
                self.over == g.over,
                self.food == with_food(g).food,
                self.seed == with_food(g).seed,
            decreases witness - k,
        {
            proof {
                lemma_lcg_iter_step(g.seed, 2 * k);
                lemma_lcg_iter_step(g.seed, 2 * k + 1);
            }
            let x = (self.next_rand() % (WIDTH as u32)) as i16;
            let y = (self.next_rand() % (HEIGHT as u32)) as i16;
            let p = Pos { x, y };
            assert(p == food_candidate(g.seed, k)) by {
                reveal(food_candidate);
            }
            if !self.contains(p) {
                self.food = p;
                proof {
                    assert(first_free_attempt(g, k));
                    lemma_first_free_unique(g, k, food_attempt(g));
                }
                break;
            }
            proof {
                if k == witness {
                    assert(false);
                }
                k = k + 1;
            }
        }
        assert(self@ == with_food(g));
    }

    /// Advances the generator and returns its new value.
    pub fn next_rand(&mut self) -> (r: u32)
        ensures
            r == lcg(old(self).seed),
            final(self)@ == (GameView { seed: lcg(old(self).seed), ..old(self)@ }),
    {
        proof { reveal(lcg); }
        self.seed = self.seed.wrapping_mul(1664525).wrapping_add(1013904223);
        self.seed
    }

    /// Whether `p` is on the snake's body.
    pub fn contains(&self, p: Pos) -> (r: bool)
        requires
            self.len <= MAX_SNAKE_LEN,
        ensures
            r == in_body(self.snake@, self.len as int, p),
    {
        let mut i: usize = 0;
        while i < self.len
            invariant
                0 <= i <= self.len <= MAX_SNAKE_LEN,
                forall|k: int| 0 <= k < i ==> #[trigger] self.snake@[k] != p,
            decreases self.len - i,
        {
            if self.snake[i] == p {
                return true;
            }
            i += 1;
        }
        false
    }

    /// Turns the snake, except straight back.
    pub fn set_direction(&mut self, next: Direction)
        ensures
            final(self).dir == steered(old(self).dir, next),
            final(self)@ == if opposite(old(self).dir, next) {
                old(self)@
            } else {
                GameView { dir: next, ..old(self)@ }
            },
    {
        let reverse = match (self.dir, next) {
            (Direction::Up, Direction::Down) => true,
            (Direction::Down, Direction::Up) => true,
            (Direction::Left, Direction::Right) => true,
            (Direction::Right, Direction::Left) => true,
            _ => false,
        };
        if reverse {
            return;
        }
        self.dir = next;
    }

    /// One step of the game, as `GameView::stepped` describes it.
    pub fn step(&mut self)
        requires
            old(self)@.wf(),
            old(self)@.step_fits(),
        ensures
            final(self)@ == old(self)@.stepped(),
            final(self)@.wf(),
    {
        if self.over || self.quit {
            return;
        }
        let head = self.snake[0];
        let next = match self.dir {
            Direction::Up => Pos { x: head.x, y: head.y - 1 },
            Direction::Down => Pos { x: head.x, y: head.y + 1 },
            Direction::Left => Pos { x: head.x - 1, y: head.y },
            Direction::Right => Pos { x: head.x + 1, y: head.y },
        };
        if next.x < 0 || next.x >= WIDTH || next.y < 0 || next.y >= HEIGHT {
            self.over = true;
            return;
        }
        if self.contains(next) {
            self.over = true;
            return;
        }
        let grow = next == self.food;
        let ghost before = self@;
        let mut i = if grow { self.len } else { self.len - 1 };
        while i > 0
            invariant
                i <= (if grow { before.len as int } else { before.len - 1 }),
                before.wf(),
                self@ == (GameView { snake: self.snake@, ..before }),
                forall|k: int|
                    0 <= k < MAX_SNAKE_LEN ==> #[trigger] self.snake@[k] == if k > i && k <= (if grow {
                        before.len as int
                    } else {
                        before.len - 1
                    }) {
                        before.snake[k - 1]
                    } else {
                        before.snake[k]
                    },
            decreases i,
        {
            self.snake[i] = self.snake[i - 1];
            i -= 1;
        }
        self.snake[0] = next;
        assert(self.snake@ =~= before.advanced(next, grow));
        proof { self.lemma_advanced_wf(before, next, grow); }
        if grow {
            if self.len < MAX_SNAKE_LEN - 1 {
                self.len += 1;
                self.place_food();
            } else {
                self.over = true;
            }
        }
    }

    proof fn lemma_advanced_wf(&self, before: GameView, next: Pos, grow: bool)
        requires
            before.wf(),
            on_board(next),
            !in_body(before.snake, before.len as int, next),
            grow == (next == before.food),
        ensures
            grow && before.len < MAX_SNAKE_LEN - 1 ==> {
                let s = before.advanced(next, true);
                &&& forall|i: int| 0 <= i < before.len + 1 ==> on_board(#[trigger] s[i])
                &&& forall|i: int, j: int| 0 <= i < j < before.len + 1 ==> s[i] != s[j]
            },
            !grow ==> (GameView { snake: before.advanced(next, false), ..before }).wf(),
    {
        let s = before.advanced(next, grow);
        let m = if grow { before.len as int } else { before.len - 1 };
        assert forall|i: int, j: int| 0 <= i < j <= m implies s[i] != s[j] by {
            if i == 0 {
                assert(before.snake[j - 1] != next);
            } else {
                assert(before.snake[i - 1] != before.snake[j - 1]);
            }
        }
        if !grow {
            if in_body(s, before.len as int, before.food) {
                let k = choose|k: int| 0 <= k < before.len && #[trigger] s[k] == before.food;
                if k > 0 {
                    assert(before.snake[k - 1] == before.food);
                }
            }
        }
    }

    /// The score: how much the snake grew.
    pub fn score(&self) -> (s: usize)
        ensures
            s == if self.len < 3 { 0 } else { self.len - 3 },
    {
        self.len.saturating_sub(3)
    }
}

/// Applies one key: `w`, `s`, `a`, `d` turn the snake, `q` quits.
pub fn handle_key(game: &mut Game, key: u8)
    ensures
        final(game)@ == if key == 0x77 || key == 0x57 {
            if opposite(old(game).dir, Direction::Up) { old(game)@ } else { GameView { dir: Direction::Up, ..old(game)@ } }
        } else if key == 0x73 || key == 0x53 {
            if opposite(old(game).dir, Direction::Down) { old(game)@ } else { GameView { dir: Direction::Down, ..old(game)@ } }
        } else if key == 0x61 || key == 0x41 {
            if opposite(old(game).dir, Direction::Left) { old(game)@ } else { GameView { dir: Direction::Left, ..old(game)@ } }
        } else if key == 0x64 || key == 0x44 {
            if opposite(old(game).dir, Direction::Right) { old(game)@ } else { GameView { dir: Direction::Right, ..old(game)@ } }
        } else if key == 0x71 || key == 0x51 {
            GameView { quit: true, ..old(game)@ }
        } else {
            old(game)@
        },
        key == 0x77 || key == 0x57 ==> final(game).dir == steered(old(game).dir, Direction::Up),
        key == 0x73 || key == 0x53 ==> final(game).dir == steered(old(game).dir, Direction::Down),
        key == 0x61 || key == 0x41 ==> final(game).dir == steered(old(game).dir, Direction::Left),
        key == 0x64 || key == 0x44 ==> final(game).dir == steered(old(game).dir, Direction::Right),
{
    match key {
        0x77 | 0x57 => game.set_direction(Direction::Up),
        0x73 | 0x53 => game.set_direction(Direction::Down),
        0x61 | 0x41 => game.set_direction(Direction::Left),
        0x64 | 0x44 => game.set_direction(Direction::Right),
        0x71 | 0x51 => game.quit = true,
        _ => {},
    }
}

/// Whether `p` is one of the cells `1..len` of the snake, behind the head.
pub open spec fn in_tail(snake: Seq<Pos>, len: int, p: Pos) -> bool {
    exists|i: int| 1 <= i < len && #[trigger] snake[i] == p
}

/// What is on cell `(x, y)`: 1 the head, 2 the body, 3 the food, 0 nothing.
pub open spec fn cell_of(g: GameView, x: i16, y: i16) -> u8 {
    let p = Pos { x, y };
    if g.snake[0] == p {
        1
    } else if in_tail(g.snake, g.len as int, p) {
        2
    } else if g.food == p {
        3
    } else {
        0
    }
}

pub fn cell(game: &Game, x: i16, y: i16) -> (c: u8)
    requires
        game.len <= MAX_SNAKE_LEN,
    ensures
        c == cell_of(game@, x, y),
{
    let p = Pos { x, y };
    if game.snake[0] == p {
        return 1;
    }
    let mut i: usize = 1;
    while i < game.len
        invariant
            1 <= i,
            i <= game.len || game.len == 0,
            game.len <= MAX_SNAKE_LEN,
            forall|k: int| 1 <= k < i ==> #[trigger] game.snake@[k] != p,
            game.snake@[0] != p,
            p == (Pos { x, y }),
        decreases game.len - i,
    {
        if game.snake[i] == p {
            assert(game.snake@[i as int] == p);
            assert(in_tail(game.snake@, game.len as int, p));
            return 2;
        }
        i += 1;
    }
    if game.food == p { 3 } else { 0 }
}

pub const COLOR_BG: u32 = 0xff121418;
pub const COLOR_BOARD_BG: u32 = 0xff1e2228;
pub const COLOR_BORDER: u32 = 0xff3a3f4a;
pub const COLOR_HEAD: u32 = 0xff4caf50;
pub const COLOR_BODY: u32 = 0xff7bc67e;
pub const COLOR_FOOD: u32 = 0xffef5350;
pub const COLOR_SCORE: u32 = 0xffab47bc;
pub const COLOR_OVER: u32 = 0xffe53935;

/// Where the board is drawn, in pixels.
#[derive(Clone, Copy, Debug, PartialEq, Eq)]
pub struct Layout {
    pub width: usize,
    pub height: usize,
    pub cell_px: usize,
    pub board_w: usize,
    pub board_h: usize,
    pub origin_x: usize,
    pub origin_y: usize,
}

/// The layout of a `width` by `height` screen: square cells as large as
/// leave room for four more columns and six more rows (at least eight
/// pixels), and the board centred.
#[verifier::opaque]
pub open spec fn layout_of(width: usize, height: usize) -> Layout {
    let a = width / 28;
    let b = height / 22;
    let m = if a <= b { a } else { b };
    let cell_px = if 8 >= m { 8 } else { m };
    Layout {
        width,
        height,
        cell_px,
        board_w: (24 * cell_px) as usize,
        board_h: (16 * cell_px) as usize,
        origin_x: sat_sub_spec(width, (24 * cell_px) as usize) / 2,
        origin_y: sat_sub_spec(height, (16 * cell_px) as usize) / 2,
    }
}

pub fn build_layout(width: usize, height: usize) -> (l: Layout)
    ensures
        l == layout_of(width, height),
        l.width == width,
        8 <= l.cell_px,
        l.board_w == 24 * l.cell_px,
        l.board_h == 16 * l.cell_px,
        l.origin_x + l.board_w + 8 <= usize::MAX,
        l.origin_y + l.board_h <= usize::MAX,
        l.board_h + 8 <= usize::MAX,
{
    proof { reveal(layout_of); }
    // Room for four more columns and six more rows: 28 columns, 22 rows.
    let a = width / 28;
    let b = height / 22;
    let m = if a <= b { a } else { b };
    let cell_px = if 8 >= m { 8 } else { m };
    assert(cell_px == 8 || (cell_px <= a && cell_px <= b));
    let board_w = 24 * cell_px;
    let board_h = 16 * cell_px;
    let origin_x = (width.saturating_sub(board_w)) / 2;
    let origin_y = (height.saturating_sub(board_h)) / 2;
    Layout { width, height, cell_px, board_w, board_h, origin_x, origin_y }
}

/// Every screen at most `usize::MAX - 12` pixels tall leaves room for the
/// score bar below the board.
pub proof fn lemma_layout_room(width: usize, height: usize)
    requires
        height + 12 <= usize::MAX,
    ensures
        layout_of(width, height).origin_y + layout_of(width, height).board_h + 12 <= usize::MAX,
{
    reveal(layout_of);
}

/// What the screen showed when it was last drawn.
#[derive(Clone, Copy, Debug)]
pub struct RenderState {
    pub initialized: bool,
    pub prev_cells: [u8; MAX_SNAKE_LEN],
    pub prev_mode: u8,
    pub prev_score_bar: usize,
    pub prev_over: bool,
}

impl RenderState {
    /// Nothing drawn yet.
    pub fn new() -> (st: Self)
        ensures
            !st.initialized,
            st.prev_cells@ == Seq::new(MAX_SNAKE_LEN as nat, |i: int| 0u8),
            st.prev_mode == 0,
            st.prev_score_bar == 0,
            !st.prev_over,
    {
        let st = Self {
            initialized: false,
            prev_cells: [0; MAX_SNAKE_LEN],
            prev_mode: 0,
            prev_score_bar: 0,
            prev_over: false,
        };
        assert(st.prev_cells@ =~= Seq::new(MAX_SNAKE_LEN as nat, |i: int| 0u8));
        st
    }
}

/// What every cell of the board shows, row by row.
pub open spec fn board_cells(g: GameView) -> Seq<u8> {
    Seq::new(MAX_SNAKE_LEN as nat, |idx: int| cell_of(g, (idx % 24) as i16, (idx / 24) as i16))
}

pub open spec fn cell_color(c: u8) -> u32 {
    if c == 1 {
        COLOR_HEAD
    } else if c == 2 {
        COLOR_BODY
    } else if c == 3 {
        COLOR_FOOD
    } else {
        COLOR_BOARD_BG
    }
}

/// The square of cell `idx`, one pixel smaller than the grid.
pub open spec fn cell_rect(l: Layout, idx: int, c: u8) -> Rect {
    Rect {
        x: (l.origin_x + (idx % 24) * l.cell_px) as usize,
        y: (l.origin_y + (idx / 24) * l.cell_px) as usize,
        w: sat_sub_spec(l.cell_px, 1),
        h: sat_sub_spec(l.cell_px, 1),
        color: cell_color(c),
    }
}

/// The cells before `n` that need drawing: all on the first frame, then
/// those that changed.
pub open spec fn cells_rects(l: Layout, cur: Seq<u8>, prev: Seq<u8>, init: bool, n: int) -> Seq<Rect>
    decreases n,
{
    if n <= 0 {
        seq![]
    } else {
        let k = n - 1;
        let rest = cells_rects(l, cur, prev, init, k);
        if !init || prev[k] != cur[k] {
            rest.push(cell_rect(l, k, cur[k]))
        } else {
            rest
        }
    }
}

/// The width of the score bar: a little over half a cell per point, at
/// most the board's width.
pub open spec fn score_bar_of(g: GameView, l: Layout) -> int {
    let score = if g.len < 3 { 0 } else { g.len - 3 };
    let w = sat_mul_spec(score as usize, (l.cell_px / 2 + 1) as usize) as int;
    if l.board_w <= w {
        l.board_w as int
    } else {
        w
    }
}

/// The frame on the first frame: background, border and empty board.
pub open spec fn frame_part(l: Layout, init: bool) -> Seq<Rect> {
    if !init {
        seq![
            Rect { x: 0, y: 0, w: l.width, h: l.height, color: COLOR_BG },
            Rect { x: sat_sub_spec(l.origin_x, 4), y: sat_sub_spec(l.origin_y, 4), w: (l.board_w + 8) as usize, h: (l.board_h + 8) as usize, color: COLOR_BORDER },
            Rect { x: l.origin_x, y: l.origin_y, w: l.board_w, h: l.board_h, color: COLOR_BOARD_BG },
        ]
    } else {
        seq![]
    }
}

/// The mode bar, the score bar (grown, or shrunk by painting the
/// background), and the game-over band.
#[verifier::opaque]
pub open spec fn status_part(g: GameView, mode: InputMode, st: RenderState, l: Layout) -> Seq<Rect> {
    let init = st.initialized;
    let y = (l.origin_y + l.board_h + 12) as usize;
    let bar = score_bar_of(g, l);
    let prev = st.prev_score_bar as int;
    let mode_bar = if !init || st.prev_mode != spec_mode_id(mode) {
        seq![Rect { x: l.origin_x, y: sat_sub_spec(l.origin_y, 24), w: l.board_w, h: 12, color: spec_mode_color(mode) }]
    } else {
        seq![]
    };
    let score = if !init {
        if bar > 0 {
            seq![Rect { x: l.origin_x, y, w: bar as usize, h: 10, color: COLOR_SCORE }]
        } else {
            seq![]
        }
    } else if bar > prev {
        seq![Rect { x: (l.origin_x + prev) as usize, y, w: (bar - prev) as usize, h: 10, color: COLOR_SCORE }]
    } else if bar < prev {
        seq![Rect { x: (l.origin_x + bar) as usize, y, w: (prev - bar) as usize, h: 10, color: COLOR_BG }]
    } else {
        seq![]
    };
    let oy = (l.origin_y + l.board_h / 2 - 6) as usize;
    let over = if g.over || g.quit {
        seq![Rect { x: l.origin_x, y: oy, w: l.board_w, h: 12, color: COLOR_OVER }]
    } else if st.prev_over {
        seq![Rect { x: l.origin_x, y: oy, w: l.board_w, h: 12, color: COLOR_BOARD_BG }]
    } else {
        seq![]
    };
    mode_bar + score + over
}

/// Everything a frame draws, in order.
pub open spec fn render_rects(g: GameView, mode: InputMode, st: RenderState, l: Layout) -> Seq<Rect> {
    frame_part(l, st.initialized) + cells_rects(l, board_cells(g), st.prev_cells@, st.initialized, MAX_SNAKE_LEN as int)
        + status_part(g, mode, st, l)
}

/// What a frame remembers of the game it drew.
pub open spec fn rendered_state(g: GameView, mode: InputMode, l: Layout, st: RenderState) -> bool {
    &&& st.initialized
    &&& st.prev_cells@ == board_cells(g)
    &&& st.prev_mode == spec_mode_id(mode)
    &&& st.prev_score_bar == score_bar_of(g, l)
    &&& st.prev_over == (g.over || g.quit)
}

fn push_frame_part(plan: &mut Vec<Rect>, layout: &Layout, init: bool)
    requires
        layout.board_w + 8 <= usize::MAX,
        layout.board_h + 8 <= usize::MAX,
    ensures
        final(plan)@ == old(plan)@ + frame_part(*layout, init),
{
    if !init {
        plan.push(Rect { x: 0, y: 0, w: layout.width, h: layout.height, color: COLOR_BG });
        plan.push(Rect {
            x: layout.origin_x.saturating_sub(4),
            y: layout.origin_y.saturating_sub(4),
            w: layout.board_w + 8,
            h: layout.board_h + 8,
            color: COLOR_BORDER,
        });
        plan.push(Rect { x: layout.origin_x, y: layout.origin_y, w: layout.board_w, h: layout.board_h, color: COLOR_BOARD_BG });
    }
    assert(plan@ =~= old(plan)@ + frame_part(*layout, init));
}

/// Works out every cell of the board and appends the squares to redraw.
fn push_cells(plan: &mut Vec<Rect>, game: &Game, layout: &Layout, state: &RenderState) -> (cur: [u8; MAX_SNAKE_LEN])
    requires
        game.len <= MAX_SNAKE_LEN,
        layout.board_w == 24 * layout.cell_px,
        layout.board_h == 16 * layout.cell_px,
        layout.origin_x + layout.board_w <= usize::MAX,
        layout.origin_y + layout.board_h <= usize::MAX,
    ensures
        cur@ == board_cells(game@),
        final(plan)@ == old(plan)@ + cells_rects(*layout, board_cells(game@), state.prev_cells@, state.initialized, MAX_SNAKE_LEN as int),
{
    let ghost start = plan@;
    let mut cur_cells = [0u8; MAX_SNAKE_LEN];
    let mut idx: usize = 0;
    while idx < MAX_SNAKE_LEN
        invariant
            0 <= idx <= MAX_SNAKE_LEN,
            game.len <= MAX_SNAKE_LEN,
            layout.board_w == 24 * layout.cell_px,
            layout.board_h == 16 * layout.cell_px,
            layout.origin_x + layout.board_w <= usize::MAX,
            layout.origin_y + layout.board_h <= usize::MAX,
            forall|k: int| 0 <= k < idx ==> #[trigger] cur_cells@[k] == board_cells(game@)[k],
            plan@ == start + cells_rects(*layout, board_cells(game@), state.prev_cells@, state.initialized, idx as int),
        decreases MAX_SNAKE_LEN - idx,
    {
        let x = (idx % 24) as i16;
        let y = (idx / 24) as i16;
        let cur = cell(game, x, y);
        cur_cells[idx] = cur;
        if !state.initialized || state.prev_cells[idx] != cur {
            let color = match cur {
                1 => COLOR_HEAD,
                2 => COLOR_BODY,
                3 => COLOR_FOOD,
                _ => COLOR_BOARD_BG,
            };
            proof {
                assert((idx % 24) * layout.cell_px <= 24 * layout.cell_px) by (nonlinear_arith)
                    requires idx % 24 < 24, 0 <= layout.cell_px;
                assert((idx / 24) * layout.cell_px <= 16 * layout.cell_px) by (nonlinear_arith)
                    requires idx / 24 < 16, 0 <= layout.cell_px;
            }
            plan.push(Rect {
                x: layout.origin_x + (idx % 24) * layout.cell_px,
                y: layout.origin_y + (idx / 24) * layout.cell_px,
                w: layout.cell_px.saturating_sub(1),
                h: layout.cell_px.saturating_sub(1),
                color,
            });
        }
        assert(plan@ =~= start + cells_rects(*layout, board_cells(game@), state.prev_cells@, state.initialized, idx + 1));
        idx += 1;
    }
    assert(cur_cells@ =~= board_cells(game@));
    cur_cells
}

#[verifier::rlimit(40)]
fn push_status_part(plan: &mut Vec<Rect>, game: &Game, mode: InputMode, state: &RenderState, layout: &Layout) -> (bar: usize)
    requires
        8 <= layout.cell_px,
        layout.board_w == 24 * layout.cell_px,
        layout.board_h == 16 * layout.cell_px,
        layout.origin_x + layout.board_w <= usize::MAX,
        layout.origin_y + layout.board_h + 12 <= usize::MAX,
    ensures
        bar == score_bar_of(game@, *layout),
        final(plan)@ == old(plan)@ + status_part(game@, mode, *state, *layout),
{
    proof { reveal(status_part); }
    let init = state.initialized;
    let ox = layout.origin_x;
    let oy = layout.origin_y;
    let bw = layout.board_w;
    let bh = layout.board_h;
    if !init || state.prev_mode != mode_id(mode) {
        plan.push(Rect { x: ox, y: oy.saturating_sub(24), w: bw, h: 12, color: mode_color(mode) });
    }
    let w = saturating_mul(game.score(), layout.cell_px / 2 + 1);
    let score_bar = if bw <= w { bw } else { w };
    let prev = state.prev_score_bar;
    if !init {
        if score_bar > 0 {
            plan.push(Rect { x: ox, y: oy + bh + 12, w: score_bar, h: 10, color: COLOR_SCORE });
        }
    } else if score_bar > prev {
        plan.push(Rect { x: ox + prev, y: oy + bh + 12, w: score_bar - prev, h: 10, color: COLOR_SCORE });
    } else if score_bar < prev {
        plan.push(Rect { x: ox + score_bar, y: oy + bh + 12, w: prev - score_bar, h: 10, color: COLOR_BG });
    }
    let cur_over = game.over || game.quit;
    if cur_over {
        plan.push(Rect { x: ox, y: oy + bh / 2 - 6, w: bw, h: 12, color: COLOR_OVER });
    } else if state.prev_over {
        plan.push(Rect { x: ox, y: oy + bh / 2 - 6, w: bw, h: 12, color: COLOR_BOARD_BG });
    }
    assert(plan@ =~= old(plan)@ + status_part(game@, mode, *state, *layout));
    score_bar
}

proof fn lemma_small_layout(l: Layout)
    requires
        l == layout_of(l.width, l.height),
        l.width <= SMALL_SIDE,
        l.height <= SMALL_SIDE,
    ensures
        8 <= l.cell_px <= 73,
        l.board_w == 24 * l.cell_px,
        l.board_h == 16 * l.cell_px,
        l.origin_x <= 1024,
        l.origin_y <= 1024,
{
    reveal(layout_of);
}

proof fn lemma_cells_rects_small(l: Layout, cur: Seq<u8>, prev: Seq<u8>, init: bool, n: int)
    requires
        l == layout_of(l.width, l.height),
        l.width <= SMALL_SIDE,
        l.height <= SMALL_SIDE,
        n <= MAX_SNAKE_LEN,
    ensures
        rects_small(cells_rects(l, cur, prev, init, n)),
    decreases n,
{
    if n > 0 {
        let k = n - 1;
        lemma_cells_rects_small(l, cur, prev, init, k);
        lemma_small_layout(l);
        assert((k % 24) * l.cell_px <= 23 * 73) by (nonlinear_arith)
            requires 0 <= k % 24 <= 23, l.cell_px <= 73;
        assert((k / 24) * l.cell_px <= 15 * 73) by (nonlinear_arith)
            requires 0 <= k / 24 <= 15, l.cell_px <= 73;
        assert(rect_small(cell_rect(l, k, cur[k])));
    }
}

/// On a screen no larger than `SMALL_SIDE` a side, every frame after one
/// drawn at that size (or after none) can be drawn within machine integers,
/// so `render_gui` can be called.
#[verifier::rlimit(60)]
pub proof fn lemma_render_fits(g: GameView, mode: InputMode, st: RenderState, width: usize, height: usize)
    requires
        width <= SMALL_SIDE,
        height <= SMALL_SIDE,
        st.prev_score_bar <= 0x1_0000,
    ensures
        rects_fit(width as int, render_rects(g, mode, st, layout_of(width, height))),
{
    let l = layout_of(width, height);
    reveal(layout_of);
    lemma_small_layout(l);
    reveal(status_part);
    reveal(sat_mul_spec);
    let frame = frame_part(l, st.initialized);
    let cells = cells_rects(l, board_cells(g), st.prev_cells@, st.initialized, MAX_SNAKE_LEN as int);
    lemma_cells_rects_small(l, board_cells(g), st.prev_cells@, st.initialized, MAX_SNAKE_LEN as int);
    assert(rects_small(frame));
    assert(rects_small(status_part(g, mode, st, l)));
    lemma_rects_small_concat(frame, cells);
    lemma_rects_small_concat(frame + cells, status_part(g, mode, st, l));
    lemma_small_rects_fit(width as int, render_rects(g, mode, st, l));
}

/// Draws one frame into a `width` by `height` framebuffer, redrawing only
/// what changed since the last frame, and remembers what it drew.
pub fn render_gui(
    game: &Game,
    mode: InputMode,
    state: &mut RenderState,
    framebuffer: &mut [u8],
    width: usize,
    height: usize,
)
    requires
        game.len <= MAX_SNAKE_LEN,
        layout_of(width, height).origin_y + layout_of(width, height).board_h + 12 <= usize::MAX,
        rects_fit(width as int, render_rects(game@, mode, *old(state), layout_of(width, height))),
    ensures
        final(framebuffer)@ == paint_spec(
            old(framebuffer)@,
            width as int,
            render_rects(game@, mode, *old(state), layout_of(width, height)),
        ),
        rendered_state(game@, mode, layout_of(width, height), *final(state)),
{
    let layout = build_layout(width, height);
    let mut plan: Vec<Rect> = Vec::new();
    push_frame_part(&mut plan, &layout, state.initialized);
    assert(plan@ =~= frame_part(layout, state.initialized));
    let cur_cells = push_cells(&mut plan, game, &layout, state);
    let score_bar = push_status_part(&mut plan, game, mode, state, &layout);
    paint(framebuffer, width, &plan);
    state.prev_cells = cur_cells;
    state.prev_mode = mode_id(mode);
    state.prev_score_bar = score_bar;
    state.prev_over = game.over || game.quit;
    state.initialized = true;
}

} // verus!
