//! Breakout: a paddle, a ball and five rows of ten bricks; the game can be
//! saved to and restored from a small binary record.
use vstd::prelude::*;
use crate::framebuffer::{
    saturating_mul, sat_mul_spec, sat_sub_spec, MAX_SIDE, Rect, paint, paint_spec, rects_fit,
};
use crate::framebuffer::{SMALL_SIDE, rect_small, rects_small, lemma_small_rects_fit, lemma_rects_small_concat};
use crate::mode::{InputMode, mode_id, mode_color, spec_mode_id, spec_mode_color};

verus! {

/// Milliseconds per physics step.
pub const TICK_MS: isize = 20;
pub const BRICK_ROWS: usize = 5;
pub const BRICK_COLS: usize = 10;
pub const BRICK_COUNT: usize = 50;
/// The first four bytes of a saved game.
pub const SAVE_MAGIC: u32 = 0x4252_4b54;
/// The size of a saved game in bytes.
pub const SAVE_BYTES: usize = 44;

/// Where everything is drawn, in pixels; positions in the field are relative
/// to its corner `(field_x, field_y)`.
#[derive(Clone, Copy, Debug, PartialEq, Eq)]
pub struct Layout {
    pub width: usize,
    pub height: usize,
    pub field_x: usize,
    pub field_y: usize,
    pub field_w: usize,
    pub field_h: usize,
    pub paddle_w: usize,
    pub paddle_h: usize,
    pub ball_s: usize,
    pub brick_top: usize,
    pub brick_gap: usize,
    pub brick_w: usize,
    pub brick_h: usize,
}

pub open spec fn max_int(a: int, b: int) -> int {
    if a >= b {
        a
    } else {
        b
    }
}

pub open spec fn min_int(a: int, b: int) -> int {
    if a <= b {
        a
    } else {
        b
    }
}

/// The layout of a `width` by `height` screen: a field of nine tenths of the
/// width and eight tenths of the height, centred and moved twelve pixels
/// down, with paddle, ball and bricks sized from the field.
#[verifier::opaque]
pub open spec fn layout_of(width: usize, height: usize) -> Layout {
    let field_w = sat_mul_spec(width, 9) / 10;
    let field_h = sat_mul_spec(height, 8) / 10;
    let brick_gap = max_int(2, (field_w / 220) as int) as usize;
    Layout {
        width,
        height,
        field_x: sat_sub_spec(width, field_w) / 2,
        field_y: (sat_sub_spec(height, field_h) / 2 + 12) as usize,
        field_w,
        field_h,
        paddle_w: max_int(80, (field_w / 7) as int) as usize,
        paddle_h: max_int(10, (field_h / 35) as int) as usize,
        ball_s: max_int(8, (field_w / 100) as int) as usize,
        brick_top: 16,
        brick_gap,
        brick_w: sat_sub_spec(field_w, (brick_gap * (BRICK_COLS + 1)) as usize) / BRICK_COLS,
        brick_h: max_int(14, (field_h / 28) as int) as usize,
    }
}

/// Whether `v` fits in an `i32`.
pub open spec fn fits_i32(v: int) -> bool {
    i32::MIN <= v <= i32::MAX
}

impl Layout {
    /// Whether the sizes the physics reads, and the brick grid made from
    /// them, fit in an `i32`.
    pub open spec fn sizes_fit(self) -> bool {
        &&& self.field_w <= i32::MAX
        &&& self.field_h <= i32::MAX
        &&& self.paddle_w <= i32::MAX
        &&& self.paddle_h + self.ball_s + 10 <= i32::MAX
        &&& self.brick_gap + 9 * (self.brick_w + self.brick_gap) + self.brick_w <= i32::MAX
        &&& self.brick_top + 4 * (self.brick_h + self.brick_gap) + self.brick_h <= i32::MAX
    }

    /// Whether every screen position a frame computes from the layout fits
    /// in a `usize`, and the middle band starts below the screen's top.
    pub open spec fn draw_fits(self) -> bool {
        &&& self.sizes_fit()
        &&& self.field_x + self.field_w + 8 <= usize::MAX
        &&& self.field_y + self.field_h + 6 <= usize::MAX
        &&& self.field_x + self.brick_gap + 9 * (self.brick_w + self.brick_gap) <= usize::MAX
        &&& self.field_y + self.brick_top + 4 * (self.brick_h + self.brick_gap) <= usize::MAX
        &&& self.field_y + self.field_h / 2 >= 12
    }

    /// The layout of a screen whose sides are at most `MAX_SIDE` pixels.
    pub open spec fn wf(self) -> bool {
        &&& self == layout_of(self.width, self.height)
        &&& self.width <= MAX_SIDE
        &&& self.height <= MAX_SIDE
    }
}

/// On screens up to `LAYOUT_SIDE_LIMIT` pixels a side, the built layout's
/// sizes fit in an `i32` and its screen positions in a `usize`.
pub proof fn lemma_built_layout_fits(width: usize, height: usize)
    requires
        width <= crate::framebuffer::LAYOUT_SIDE_LIMIT,
        height <= crate::framebuffer::LAYOUT_SIDE_LIMIT,
    ensures
        layout_of(width, height).sizes_fit(),
        layout_of(width, height).draw_fits(),
{
    reveal(layout_of);
    reveal(sat_mul_spec);
}

pub fn build_layout(width: usize, height: usize) -> (l: Layout)
    ensures
        l == layout_of(width, height),
{
    proof { reveal(layout_of); }
    let field_w = saturating_mul(width, 9) / 10;
    let field_h = saturating_mul(height, 8) / 10;
    let field_x = (width.saturating_sub(field_w)) / 2;
    let field_y = (height.saturating_sub(field_h)) / 2 + 12;
    let paddle_w = if 80 >= field_w / 7 { 80 } else { field_w / 7 };
    let paddle_h = if 10 >= field_h / 35 { 10 } else { field_h / 35 };
    let ball_s = if 8 >= field_w / 100 { 8 } else { field_w / 100 };
    let brick_gap = if 2 >= field_w / 220 { 2 } else { field_w / 220 };
    let brick_w = (field_w.saturating_sub(brick_gap * (BRICK_COLS + 1))) / BRICK_COLS;
    let brick_h = if 14 >= field_h / 28 { 14 } else { field_h / 28 };
    let brick_top: usize = 16;
    Layout {
        width,
        height,
        field_x,
        field_y,
        field_w,
        field_h,
        paddle_w,
        paddle_h,
        ball_s,
        brick_top,
        brick_gap,
        brick_w,
        brick_h,
    }
}

/// A layout of a screen no larger than `MAX_SIDE` keeps every size small.
pub proof fn lemma_layout_bounds(l: Layout)
    requires
        l.wf(),
    ensures
        l.field_w <= MAX_SIDE,
        l.field_h <= MAX_SIDE,
        l.field_x <= MAX_SIDE,
        12 <= l.field_y <= MAX_SIDE + 12,
        8 <= l.ball_s <= MAX_SIDE,
        80 <= l.paddle_w <= MAX_SIDE,
        10 <= l.paddle_h <= MAX_SIDE,
        2 <= l.brick_gap <= MAX_SIDE,
        l.brick_w <= MAX_SIDE,
        14 <= l.brick_h <= MAX_SIDE,
        l.brick_top == 16,
        l.sizes_fit(),
        l.draw_fits(),
{
    reveal(layout_of);
    reveal(sat_mul_spec);
}

#[derive(Clone, Copy, Debug, PartialEq, Eq)]
pub struct Ball {
    pub x: i32,
    pub y: i32,
    pub vx: i32,
    pub vy: i32,
}

/// A game of Breakout.
pub struct Game {
    pub paddle_x: i32,
    pub ball: Ball,
    pub score: usize,
    pub lives: usize,
    pub bricks: [bool; BRICK_COUNT],
    pub running: bool,
    pub paused: bool,
    pub quit: bool,
}

/// The state of a game of Breakout as a value.
pub struct GameView {
    pub paddle_x: i32,
    pub ball: Ball,
    pub score: usize,
    pub lives: usize,
    pub bricks: Seq<bool>,
    pub running: bool,
    pub paused: bool,
    pub quit: bool,
}

impl View for Game {
    type V = GameView;

    open spec fn view(&self) -> GameView {
        GameView {
            paddle_x: self.paddle_x,
            ball: self.ball,
            score: self.score,
            lives: self.lives,
            bricks: self.bricks@,
            running: self.running,
            paused: self.paused,
            quit: self.quit,
        }
    }
}

/// The row of the paddle's top edge.
pub open spec fn paddle_top(l: Layout) -> int {
    sat_sub_spec(l.field_h, (l.paddle_h + 8) as usize) as int
}

/// The ball put back above the paddle: it leaves to the right when the score
/// is even and to the left when it is odd, upwards.
pub open spec fn reset_ball_of(l: Layout, score: usize) -> Ball {
    Ball {
        x: sat_sub_spec(l.field_w / 2, l.ball_s / 2) as i32,
        y: sat_sub_spec(l.field_h, (l.paddle_h + l.ball_s + 10) as usize) as i32,
        vx: if score % 2 == 0 { 2i32 } else { -2i32 },
        vy: -2i32,
    }
}

/// Integer division that rounds towards zero.
pub open spec fn trunc_div(a: int, d: int) -> int {
    if a >= 0 {
        a / d
    } else {
        -((-a) / d)
    }
}

/// The new horizontal speed after the ball hits the paddle: the distance from
/// the paddle's centre in sixths of its width, between -4 and 4, and never 0.
pub open spec fn paddle_bounce(ball_x: int, paddle_x: int, l: Layout, score: usize) -> int {
    let hit = (ball_x + l.ball_s / 2) - (paddle_x + l.paddle_w / 2);
    let v = trunc_div(hit, max_int(1, (l.paddle_w / 6) as int));
    let c = if v < -4 {
        -4
    } else if v > 4 {
        4
    } else {
        v
    };
    if c == 0 {
        if score % 2 == 0 {
            1
        } else {
            -1
        }
    } else {
        c
    }
}

pub open spec fn brick_left(l: Layout, idx: int) -> int {
    l.brick_gap + (idx % 10) * (l.brick_w + l.brick_gap)
}

pub open spec fn brick_top(l: Layout, idx: int) -> int {
    l.brick_top + (idx / 10) * (l.brick_h + l.brick_gap)
}

/// Whether the ball's box touches brick `idx`.
pub open spec fn touches_brick(l: Layout, idx: int, left: int, right: int, top: int, bottom: int) -> bool {
    &&& right >= brick_left(l, idx)
    &&& left <= brick_left(l, idx) + l.brick_w
    &&& bottom >= brick_top(l, idx)
    &&& top <= brick_top(l, idx) + l.brick_h
}

/// The first standing brick from `idx` on, row by row, that the ball's box
/// touches, or `BRICK_COUNT` when there is none.
pub open spec fn first_hit(
    bricks: Seq<bool>,
    l: Layout,
    idx: int,
    left: int,
    right: int,
    top: int,
    bottom: int,
) -> int
    decreases BRICK_COUNT - idx,
{
    if idx >= BRICK_COUNT {
        BRICK_COUNT as int
    } else if bricks[idx] && touches_brick(l, idx, left, right, top, bottom) {
        idx
    } else {
        first_hit(bricks, l, idx + 1, left, right, top, bottom)
    }
}

/// Whether no brick stands.
pub open spec fn all_cleared(bricks: Seq<bool>) -> bool {
    forall|i: int| 0 <= i < BRICK_COUNT ==> !#[trigger] bricks[i]
}

/// Coordinates and speeds for which one physics step stays within `i32`.
pub open spec fn ball_in_range(b: Ball) -> bool {
    &&& -0x1000_0000 <= b.x <= 0x1000_0000
    &&& -0x1000_0000 <= b.y <= 0x1000_0000
    &&& -0x100_0000 <= b.vx <= 0x100_0000
    &&& -0x100_0000 <= b.vy <= 0x100_0000
}

impl GameView {
    /// Whether the paddle and the ball lie in a range that every physics
    /// step keeps (see `lemma_tick_keeps_fits`), on a screen of a built
    /// layout.
    pub open spec fn in_safe_range(self) -> bool {
        (self.running && !self.paused && !self.quit) ==> {
            &&& ball_in_range(self.ball)
            &&& -0x1000_0000 <= self.paddle_x <= 0x1000_0000
        }
    }

    /// Whether one physics step on layout `l` stays within `i32`: every sum,
    /// difference and negation that the step computes fits.
    pub open spec fn tick_fits(self, l: Layout) -> bool {
        (self.running && !self.paused && !self.quit) ==> {
            let b = self.ball;
            let x1 = b.x + b.vx;
            let y1 = b.y + b.vy;
            let x2 = if x1 <= 0 { 0 } else { x1 };
            let vx2 = if x1 <= 0 { -b.vx } else { b.vx as int };
            let max_x = sat_sub_spec(l.field_w, l.ball_s) as int;
            let m = moved_ball(b, l);
            let p = after_paddle(m, self.paddle_x as int, l, self.score);
            let left = m.x as int;
            let right = m.x + l.ball_s;
            let top = m.y as int;
            let bottom = m.y + l.ball_s;
            let k = first_hit(self.bricks, l, 0, left, right, top, bottom);
            let bl = brick_left(l, k);
            let bt = brick_top(l, k);
            let ox = min_int(right, bl + l.brick_w) - max_int(left, bl);
            let oy = min_int(bottom, bt + l.brick_h) - max_int(top, bt);
            &&& fits_i32(x1)
            &&& fits_i32(y1)
            &&& x1 <= 0 ==> fits_i32(-b.vx)
            &&& x2 >= max_x ==> fits_i32(-vx2)
            &&& y1 <= 0 ==> fits_i32(-b.vy)
            &&& fits_i32(right)
            &&& fits_i32(bottom)
            &&& fits_i32(self.paddle_x + l.paddle_w)
            &&& on_paddle(m, self.paddle_x as int, l) ==> fits_i32(m.x + l.ball_s / 2)
                && fits_i32((m.x + l.ball_s / 2) - (self.paddle_x + l.paddle_w / 2))
            &&& k < BRICK_COUNT ==> (if ox < oy { fits_i32(-p.vx) } else { fits_i32(-p.vy) })
        }
    }

    /// One physics step: the ball moves, bounces off the walls, the top and
    /// the paddle, knocks out the first brick it touches (ten points), and
    /// costs a life when it leaves the bottom; the game stops when no brick
    /// or no life is left.
    pub open spec fn ticked(self, l: Layout) -> GameView {
        if !self.running || self.paused || self.quit {
            self
        } else {
            let m = moved_ball(self.ball, l);
            let p = after_paddle(m, self.paddle_x as int, l, self.score);
            let left = m.x as int;
            let right = m.x + l.ball_s;
            let top = m.y as int;
            let bottom = m.y + l.ball_s;
            let k = first_hit(self.bricks, l, 0, left, right, top, bottom);
            if k < BRICK_COUNT {
                let bl = brick_left(l, k);
                let bt = brick_top(l, k);
                let ox = min_int(right, bl + l.brick_w) - max_int(left, bl);
                let oy = min_int(bottom, bt + l.brick_h) - max_int(top, bt);
                let bricks = self.bricks.update(k, false);
                GameView {
                    ball: if ox < oy {
                        Ball { vx: -p.vx as i32, ..p }
                    } else {
                        Ball { vy: -p.vy as i32, ..p }
                    },
                    bricks,
                    score: if self.score + 10 > usize::MAX { usize::MAX } else { (self.score + 10) as usize },
                    running: !all_cleared(bricks),
                    ..self
                }
            } else if p.y < 0 || p.y > l.field_h {
                let lives = if self.lives > 0 { (self.lives - 1) as usize } else { 0 };
                if lives == 0 {
                    GameView { ball: p, lives, running: false, ..self }
                } else {
                    GameView { ball: reset_ball_of(l, self.score), lives, ..self }
                }
            } else {
                GameView { ball: p, ..self }
            }
        }
    }
}

/// The ball after it moves by its speed and bounces off the left and right
/// walls and the top.
pub open spec fn moved_ball(b: Ball, l: Layout) -> Ball {
    let x1 = b.x + b.vx;
    let y1 = b.y + b.vy;
    let x2 = if x1 <= 0 { 0 } else { x1 };
    let vx2 = if x1 <= 0 { -b.vx } else { b.vx as int };
    let max_x = sat_sub_spec(l.field_w, l.ball_s) as int;
    Ball {
        x: (if x2 >= max_x { max_x } else { x2 }) as i32,
        vx: (if x2 >= max_x { -vx2 } else { vx2 }) as i32,
        y: (if y1 <= 0 { 0 } else { y1 }) as i32,
        vy: (if y1 <= 0 { -b.vy } else { b.vy as int }) as i32,
    }
}

/// Whether a falling ball touches the paddle.
pub open spec fn on_paddle(b: Ball, paddle_x: int, l: Layout) -> bool {
    let pt = paddle_top(l);
    &&& b.vy > 0
    &&& b.y + l.ball_s >= pt
    &&& b.y <= pt + l.paddle_h
    &&& b.x + l.ball_s >= paddle_x
    &&& b.x <= paddle_x + l.paddle_w
}

/// The ball after the paddle sends it back up: it rests on the paddle, moves
/// up, and leaves sideways by where it hit.
pub open spec fn after_paddle(b: Ball, paddle_x: int, l: Layout, score: usize) -> Ball {
    if on_paddle(b, paddle_x, l) {
        Ball {
            x: b.x,
            y: (paddle_top(l) - l.ball_s) as i32,
            vx: paddle_bounce(b.x as int, paddle_x, l, score) as i32,
            vy: (if b.vy < 0 { b.vy as int } else { -b.vy }) as i32,
        }
    } else {
        b
    }
}

proof fn lemma_brick_box(l: Layout, idx: int)
    requires
        l.sizes_fit(),
        0 <= idx < BRICK_COUNT,
    ensures
        (idx % 10) * (l.brick_w + l.brick_gap) <= 9 * (l.brick_w + l.brick_gap),
        (idx / 10) * (l.brick_h + l.brick_gap) <= 4 * (l.brick_h + l.brick_gap),
        0 <= brick_left(l, idx),
        brick_left(l, idx) + l.brick_w <= i32::MAX,
        0 <= brick_top(l, idx),
        brick_top(l, idx) + l.brick_h <= i32::MAX,
{
    let c = idx % 10;
    let r = idx / 10;
    assert(c * (l.brick_w + l.brick_gap) <= 9 * (l.brick_w + l.brick_gap)) by (nonlinear_arith)
        requires 0 <= c <= 9, 0 <= l.brick_w + l.brick_gap;
    assert(r * (l.brick_h + l.brick_gap) <= 4 * (l.brick_h + l.brick_gap)) by (nonlinear_arith)
        requires 0 <= r <= 4, 0 <= l.brick_h + l.brick_gap;
    assert(0 <= c * (l.brick_w + l.brick_gap)) by (nonlinear_arith)
        requires 0 <= c, 0 <= l.brick_w + l.brick_gap;
    assert(0 <= r * (l.brick_h + l.brick_gap)) by (nonlinear_arith)
        requires 0 <= r, 0 <= l.brick_h + l.brick_gap;
}

impl Game {
    /// A fresh game: the paddle in the middle, three lives, every brick standing.
    pub fn new(layout: &Layout) -> (g: Game)
        requires
            layout.sizes_fit(),
        ensures
            g@ == (GameView {
                paddle_x: sat_sub_spec(layout.field_w / 2, layout.paddle_w / 2) as i32,
                ball: reset_ball_of(*layout, 0),
                score: 0,
                lives: 3,
                bricks: Seq::new(BRICK_COUNT as nat, |i: int| true),
                running: true,
                paused: false,
                quit: false,
            }),
    {
        proof { }
        let mut game = Self {
            paddle_x: (layout.field_w / 2).saturating_sub(layout.paddle_w / 2) as i32,
            ball: Ball {
                x: (layout.field_w / 2) as i32,
                y: (layout.field_h.saturating_sub(layout.paddle_h + 24)) as i32,
                vx: 2,
                vy: -2,
            },
            score: 0,
            lives: 3,
            bricks: [true; BRICK_COUNT],
            running: true,
            paused: false,
            quit: false,
        };
        game.reset_ball(layout);
        assert(game.bricks@ =~= Seq::new(BRICK_COUNT as nat, |i: int| true));
        game
    }

    /// Puts the ball back above the paddle.
    pub fn reset_ball(&mut self, layout: &Layout)
        requires
            layout.sizes_fit(),
        ensures
            final(self)@ == (GameView { ball: reset_ball_of(*layout, old(self).score), ..old(self)@ }),
    {
        proof { }
        self.ball.x = (layout.field_w / 2).saturating_sub(layout.ball_s / 2) as i32;
        self.ball.y = (layout.field_h.saturating_sub(layout.paddle_h + layout.ball_s + 10)) as i32;
        self.ball.vx = if self.score % 2 == 0 { 2 } else { -2 };
        self.ball.vy = -2;
    }

    /// The row of the paddle's top edge.
    pub fn paddle_y(&self, layout: &Layout) -> (y: i32)
        requires
            layout.sizes_fit(),
        ensures
            y == paddle_top(*layout),
    {
        proof { }
        layout.field_h.saturating_sub(layout.paddle_h + 8) as i32
    }

    /// Moves the paddle by `delta` and keeps it inside the field.
    pub fn move_paddle(&mut self, layout: &Layout, delta: i32)
        requires
            layout.sizes_fit(),
            i32::MIN <= old(self).paddle_x + delta <= i32::MAX,
        ensures
            final(self)@ == (GameView {
                paddle_x: ({
                    let p = old(self).paddle_x + delta;
                    let max_x = sat_sub_spec(layout.field_w, layout.paddle_w) as int;
                    if p < 0 {
                        0
                    } else if p > max_x {
                        max_x
                    } else {
                        p
                    }
                }) as i32,
                ..old(self)@
            }),
            0 <= final(self).paddle_x <= sat_sub_spec(layout.field_w, layout.paddle_w),
    {
        proof { }
        self.paddle_x += delta;
        let max_x = layout.field_w.saturating_sub(layout.paddle_w) as i32;
        if self.paddle_x < 0 {
            self.paddle_x = 0;
        }
        if self.paddle_x > max_x {
            self.paddle_x = max_x;
        }
    }

    /// Whether every brick is gone.
    pub fn won(&self) -> (w: bool)
        ensures
            w == all_cleared(self.bricks@),
    {
        let mut i: usize = 0;
        while i < BRICK_COUNT
            invariant
                0 <= i <= BRICK_COUNT,
                forall|k: int| 0 <= k < i ==> !#[trigger] self.bricks@[k],
            decreases BRICK_COUNT - i,
        {
            if self.bricks[i] {
                return false;
            }
            i += 1;
        }
        true
    }

    /// The first standing brick, row by row, that the ball's box touches, or
    /// `BRICK_COUNT` when there is none.
    fn find_hit(&self, layout: &Layout, left: i32, right: i32, top: i32, bottom: i32) -> (k: usize)
        requires
            layout.sizes_fit(),
        ensures
            k == first_hit(self.bricks@, *layout, 0, left as int, right as int, top as int, bottom as int),
    {
        let mut idx: usize = 0;
        while idx < BRICK_COUNT
            invariant
                0 <= idx <= BRICK_COUNT,
                layout.sizes_fit(),
                first_hit(self.bricks@, *layout, 0, left as int, right as int, top as int, bottom as int)
                    == first_hit(self.bricks@, *layout, idx as int, left as int, right as int, top as int, bottom as int),
            decreases BRICK_COUNT - idx,
        {
            let row = idx / BRICK_COLS;
            let col = idx % BRICK_COLS;
            if self.bricks[idx] {
                proof { lemma_brick_box(*layout, idx as int); }
                let bx = (layout.brick_gap + col * (layout.brick_w + layout.brick_gap)) as i32;
                let by = (layout.brick_top + row * (layout.brick_h + layout.brick_gap)) as i32;
                let bw = layout.brick_w as i32;
                let bh = layout.brick_h as i32;
                if right >= bx && left <= bx + bw && bottom >= by && top <= by + bh {
                    return idx;
                }
            }
            idx += 1;
        }
        BRICK_COUNT
    }

    /// Moves the ball by its speed and bounces it off the walls and the top.
    fn move_ball(&mut self, layout: &Layout)
        requires
            layout.sizes_fit(),
            fits_i32(old(self).ball.x + old(self).ball.vx),
            fits_i32(old(self).ball.y + old(self).ball.vy),
            old(self).ball.x + old(self).ball.vx <= 0 ==> fits_i32(-old(self).ball.vx),
            ({
                let b = old(self).ball;
                let x1 = b.x + b.vx;
                let x2 = if x1 <= 0 { 0 } else { x1 };
                let vx2 = if x1 <= 0 { -b.vx } else { b.vx as int };
                x2 >= sat_sub_spec(layout.field_w, layout.ball_s) ==> fits_i32(-vx2)
            }),
            old(self).ball.y + old(self).ball.vy <= 0 ==> fits_i32(-old(self).ball.vy),
        ensures
            final(self)@ == (GameView { ball: moved_ball(old(self).ball, *layout), ..old(self)@ }),
    {
        self.ball.x += self.ball.vx;
        self.ball.y += self.ball.vy;
        if self.ball.x <= 0 {
            self.ball.x = 0;
            self.ball.vx = -self.ball.vx;
        }
        let max_x = layout.field_w.saturating_sub(layout.ball_s) as i32;
        if self.ball.x >= max_x {
            self.ball.x = max_x;
            self.ball.vx = -self.ball.vx;
        }
        if self.ball.y <= 0 {
            self.ball.y = 0;
            self.ball.vy = -self.ball.vy;
        }
    }

    /// Sends a falling ball that touches the paddle back up.
    fn bounce_on_paddle(&mut self, layout: &Layout)
        requires
            layout.sizes_fit(),
            fits_i32(old(self).ball.x + layout.ball_s),
            fits_i32(old(self).ball.y + layout.ball_s),
            fits_i32(old(self).paddle_x + layout.paddle_w),
            on_paddle(old(self).ball, old(self).paddle_x as int, *layout) ==> fits_i32(
                old(self).ball.x + layout.ball_s / 2,
            ) && fits_i32((old(self).ball.x + layout.ball_s / 2) - (old(self).paddle_x + layout.paddle_w / 2)),
        ensures
            final(self)@ == (GameView {
                ball: after_paddle(old(self).ball, old(self).paddle_x as int, *layout, old(self).score),
                ..old(self)@
            }),
    {
        let paddle_y = self.paddle_y(layout);
        let ball_left = self.ball.x;
        let ball_right = self.ball.x + layout.ball_s as i32;
        let ball_top = self.ball.y;
        let ball_bottom = self.ball.y + layout.ball_s as i32;
        let paddle_left = self.paddle_x;
        let paddle_right = self.paddle_x + layout.paddle_w as i32;
        let paddle_top = paddle_y;
        let paddle_bottom = paddle_y + layout.paddle_h as i32;
        if self.ball.vy > 0 && ball_bottom >= paddle_top && ball_top <= paddle_bottom && ball_right
            >= paddle_left && ball_left <= paddle_right {
            self.ball.y = paddle_top - layout.ball_s as i32;
            self.ball.vy = if self.ball.vy < 0 { self.ball.vy } else { -self.ball.vy };
            let hit = (self.ball.x + layout.ball_s as i32 / 2) - (paddle_left + layout.paddle_w as i32 / 2);
            let sixth = layout.paddle_w as i32 / 6;
            let mut next_vx = hit / if 1 >= sixth { 1 } else { sixth };
            if next_vx < -4 {
                next_vx = -4;
            } else if next_vx > 4 {
                next_vx = 4;
            }
            if next_vx == 0 {
                next_vx = if self.score % 2 == 0 { 1 } else { -1 };
            }
            self.ball.vx = next_vx;
        }
    }

    /// One physics step of the ball, as `GameView::ticked` describes it.
    pub fn on_tick(&mut self, layout: &Layout)
        requires
            layout.sizes_fit(),
            old(self)@.tick_fits(*layout),
        ensures
            final(self)@ == old(self)@.ticked(*layout),
    {
        if !self.running || self.paused || self.quit {
            return;
        }
        let ghost g0 = self@;
        self.move_ball(layout);
        let ball_left = self.ball.x;
        let ball_right = self.ball.x + layout.ball_s as i32;
        let ball_top = self.ball.y;
        let ball_bottom = self.ball.y + layout.ball_s as i32;
        self.bounce_on_paddle(layout);

        let idx = self.find_hit(layout, ball_left, ball_right, ball_top, ball_bottom);
        if idx < BRICK_COUNT {
            let row = idx / BRICK_COLS;
            let col = idx % BRICK_COLS;
            proof {
                lemma_brick_box(*layout, idx as int);
                lemma_first_hit(g0.bricks, *layout, 0, ball_left as int, ball_right as int, ball_top as int, ball_bottom as int);
            }
            let b_left = (layout.brick_gap + col * (layout.brick_w + layout.brick_gap)) as i32;
            let b_top = (layout.brick_top + row * (layout.brick_h + layout.brick_gap)) as i32;
            let b_right = b_left + layout.brick_w as i32;
            let b_bottom = b_top + layout.brick_h as i32;
            self.bricks[idx] = false;
            self.score = self.score.saturating_add(10);
            let overlap_x = (if ball_right <= b_right { ball_right } else { b_right }) - (if ball_left
                >= b_left {
                ball_left
            } else {
                b_left
            });
            let overlap_y = (if ball_bottom <= b_bottom { ball_bottom } else { b_bottom }) - (if ball_top
                >= b_top {
                ball_top
            } else {
                b_top
            });
            if overlap_x < overlap_y {
                self.ball.vx = -self.ball.vx;
            } else {
                self.ball.vy = -self.ball.vy;
            }
            if self.won() {
                self.running = false;
            }
            return;
        }

        if self.ball.y < 0 || self.ball.y as usize > layout.field_h {
            if self.lives > 0 {
                self.lives -= 1;
            }
            if self.lives == 0 {
                self.running = false;
            } else {
                self.reset_ball(layout);
            }
        }
    }
}

proof fn lemma_first_hit(bricks: Seq<bool>, l: Layout, idx: int, left: int, right: int, top: int, bottom: int)
    requires
        0 <= idx <= BRICK_COUNT,
    ensures
        ({
            let k = first_hit(bricks, l, idx, left, right, top, bottom);
            &&& idx <= k <= BRICK_COUNT
            &&& k < BRICK_COUNT ==> bricks[k] && touches_brick(l, k, left, right, top, bottom)
        }),
    decreases BRICK_COUNT - idx,
{
    if idx < BRICK_COUNT && !(bricks[idx] && touches_brick(l, idx, left, right, top, bottom)) {
        lemma_first_hit(bricks, l, idx + 1, left, right, top, bottom);
    }
}

/// On a built layout, a game in the safe range can take a physics step, and
/// the step keeps it in that range, so a game can be stepped any number of
/// times.
pub proof fn lemma_tick_keeps_fits(g: GameView, l: Layout)
    requires
        l.wf(),
        g.in_safe_range(),
    ensures
        g.tick_fits(l),
        g.ticked(l).in_safe_range(),
        g.ticked(l).paddle_x == g.paddle_x,
{
    lemma_layout_bounds(l);
    if g.running && !g.paused && !g.quit {
        let m = moved_ball(g.ball, l);
        let p = after_paddle(m, g.paddle_x as int, l, g.score);
        let left = m.x as int;
        let right = m.x + l.ball_s;
        let top = m.y as int;
        let bottom = m.y + l.ball_s;
        lemma_first_hit(g.bricks, l, 0, left, right, top, bottom);
        let k = first_hit(g.bricks, l, 0, left, right, top, bottom);
        if k < BRICK_COUNT {
            assert(k / 10 <= 4);
            assert((k / 10) * (l.brick_h + l.brick_gap) <= 4 * (2 * MAX_SIDE)) by (nonlinear_arith)
                requires
                    0 <= k / 10 <= 4,
                    0 <= l.brick_h + l.brick_gap <= 2 * MAX_SIDE,
            ;
        }
    }
}

/// A physics step never puts a brick back, never lowers the score and
/// never gives a life back; it knocks out at most one brick, for ten points.
pub proof fn lemma_tick_monotone(g: GameView, l: Layout)
    requires
        g.bricks.len() == BRICK_COUNT,
    ensures
        ({
            let t = g.ticked(l);
            &&& t.bricks.len() == BRICK_COUNT
            &&& forall|i: int| 0 <= i < BRICK_COUNT && #[trigger] t.bricks[i] ==> g.bricks[i]
            &&& t.score >= g.score
            &&& t.lives <= g.lives
            &&& t.bricks != g.bricks ==> {
                &&& exists|k: int| 0 <= k < BRICK_COUNT && g.bricks[k] && t.bricks == g.bricks.update(k, false)
                &&& t.score == if g.score + 10 > usize::MAX { usize::MAX as int } else { g.score + 10 }
            }
        }),
{
    if g.running && !g.paused && !g.quit {
        let m = moved_ball(g.ball, l);
        let left = m.x as int;
        let right = m.x + l.ball_s;
        let top = m.y as int;
        let bottom = m.y + l.ball_s;
        lemma_first_hit(g.bricks, l, 0, left, right, top, bottom);
    }
}

/// The side walls turn the ball back. In a step where the ball moves up
/// inside the field and below the bricks, a ball that reaches the right wall
/// stops there, at `field_w - ball_s`, and leaves moving left at the same
/// speed; one that reaches the left wall stops at 0 and leaves moving right.
/// Its height and vertical speed follow its move, and nothing else changes.
pub proof fn lemma_side_walls(g: GameView, l: Layout)
    requires
        l.sizes_fit(),
        g.running && !g.paused && !g.quit,
        l.ball_s < l.field_w,
        g.ball.vx > i32::MIN,
        g.ball.vy < 0,
        0 < g.ball.y + g.ball.vy <= l.field_h,
        g.ball.y + g.ball.vy > l.brick_top + 4 * (l.brick_h + l.brick_gap) + l.brick_h,
    ensures
        g.ball.vx > 0 && g.ball.x + g.ball.vx >= l.field_w - l.ball_s ==> {
            &&& g.ticked(l).ball.x == l.field_w - l.ball_s
            &&& g.ticked(l).ball.vx == -g.ball.vx
        },
        g.ball.vx < 0 && g.ball.x + g.ball.vx <= 0 ==> {
            &&& g.ticked(l).ball.x == 0
            &&& g.ticked(l).ball.vx == -g.ball.vx
        },
        (g.ball.vx > 0 && g.ball.x + g.ball.vx >= l.field_w - l.ball_s) || (g.ball.vx < 0 && g.ball.x + g.ball.vx <= 0)
            ==> {
            &&& g.ticked(l).ball.y == g.ball.y + g.ball.vy
            &&& g.ticked(l).ball.vy == g.ball.vy
            &&& g.ticked(l) == GameView { ball: g.ticked(l).ball, ..g }
        },
{
    let m = moved_ball(g.ball, l);
    let left = m.x as int;
    let right = m.x + l.ball_s;
    let top = m.y as int;
    let bottom = m.y + l.ball_s;
    lemma_first_hit(g.bricks, l, 0, left, right, top, bottom);
    let k = first_hit(g.bricks, l, 0, left, right, top, bottom);
    if k < BRICK_COUNT {
        lemma_brick_box(l, k);
    }
}

/// A ball that falls below the field costs a life. In a step where the ball
/// moves down past the bottom of a field tall enough to hold the paddle and
/// the bricks above it, one life is lost (none below zero); the game ends when
/// none is left, and otherwise the ball is served again, upwards, to the right
/// when the score is even and to the left when it is odd. The score, the
/// bricks and the paddle stay as they were.
pub proof fn lemma_fall_costs_a_life(g: GameView, l: Layout)
    requires
        l.sizes_fit(),
        g.running && !g.paused && !g.quit,
        g.ball.vy > 0,
        l.field_h < g.ball.y + g.ball.vy <= i32::MAX,
        l.field_h >= l.paddle_h + 8,
        l.brick_top + 4 * (l.brick_h + l.brick_gap) + l.brick_h < l.field_h,
    ensures
        g.ticked(l).lives == if g.lives > 0 { g.lives - 1 } else { 0 },
        g.ticked(l).running <==> g.ticked(l).lives > 0,
        g.ticked(l).lives > 0 ==> {
            &&& g.ticked(l).ball.vy == -2
            &&& g.ticked(l).ball.vx == if g.score % 2 == 0 { 2int } else { -2int }
        },
        g.ticked(l).score == g.score,
        g.ticked(l).bricks == g.bricks,
        g.ticked(l).paddle_x == g.paddle_x,
{
    let m = moved_ball(g.ball, l);
    let left = m.x as int;
    let right = m.x + l.ball_s;
    let top = m.y as int;
    let bottom = m.y + l.ball_s;
    lemma_first_hit(g.bricks, l, 0, left, right, top, bottom);
    let k = first_hit(g.bricks, l, 0, left, right, top, bottom);
    if k < BRICK_COUNT {
        lemma_brick_box(l, k);
    }
}

/// What a key does in the main loop.
#[derive(Clone, Copy, Debug, PartialEq, Eq)]
pub enum KeyOutcome {
    /// Nothing.
    Ignored,
    /// The game changed and is drawn again.
    Changed,
    /// The caller saves the game.
    Save,
    /// The caller restores the saved game.
    Restore,
}

/// The game with the paddle moved by `delta` and kept inside the field.
pub open spec fn paddle_moved(g: GameView, l: Layout, delta: int) -> GameView {
    let p = g.paddle_x + delta;
    let max_x = sat_sub_spec(l.field_w, l.paddle_w) as int;
    GameView {
        paddle_x: (if p < 0 {
            0
        } else if p > max_x {
            max_x
        } else {
            p
        }) as i32,
        ..g
    }
}

/// The effect of a key: `a`/`j` move the paddle 18 pixels left and `d`/`l`
/// 18 pixels right, `p` pauses or resumes, `k` asks for a save, `r` for a
/// restore, `q` quits (either case of each letter); any other key does
/// nothing.
pub open spec fn key_effect(g: GameView, l: Layout, key: u8) -> (GameView, KeyOutcome) {
    if key == 0x61 || key == 0x41 || key == 0x6a || key == 0x4a {
        (paddle_moved(g, l, -18), KeyOutcome::Changed)
    } else if key == 0x64 || key == 0x44 || key == 0x6c || key == 0x4c {
        (paddle_moved(g, l, 18), KeyOutcome::Changed)
    } else if key == 0x70 || key == 0x50 {
        (GameView { paused: !g.paused, ..g }, KeyOutcome::Changed)
    } else if key == 0x6b || key == 0x4b {
        (g, KeyOutcome::Save)
    } else if key == 0x72 || key == 0x52 {
        (g, KeyOutcome::Restore)
    } else if key == 0x71 || key == 0x51 {
        (GameView { quit: true, ..g }, KeyOutcome::Changed)
    } else {
        (g, KeyOutcome::Ignored)
    }
}

/// Applies a key to the game, as `key_effect` describes it.
pub fn handle_key(game: &mut Game, layout: &Layout, key: u8) -> (out: KeyOutcome)
    requires
        layout.sizes_fit(),
        key == 0x61 || key == 0x41 || key == 0x6a || key == 0x4a ==> old(game).paddle_x >= i32::MIN + 18,
        key == 0x64 || key == 0x44 || key == 0x6c || key == 0x4c ==> old(game).paddle_x <= i32::MAX - 18,
    ensures
        (final(game)@, out) == key_effect(old(game)@, *layout, key),
{
    if key == 0x61 || key == 0x41 || key == 0x6a || key == 0x4a {
        game.move_paddle(layout, -18);
        KeyOutcome::Changed
    } else if key == 0x64 || key == 0x44 || key == 0x6c || key == 0x4c {
        game.move_paddle(layout, 18);
        KeyOutcome::Changed
    } else if key == 0x70 || key == 0x50 {
        game.paused = !game.paused;
        KeyOutcome::Changed
    } else if key == 0x6b || key == 0x4b {
        KeyOutcome::Save
    } else if key == 0x72 || key == 0x52 {
        KeyOutcome::Restore
    } else if key == 0x71 || key == 0x51 {
        game.quit = true;
        KeyOutcome::Changed
    } else {
        KeyOutcome::Ignored
    }
}

/// How many physics steps are due at `now` when the last ran at
/// `last_tick`: none before `TICK_MS` have passed, else one per `TICK_MS`
/// elapsed, at least one and at most four.
pub fn tick_steps(now: isize, last_tick: isize) -> (steps: Option<usize>)
    requires
        isize::MIN <= now - last_tick <= isize::MAX,
    ensures
        steps == if now - last_tick < TICK_MS {
            None::<usize>
        } else if (now - last_tick) / TICK_MS as int > 4 {
            Some(4usize)
        } else {
            Some(((now - last_tick) / TICK_MS as int) as usize)
        },
{
    let elapsed = now - last_tick;
    if elapsed < TICK_MS {
        return None;
    }
    let n = elapsed / TICK_MS;
    if n > 4 {
        Some(4)
    } else if n == 0 {
        Some(1)
    } else {
        Some(n as usize)
    }
}

/// The game after `n` physics steps.
pub open spec fn ticked_n(g: GameView, l: Layout, n: nat) -> GameView
    decreases n,
{
    if n == 0 {
        g
    } else {
        ticked_n(g, l, (n - 1) as nat).ticked(l)
    }
}

/// Runs `steps` physics steps.
pub fn run_ticks(game: &mut Game, layout: &Layout, steps: usize)
    requires
        layout.wf(),
        old(game)@.in_safe_range(),
    ensures
        final(game)@ == ticked_n(old(game)@, *layout, steps as nat),
        final(game)@.in_safe_range(),
        final(game).paddle_x == old(game).paddle_x,
{
    let mut i: usize = 0;
    while i < steps
        invariant
            layout.wf(),
            i <= steps,
            game@ == ticked_n(old(game)@, *layout, i as nat),
            game@.in_safe_range(),
            game.paddle_x == old(game).paddle_x,
        decreases steps - i,
    {
        proof {
            lemma_tick_keeps_fits(game@, *layout);
            lemma_layout_bounds(*layout);
        }
        game.on_tick(layout);
        i += 1;
    }
}

/// One step of writing or reading a saved game in full: after `offset` of
/// `len` bytes, a call that moved `ret` bytes fails the transfer when it
/// moved none or returned an error, and otherwise advances the offset; the
/// caller goes on while the offset is below `len`.
pub fn transfer_step(offset: usize, len: usize, ret: isize) -> (next: Option<usize>)
    requires
        offset < len <= isize::MAX,
    ensures
        next == if ret <= 0 { None::<usize> } else { Some((offset + ret) as usize) },
{
    if ret <= 0 {
        None
    } else {
        Some(offset + ret as usize)
    }
}

/// The four little-endian bytes of `v`.
pub open spec fn le_bytes32(v: u32) -> Seq<u8> {
    seq![(v & 0xff) as u8, ((v >> 8u32) & 0xff) as u8, ((v >> 16u32) & 0xff) as u8, ((v >> 24u32) & 0xff) as u8]
}

/// The eight little-endian bytes of `v`.
pub open spec fn le_bytes64(v: u64) -> Seq<u8> {
    seq![
        (v & 0xff) as u8,
        ((v >> 8u64) & 0xff) as u8,
        ((v >> 16u64) & 0xff) as u8,
        ((v >> 24u64) & 0xff) as u8,
        ((v >> 32u64) & 0xff) as u8,
        ((v >> 40u64) & 0xff) as u8,
        ((v >> 48u64) & 0xff) as u8,
        ((v >> 56u64) & 0xff) as u8,
    ]
}

/// The `u32` stored little-endian at `at`.
pub open spec fn read_le32(s: Seq<u8>, at: int) -> u32 {
    (s[at] as u32) | ((s[at + 1] as u32) << 8u32) | ((s[at + 2] as u32) << 16u32) | ((s[at + 3] as u32)
        << 24u32)
}

/// The `u64` stored little-endian at `at`.
pub open spec fn read_le64(s: Seq<u8>, at: int) -> u64 {
    (s[at] as u64) | ((s[at + 1] as u64) << 8u64) | ((s[at + 2] as u64) << 16u64) | ((s[at + 3] as u64)
        << 24u64) | ((s[at + 4] as u64) << 32u64) | ((s[at + 5] as u64) << 40u64) | ((s[at + 6] as u64)
        << 48u64) | ((s[at + 7] as u64) << 56u64)
}

pub proof fn lemma_le32_roundtrip(v: u32)
    ensures
        read_le32(le_bytes32(v), 0) == v,
{
    let b0 = (v & 0xff) as u8;
    let b1 = ((v >> 8u32) & 0xff) as u8;
    let b2 = ((v >> 16u32) & 0xff) as u8;
    let b3 = ((v >> 24u32) & 0xff) as u8;
    assert((b0 as u32) | ((b1 as u32) << 8u32) | ((b2 as u32) << 16u32) | ((b3 as u32) << 24u32) == v)
        by (bit_vector)
        requires
            b0 == (v & 0xff) as u8,
            b1 == ((v >> 8u32) & 0xff) as u8,
            b2 == ((v >> 16u32) & 0xff) as u8,
            b3 == ((v >> 24u32) & 0xff) as u8,
    ;
}

pub proof fn lemma_le64_roundtrip(v: u64)
    ensures
        read_le64(le_bytes64(v), 0) == v,
{
    let b0 = (v & 0xff) as u8;
    let b1 = ((v >> 8u64) & 0xff) as u8;
    let b2 = ((v >> 16u64) & 0xff) as u8;
    let b3 = ((v >> 24u64) & 0xff) as u8;
    let b4 = ((v >> 32u64) & 0xff) as u8;
    let b5 = ((v >> 40u64) & 0xff) as u8;
    let b6 = ((v >> 48u64) & 0xff) as u8;
    let b7 = ((v >> 56u64) & 0xff) as u8;
    assert((b0 as u64) | ((b1 as u64) << 8u64) | ((b2 as u64) << 16u64) | ((b3 as u64) << 24u64) | ((
    b4 as u64) << 32u64) | ((b5 as u64) << 40u64) | ((b6 as u64) << 48u64) | ((b7 as u64) << 56u64)
        == v) by (bit_vector)
        requires
            b0 == (v & 0xff) as u8,
            b1 == ((v >> 8u64) & 0xff) as u8,
            b2 == ((v >> 16u64) & 0xff) as u8,
            b3 == ((v >> 24u64) & 0xff) as u8,
            b4 == ((v >> 32u64) & 0xff) as u8,
            b5 == ((v >> 40u64) & 0xff) as u8,
            b6 == ((v >> 48u64) & 0xff) as u8,
            b7 == ((v >> 56u64) & 0xff) as u8,
    ;
}

/// Writes `value` little-endian at `*at` and moves `*at` past it.
pub fn put_u32(buf: &mut [u8], at: &mut usize, value: u32)
    requires
        *old(at) + 4 <= old(buf)@.len(),
    ensures
        *final(at) == *old(at) + 4,
        final(buf)@ == old(buf)@.take(*old(at) as int) + le_bytes32(value) + old(buf)@.skip(*old(at) + 4),
{
    let i = *at;
    buf[i] = (value & 0xff) as u8;
    buf[i + 1] = ((value >> 8) & 0xff) as u8;
    buf[i + 2] = ((value >> 16) & 0xff) as u8;
    buf[i + 3] = ((value >> 24) & 0xff) as u8;
    *at += 4;
    assert(buf@ =~= old(buf)@.take(i as int) + le_bytes32(value) + old(buf)@.skip(i + 4));
}

/// Writes the bits of `value` little-endian at `*at` and moves `*at` past them.
pub fn put_i32(buf: &mut [u8], at: &mut usize, value: i32)
    requires
        *old(at) + 4 <= old(buf)@.len(),
    ensures
        *final(at) == *old(at) + 4,
        final(buf)@ == old(buf)@.take(*old(at) as int) + le_bytes32(value as u32) + old(buf)@.skip(
            *old(at) + 4,
        ),
{
    put_u32(buf, at, value as u32);
}

/// Reads a little-endian `u32` at `*at` and moves `*at` past it.
pub fn get_u32(buf: &[u8], at: &mut usize) -> (v: u32)
    requires
        *old(at) + 4 <= buf@.len(),
    ensures
        *final(at) == *old(at) + 4,
        v == read_le32(buf@, *old(at) as int),
{
    let i = *at;
    let v = (buf[i] as u32) | ((buf[i + 1] as u32) << 8) | ((buf[i + 2] as u32) << 16) | ((buf[i + 3] as u32)
        << 24);
    *at += 4;
    v
}

/// Reads the bits of a little-endian `i32` at `*at` and moves `*at` past it.
pub fn get_i32(buf: &[u8], at: &mut usize) -> (v: i32)
    requires
        *old(at) + 4 <= buf@.len(),
    ensures
        *final(at) == *old(at) + 4,
        v == read_le32(buf@, *old(at) as int) as i32,
{
    get_u32(buf, at) as i32
}

/// The mask with bit `i` set for every standing brick among the first `n`.
pub open spec fn brick_bits(bricks: Seq<bool>, n: int) -> u64
    decreases n,
{
    if n <= 0 {
        0
    } else if bricks[n - 1] {
        brick_bits(bricks, n - 1) | (1u64 << ((n - 1) as u64))
    } else {
        brick_bits(bricks, n - 1)
    }
}

proof fn lemma_bit_of_or(a: u64, j: u64, i: u64)
    requires
        i < 64,
        j < 64,
    ensures
        ((a | (1u64 << j)) & (1u64 << i) != 0) == ((a & (1u64 << i) != 0) || i == j),
{
    assert(((a | (1u64 << j)) & (1u64 << i) != 0) == ((a & (1u64 << i) != 0) || i == j)) by (bit_vector)
        requires
            i < 64,
            j < 64,
    ;
}

/// Bit `i` of the mask tells whether brick `i` stands.
pub proof fn lemma_brick_bits(bricks: Seq<bool>, n: int, i: int)
    requires
        0 <= n <= 64,
        0 <= i < 64,
    ensures
        (brick_bits(bricks, n) & (1u64 << (i as u64)) != 0) == (i < n && bricks[i]),
    decreases n,
{
    if n <= 0 {
        assert(0u64 & (1u64 << (i as u64)) == 0) by (bit_vector);
    } else {
        lemma_brick_bits(bricks, n - 1, i);
        if bricks[n - 1] {
            lemma_bit_of_or(brick_bits(bricks, n - 1), (n - 1) as u64, i as u64);
        }
    }
}

/// The mask of the standing bricks: bit `i` for brick `i`.
pub fn encode_bricks(bricks: &[bool; BRICK_COUNT]) -> (bits: u64)
    ensures
        bits == brick_bits(bricks@, BRICK_COUNT as int),
{
    let mut bits = 0u64;
    let mut i: usize = 0;
    while i < BRICK_COUNT
        invariant
            0 <= i <= BRICK_COUNT,
            bits == brick_bits(bricks@, i as int),
        decreases BRICK_COUNT - i,
    {
        if bricks[i] {
            bits |= 1u64 << i;
        }
        i += 1;
    }
    bits
}

/// Sets each brick from its bit of the mask.
pub fn decode_bricks(bricks: &mut [bool; BRICK_COUNT], bits: u64)
    ensures
        forall|i: int| 0 <= i < BRICK_COUNT ==> #[trigger] final(bricks)@[i] == (bits & (1u64 << (i as u64)) != 0),
{
    let mut i: usize = 0;
    while i < BRICK_COUNT
        invariant
            0 <= i <= BRICK_COUNT,
            forall|k: int| 0 <= k < i ==> #[trigger] bricks@[k] == (bits & (1u64 << (k as u64)) != 0),
        decreases BRICK_COUNT - i,
    {
        bricks[i] = (bits & (1u64 << i)) != 0;
        i += 1;
    }
}

/// The three flags of a game packed into one word: running, paused, quit.
pub open spec fn flags_of(running: bool, paused: bool, quit: bool) -> u32 {
    (if running { 1u32 } else { 0u32 }) | (if paused { 2u32 } else { 0u32 }) | (if quit { 4u32 } else { 0u32 })
}

/// A saved game: the magic word, score, lives, paddle, ball position and
/// speed, the flags, each as a little-endian 32-bit word, then the brick
/// mask as a little-endian 64-bit word.
pub open spec fn save_record(g: GameView) -> Seq<u8> {
    le_bytes32(SAVE_MAGIC) + le_bytes32(g.score as u32) + le_bytes32(g.lives as u32) + le_bytes32(
        g.paddle_x as u32,
    ) + le_bytes32(g.ball.x as u32) + le_bytes32(g.ball.y as u32) + le_bytes32(g.ball.vx as u32)
        + le_bytes32(g.ball.vy as u32) + le_bytes32(flags_of(g.running, g.paused, g.quit)) + le_bytes64(
        brick_bits(g.bricks, BRICK_COUNT as int),
    )
}

/// The game that a record of `SAVE_BYTES` bytes describes, over `g`.
pub open spec fn restored(input: Seq<u8>) -> GameView {
    let flags = read_le32(input, 32);
    let bits = read_le64(input, 36);
    GameView {
        score: read_le32(input, 4) as usize,
        lives: read_le32(input, 8) as usize,
        paddle_x: read_le32(input, 12) as i32,
        ball: Ball {
            x: read_le32(input, 16) as i32,
            y: read_le32(input, 20) as i32,
            vx: read_le32(input, 24) as i32,
            vy: read_le32(input, 28) as i32,
        },
        running: flags & 1 != 0,
        paused: flags & 2 != 0,
        quit: flags & 4 != 0,
        bricks: Seq::new(BRICK_COUNT as nat, |i: int| bits & (1u64 << (i as u64)) != 0),
    }
}

proof fn lemma_flags(r: bool, p: bool, q: bool, ru: u32, pu: u32, qu: u32)
    requires
        ru == (if r { 1u32 } else { 0u32 }),
        pu == (if p { 1u32 } else { 0u32 }),
        qu == (if q { 1u32 } else { 0u32 }),
    ensures
        ru | (pu << 1u32) | (qu << 2u32) == flags_of(r, p, q),
{
    assert(ru | (pu << 1u32) | (qu << 2u32) == (if r { 1u32 } else { 0u32 }) | (if p { 2u32 } else { 0u32 }) | (
    if q { 4u32 } else { 0u32 })) by (bit_vector)
        requires
            ru == (if r { 1u32 } else { 0u32 }),
            pu == (if p { 1u32 } else { 0u32 }),
            qu == (if q { 1u32 } else { 0u32 }),
    ;
}

/// Writes the save record of the game into `out`.
#[verifier::rlimit(100)]
pub fn encode_save(game: &Game, out: &mut [u8; SAVE_BYTES])
    ensures
        final(out)@ == save_record(game@),
{
    let ghost rec = save_record(game@);
    let mut at: usize = 0;
    put_u32(out, &mut at, SAVE_MAGIC);
    assert(out@.subrange(0, 4) =~= rec.subrange(0, 4));
    put_u32(out, &mut at, game.score as u32);
    assert(out@.subrange(0, 8) =~= rec.subrange(0, 8));
    put_u32(out, &mut at, game.lives as u32);
    assert(out@.subrange(0, 12) =~= rec.subrange(0, 12));
    put_i32(out, &mut at, game.paddle_x);
    assert(out@.subrange(0, 16) =~= rec.subrange(0, 16));
    put_i32(out, &mut at, game.ball.x);
    assert(out@.subrange(0, 20) =~= rec.subrange(0, 20));
    put_i32(out, &mut at, game.ball.y);
    assert(out@.subrange(0, 24) =~= rec.subrange(0, 24));
    put_i32(out, &mut at, game.ball.vx);
    assert(out@.subrange(0, 28) =~= rec.subrange(0, 28));
    put_i32(out, &mut at, game.ball.vy);
    assert(out@.subrange(0, 32) =~= rec.subrange(0, 32));
    let running: u32 = if game.running { 1 } else { 0 };
    let paused: u32 = if game.paused { 1 } else { 0 };
    let quit: u32 = if game.quit { 1 } else { 0 };
    let flags = running | (paused << 1) | (quit << 2);
    proof { lemma_flags(game.running, game.paused, game.quit, running, paused, quit); }
    put_u32(out, &mut at, flags);
    assert(out@.subrange(0, 36) =~= rec.subrange(0, 36));
    let bits = encode_bricks(&game.bricks);
    out[36] = (bits & 0xff) as u8;
    out[37] = ((bits >> 8) & 0xff) as u8;
    out[38] = ((bits >> 16) & 0xff) as u8;
    out[39] = ((bits >> 24) & 0xff) as u8;
    out[40] = ((bits >> 32) & 0xff) as u8;
    out[41] = ((bits >> 40) & 0xff) as u8;
    out[42] = ((bits >> 48) & 0xff) as u8;
    out[43] = ((bits >> 56) & 0xff) as u8;
    assert(out@.subrange(0, 36) =~= rec.subrange(0, 36));
    assert(out@ =~= rec);
}

/// Restores the game from a save record; refuses (and changes nothing) when
/// the record does not start with the magic word.
pub fn decode_save(game: &mut Game, input: &[u8; SAVE_BYTES]) -> (ok: bool)
    ensures
        ok == (read_le32(input@, 0) == SAVE_MAGIC),
        ok ==> final(game)@ == restored(input@),
        !ok ==> final(game)@ == old(game)@,
{
    let mut at: usize = 0;
    if get_u32(input, &mut at) != SAVE_MAGIC {
        return false;
    }
    game.score = get_u32(input, &mut at) as usize;
    game.lives = get_u32(input, &mut at) as usize;
    game.paddle_x = get_i32(input, &mut at);
    game.ball.x = get_i32(input, &mut at);
    game.ball.y = get_i32(input, &mut at);
    game.ball.vx = get_i32(input, &mut at);
    game.ball.vy = get_i32(input, &mut at);
    let flags = get_u32(input, &mut at);
    game.running = (flags & 1) != 0;
    game.paused = (flags & 2) != 0;
    game.quit = (flags & 4) != 0;
    let bits = (input[36] as u64) | ((input[37] as u64) << 8) | ((input[38] as u64) << 16) | ((input[39] as u64)
        << 24) | ((input[40] as u64) << 32) | ((input[41] as u64) << 40) | ((input[42] as u64) << 48)
        | ((input[43] as u64) << 56);
    decode_bricks(&mut game.bricks, bits);
    assert(game.bricks@ =~= restored(input@).bricks);
    true
}

proof fn lemma_i32_bits(v: i32)
    ensures
        (v as u32) as i32 == v,
{
    assert((v as u32) as i32 == v) by (bit_vector);
}

proof fn lemma_flag_bits(r: bool, p: bool, q: bool)
    ensures
        (flags_of(r, p, q) & 1 != 0) == r,
        (flags_of(r, p, q) & 2 != 0) == p,
        (flags_of(r, p, q) & 4 != 0) == q,
{
    let f = flags_of(r, p, q);
    assert((f & 1 != 0) == r && (f & 2 != 0) == p && (f & 4 != 0) == q) by (bit_vector)
        requires
            f == (if r { 1u32 } else { 0u32 }) | (if p { 2u32 } else { 0u32 }) | (if q { 4u32 } else { 0u32 }),
    ;
}

/// Restoring a saved game gives back the game that was saved, as long as
/// its score and lives fit in the 32-bit words of the record.
#[verifier::rlimit(50)]
pub proof fn lemma_save_roundtrip(g: GameView)
    requires
        g.score <= u32::MAX,
        g.lives <= u32::MAX,
        g.bricks.len() == BRICK_COUNT,
    ensures
        save_record(g).len() == SAVE_BYTES,
        read_le32(save_record(g), 0) == SAVE_MAGIC,
        restored(save_record(g)) == g,
{
    let rec = save_record(g);
    let words = seq![
        SAVE_MAGIC,
        g.score as u32,
        g.lives as u32,
        g.paddle_x as u32,
        g.ball.x as u32,
        g.ball.y as u32,
        g.ball.vx as u32,
        g.ball.vy as u32,
        flags_of(g.running, g.paused, g.quit),
    ];
    let bits = brick_bits(g.bricks, BRICK_COUNT as int);
    assert(rec.len() == SAVE_BYTES);
    assert forall|k: int| 0 <= k < 9 implies read_le32(rec, 4 * k) == #[trigger] words[k] by {
        assert(rec.subrange(4 * k, 4 * k + 4) =~= le_bytes32(words[k]));
        lemma_le32_roundtrip(words[k]);
        assert(read_le32(rec, 4 * k) == read_le32(le_bytes32(words[k]), 0));
    }
    assert(rec.subrange(36, 44) =~= le_bytes64(bits));
    lemma_le64_roundtrip(bits);
    assert(read_le64(rec, 36) == read_le64(le_bytes64(bits), 0));
    assert(read_le32(rec, 4 * 0int) == words[0]);
    assert(read_le32(rec, 4 * 1int) == words[1]);
    assert(read_le32(rec, 4 * 2int) == words[2]);
    assert(read_le32(rec, 4 * 3int) == words[3]);
    assert(read_le32(rec, 4 * 4int) == words[4]);
    assert(read_le32(rec, 4 * 5int) == words[5]);
    assert(read_le32(rec, 4 * 6int) == words[6]);
    assert(read_le32(rec, 4 * 7int) == words[7]);
    assert(read_le32(rec, 4 * 8int) == words[8]);
    lemma_i32_bits(g.paddle_x);
    lemma_i32_bits(g.ball.x);
    lemma_i32_bits(g.ball.y);
    lemma_i32_bits(g.ball.vx);
    lemma_i32_bits(g.ball.vy);
    lemma_flag_bits(g.running, g.paused, g.quit);
    assert forall|i: int| 0 <= i < BRICK_COUNT implies #[trigger] restored(rec).bricks[i] == g.bricks[i] by {
        lemma_brick_bits(g.bricks, BRICK_COUNT as int, i);
    }
    assert(restored(rec).bricks =~= g.bricks);
}

pub const COLOR_BG: u32 = 0xff0f172a;
pub const COLOR_FIELD: u32 = 0xff111827;
pub const COLOR_BORDER: u32 = 0xff334155;
pub const COLOR_PADDLE: u32 = 0xff22c55e;
pub const COLOR_BALL: u32 = 0xfff8fafc;
pub const COLOR_BRICK_A: u32 = 0xffef4444;
pub const COLOR_BRICK_B: u32 = 0xfff59e0b;
pub const COLOR_BRICK_C: u32 = 0xff3b82f6;
pub const COLOR_BRICK_D: u32 = 0xffa855f7;
pub const COLOR_BRICK_E: u32 = 0xff14b8a6;
pub const COLOR_SCORE: u32 = 0xffeab308;
pub const COLOR_LIFE: u32 = 0xff22d3ee;
pub const COLOR_END: u32 = 0xfff97316;
pub const COLOR_PAUSE: u32 = 0xff94a3b8;

/// What the screen showed when it was last drawn, so that the next frame
/// only redraws what changed.
#[derive(Clone, Copy, Debug)]
pub struct RenderState {
    pub inited: bool,
    pub prev_paddle_x: i32,
    pub prev_ball_x: i32,
    pub prev_ball_y: i32,
    pub prev_score: usize,
    pub prev_lives: usize,
    pub prev_running: bool,
    pub prev_paused: bool,
    pub prev_mode: u8,
    pub prev_bricks: [bool; BRICK_COUNT],
}

impl RenderState {
    /// Nothing drawn yet.
    pub fn new() -> (st: Self)
        ensures
            !st.inited,
            st.prev_paddle_x == 0,
            st.prev_ball_x == 0,
            st.prev_ball_y == 0,
            st.prev_score == 0,
            st.prev_lives == 0,
            st.prev_running,
            !st.prev_paused,
            st.prev_mode == 0,
            forall|i: int| 0 <= i < BRICK_COUNT ==> #[trigger] st.prev_bricks@[i],
    {
        Self {
            inited: false,
            prev_paddle_x: 0,
            prev_ball_x: 0,
            prev_ball_y: 0,
            prev_score: 0,
            prev_lives: 0,
            prev_running: true,
            prev_paused: false,
            prev_mode: 0,
            prev_bricks: [true; BRICK_COUNT],
        }
    }
}

pub open spec fn rect(x: int, y: int, w: int, h: int, color: u32) -> Rect {
    Rect { x: x as usize, y: y as usize, w: w as usize, h: h as usize, color }
}

/// The colour of the bricks of a row.
pub open spec fn row_color(row: int) -> u32 {
    if row == 0 {
        COLOR_BRICK_A
    } else if row == 1 {
        COLOR_BRICK_B
    } else if row == 2 {
        COLOR_BRICK_C
    } else if row == 3 {
        COLOR_BRICK_D
    } else {
        COLOR_BRICK_E
    }
}

/// Brick `idx` on the screen, in `color`.
pub open spec fn brick_rect(l: Layout, idx: int, color: u32) -> Rect {
    rect(l.field_x + brick_left(l, idx), l.field_y + brick_top(l, idx), l.brick_w as int, l.brick_h as int, color)
}

/// The rectangles for the bricks before `n`: on a full redraw every standing
/// brick, otherwise every brick that appeared (in its row's colour) or
/// disappeared (in the field's colour).
pub open spec fn bricks_rects(l: Layout, bricks: Seq<bool>, prev: Seq<bool>, full: bool, n: int) -> Seq<Rect>
    decreases n,
{
    if n <= 0 {
        seq![]
    } else {
        let k = n - 1;
        let rest = bricks_rects(l, bricks, prev, full, k);
        if full {
            if bricks[k] {
                rest.push(brick_rect(l, k, row_color(k / 10)))
            } else {
                rest
            }
        } else if prev[k] == bricks[k] {
            rest
        } else if bricks[k] {
            rest.push(brick_rect(l, k, row_color(k / 10)))
        } else {
            rest.push(brick_rect(l, k, COLOR_FIELD))
        }
    }
}

/// One small square per life, up to five, from the right.
pub open spec fn lives_rects(l: Layout, n: int) -> Seq<Rect>
    decreases n,
{
    if n <= 0 {
        seq![]
    } else {
        lives_rects(l, n - 1).push(
            rect(
                l.field_x + sat_sub_spec(l.field_w, (14 + (n - 1) * 16) as usize),
                sat_sub_spec(l.field_y, 26) as int,
                10,
                10,
                COLOR_LIFE,
            ),
        )
    }
}

/// Whether a frame redraws everything.
pub open spec fn full_redraw(st: RenderState, force_full: bool) -> bool {
    force_full || !st.inited
}

/// The background, the border and the field.
pub open spec fn frame_part(l: Layout, full: bool) -> Seq<Rect> {
    if full {
        seq![
            rect(0, 0, l.width as int, l.height as int, COLOR_BG),
            rect(sat_sub_spec(l.field_x, 3) as int, sat_sub_spec(l.field_y, 3) as int, l.field_w + 6, l.field_h + 6, COLOR_BORDER),
            rect(l.field_x as int, l.field_y as int, l.field_w as int, l.field_h as int, COLOR_FIELD),
        ]
    } else {
        seq![]
    }
}

/// The bar that shows the input mode.
pub open spec fn mode_part(l: Layout, mode: InputMode, st: RenderState, full: bool) -> Seq<Rect> {
    if full || st.prev_mode != spec_mode_id(mode) {
        seq![rect(l.field_x as int, sat_sub_spec(l.field_y, 40) as int, l.field_w as int, 8, spec_mode_color(mode))]
    } else {
        seq![]
    }
}

/// The score bar: two pixels per point, up to half the field.
pub open spec fn score_part(g: GameView, l: Layout, st: RenderState, full: bool) -> Seq<Rect> {
    let score_w = min_int((l.field_w / 2) as int, sat_mul_spec(g.score, 2) as int);
    if full || st.prev_score != g.score {
        seq![rect(l.field_x + 8, sat_sub_spec(l.field_y, 24) as int, (l.field_w / 2) as int, 8, COLOR_BORDER)] + if score_w > 0 {
            seq![rect(l.field_x + 8, sat_sub_spec(l.field_y, 24) as int, score_w, 8, COLOR_SCORE)]
        } else {
            seq![]
        }
    } else {
        seq![]
    }
}

/// The lives: a cleared strip and up to five squares.
pub open spec fn lives_part(g: GameView, l: Layout, st: RenderState, full: bool) -> Seq<Rect> {
    if full || st.prev_lives != g.lives {
        seq![rect(l.field_x + sat_sub_spec(l.field_w, 120), sat_sub_spec(l.field_y, 28) as int, 120, 14, COLOR_BG)]
            + lives_rects(l, min_int(g.lives as int, 5))
    } else {
        seq![]
    }
}

/// The paddle, erased where it was when it moved.
pub open spec fn paddle_part(g: GameView, l: Layout, st: RenderState, full: bool) -> Seq<Rect> {
    let fx = l.field_x as int;
    let y = l.field_y + paddle_top(l);
    if full || st.prev_paddle_x != g.paddle_x {
        (if !full {
            seq![rect(fx + max_int(st.prev_paddle_x as int, 0), y, l.paddle_w as int, l.paddle_h as int, COLOR_FIELD)]
        } else {
            seq![]
        }) + seq![rect(fx + max_int(g.paddle_x as int, 0), y, l.paddle_w as int, l.paddle_h as int, COLOR_PADDLE)]
    } else {
        seq![]
    }
}

/// The ball, erased where it was when it moved.
pub open spec fn ball_part(g: GameView, l: Layout, st: RenderState, full: bool) -> Seq<Rect> {
    let fx = l.field_x as int;
    let fy = l.field_y as int;
    let s = l.ball_s as int;
    if full || st.prev_ball_x != g.ball.x || st.prev_ball_y != g.ball.y {
        (if !full {
            seq![rect(fx + max_int(st.prev_ball_x as int, 0), fy + max_int(st.prev_ball_y as int, 0), s, s, COLOR_FIELD)]
        } else {
            seq![]
        }) + seq![rect(fx + max_int(g.ball.x as int, 0), fy + max_int(g.ball.y as int, 0), s, s, COLOR_BALL)]
    } else {
        seq![]
    }
}

/// The middle strip: cleared when pause or end changed, then the pause bar
/// while paused and the end bar once the game is over.
pub open spec fn banner_part(g: GameView, l: Layout, st: RenderState, full: bool) -> Seq<Rect> {
    let fx = l.field_x as int;
    let fy = l.field_y as int;
    let fw = l.field_w as int;
    let fh = l.field_h as int;
    (if full || st.prev_paused != g.paused || st.prev_running != g.running {
        seq![rect(fx + fw / 4, fy + fh / 2 - 12, fw / 2, 24, COLOR_FIELD)]
    } else {
        seq![]
    }) + (if g.paused && g.running {
        seq![rect(fx + fw / 3, fy + fh / 2 - 8, fw / 3, 16, COLOR_PAUSE)]
    } else {
        seq![]
    }) + (if !g.running {
        seq![rect(fx + fw / 4, fy + fh / 2 - 10, fw / 2, 20, COLOR_END)]
    } else {
        seq![]
    })
}

/// Whether the paddle and the ball, where they are and where they were last
/// drawn, have screen positions that fit in a `usize`.
pub open spec fn moving_fits(g: GameView, l: Layout, st: RenderState) -> bool {
    &&& l.field_x + max_int(g.paddle_x as int, 0) <= usize::MAX
    &&& l.field_x + max_int(st.prev_paddle_x as int, 0) <= usize::MAX
    &&& l.field_x + max_int(g.ball.x as int, 0) <= usize::MAX
    &&& l.field_x + max_int(st.prev_ball_x as int, 0) <= usize::MAX
    &&& l.field_y + max_int(g.ball.y as int, 0) <= usize::MAX
    &&& l.field_y + max_int(st.prev_ball_y as int, 0) <= usize::MAX
}

/// Everything a frame draws, in order.
pub open spec fn render_rects(g: GameView, mode: InputMode, l: Layout, st: RenderState, force_full: bool) -> Seq<Rect> {
    let full = full_redraw(st, force_full);
    frame_part(l, full) + mode_part(l, mode, st, full) + score_part(g, l, st, full) + lives_part(g, l, st, full)
        + bricks_rects(l, g.bricks, st.prev_bricks@, full, BRICK_COUNT as int) + paddle_part(g, l, st, full)
        + ball_part(g, l, st, full) + banner_part(g, l, st, full)
}

/// What a frame remembers of the game it drew.
pub open spec fn rendered_state(g: GameView, mode: InputMode, st: RenderState) -> bool {
    &&& st.inited
    &&& st.prev_paddle_x == g.paddle_x
    &&& st.prev_ball_x == g.ball.x
    &&& st.prev_ball_y == g.ball.y
    &&& st.prev_score == g.score
    &&& st.prev_lives == g.lives
    &&& st.prev_running == g.running
    &&& st.prev_paused == g.paused
    &&& st.prev_mode == spec_mode_id(mode)
    &&& st.prev_bricks@ == g.bricks
}

/// Appends the rectangles for the bricks.
fn push_brick_rects(plan: &mut Vec<Rect>, game: &Game, layout: &Layout, state: &RenderState, full: bool)
    requires
        layout.draw_fits(),
    ensures
        final(plan)@ == old(plan)@ + bricks_rects(*layout, game.bricks@, state.prev_bricks@, full, BRICK_COUNT as int),
{
    
    let ghost start = plan@;
    let mut idx: usize = 0;
    while idx < BRICK_COUNT
        invariant
            0 <= idx <= BRICK_COUNT,
            layout.draw_fits(),
            plan@ == start + bricks_rects(*layout, game.bricks@, state.prev_bricks@, full, idx as int),
        decreases BRICK_COUNT - idx,
    {
        
        let row = idx / BRICK_COLS;
        let col = idx % BRICK_COLS;
        proof {
            assert(col * (layout.brick_w + layout.brick_gap) <= 9 * (layout.brick_w + layout.brick_gap)) by (nonlinear_arith)
                requires col <= 9, 0 <= layout.brick_w + layout.brick_gap;
            assert(row * (layout.brick_h + layout.brick_gap) <= 4 * (layout.brick_h + layout.brick_gap)) by (nonlinear_arith)
                requires row <= 4, 0 <= layout.brick_h + layout.brick_gap;
        }
        let x = layout.field_x + layout.brick_gap + col * (layout.brick_w + layout.brick_gap);
        let y = layout.field_y + layout.brick_top + row * (layout.brick_h + layout.brick_gap);
        let color = match row {
            0 => COLOR_BRICK_A,
            1 => COLOR_BRICK_B,
            2 => COLOR_BRICK_C,
            3 => COLOR_BRICK_D,
            _ => COLOR_BRICK_E,
        };
        let r = Rect { x, y, w: layout.brick_w, h: layout.brick_h, color };
        let r_field = Rect { color: COLOR_FIELD, ..r };
        assert(r == brick_rect(*layout, idx as int, row_color((idx / 10) as int)));
        assert(r_field == brick_rect(*layout, idx as int, COLOR_FIELD));
        if full {
            if game.bricks[idx] {
                plan.push(r);
            }
        } else if state.prev_bricks[idx] != game.bricks[idx] {
            if game.bricks[idx] {
                plan.push(r);
            } else {
                plan.push(r_field);
            }
        }
        proof {
            let before = bricks_rects(*layout, game.bricks@, state.prev_bricks@, full, idx as int);
            assert(bricks_rects(*layout, game.bricks@, state.prev_bricks@, full, idx + 1)
                == if full {
                    if game.bricks@[idx as int] { before.push(r) } else { before }
                } else if state.prev_bricks@[idx as int] == game.bricks@[idx as int] {
                    before
                } else if game.bricks@[idx as int] {
                    before.push(r)
                } else {
                    before.push(r_field)
                });
        }
        assert(plan@ =~= start + bricks_rects(*layout, game.bricks@, state.prev_bricks@, full, idx + 1));
        idx += 1;
    }
}

/// Appends the squares for up to five lives.
fn push_lives_rects(plan: &mut Vec<Rect>, layout: &Layout, lives: usize)
    requires
        layout.draw_fits(),
    ensures
        final(plan)@ == old(plan)@ + lives_rects(*layout, min_int(lives as int, 5)),
{
    
    let ghost start = plan@;
    let n = if lives < 5 { lives } else { 5 };
    let mut i: usize = 0;
    while i < n
        invariant
            0 <= i <= n <= 5,
            n == min_int(lives as int, 5),
            layout.draw_fits(),
            layout.field_x + layout.field_w <= usize::MAX,
            plan@ == start + lives_rects(*layout, i as int),
        decreases n - i,
    {
        let x = layout.field_x + layout.field_w.saturating_sub(14 + i * 16);
        plan.push(Rect { x, y: layout.field_y.saturating_sub(26), w: 10, h: 10, color: COLOR_LIFE });
        assert(plan@ =~= start + lives_rects(*layout, i + 1));
        i += 1;
    }
}

fn push_frame_part(plan: &mut Vec<Rect>, layout: &Layout, full: bool)
    requires
        layout.draw_fits(),
    ensures
        final(plan)@ == old(plan)@ + frame_part(*layout, full),
{
    
    let fx = layout.field_x;
    let fy = layout.field_y;
    let fw = layout.field_w;
    let fh = layout.field_h;
    if full {
        plan.push(Rect { x: 0, y: 0, w: layout.width, h: layout.height, color: COLOR_BG });
        plan.push(Rect { x: fx.saturating_sub(3), y: fy.saturating_sub(3), w: fw + 6, h: fh + 6, color: COLOR_BORDER });
        plan.push(Rect { x: fx, y: fy, w: fw, h: fh, color: COLOR_FIELD });
    }
    assert(plan@ =~= old(plan)@ + frame_part(*layout, full));
}

fn push_status_part(plan: &mut Vec<Rect>, game: &Game, mode: InputMode, layout: &Layout, state: &RenderState, full: bool)
    requires
        layout.draw_fits(),
    ensures
        final(plan)@ == old(plan)@ + mode_part(*layout, mode, *state, full) + score_part(game@, *layout, *state, full)
            + lives_part(game@, *layout, *state, full),
{
    push_mode_part(plan, mode, layout, state, full);
    push_score_part(plan, game, layout, state, full);
    let ghost p2 = plan@;
    if full || state.prev_lives != game.lives {
        
        let fx = layout.field_x;
        let fy = layout.field_y;
        let fw = layout.field_w;
        plan.push(Rect { x: fx + fw.saturating_sub(120), y: fy.saturating_sub(28), w: 120, h: 14, color: COLOR_BG });
        push_lives_rects(plan, layout, game.lives);
    }
    assert(plan@ =~= p2 + lives_part(game@, *layout, *state, full));
}

fn push_mode_part(plan: &mut Vec<Rect>, mode: InputMode, layout: &Layout, state: &RenderState, full: bool)
    requires
        layout.draw_fits(),
    ensures
        final(plan)@ == old(plan)@ + mode_part(*layout, mode, *state, full),
{
    if full || state.prev_mode != mode_id(mode) {
        plan.push(Rect { x: layout.field_x, y: layout.field_y.saturating_sub(40), w: layout.field_w, h: 8, color: mode_color(mode) });
    }
    assert(plan@ =~= old(plan)@ + mode_part(*layout, mode, *state, full));
}

fn push_score_part(plan: &mut Vec<Rect>, game: &Game, layout: &Layout, state: &RenderState, full: bool)
    requires
        layout.draw_fits(),
    ensures
        final(plan)@ == old(plan)@ + score_part(game@, *layout, *state, full),
{
    
    let fx = layout.field_x;
    let fy = layout.field_y;
    let fw = layout.field_w;
    if full || state.prev_score != game.score {
        let doubled = saturating_mul(game.score, 2);
        let score_w = if fw / 2 <= doubled { fw / 2 } else { doubled };
        plan.push(Rect { x: fx + 8, y: fy.saturating_sub(24), w: fw / 2, h: 8, color: COLOR_BORDER });
        if score_w > 0 {
            plan.push(Rect { x: fx + 8, y: fy.saturating_sub(24), w: score_w, h: 8, color: COLOR_SCORE });
        }
    }
    assert(plan@ =~= old(plan)@ + score_part(game@, *layout, *state, full));
}

fn push_moving_part(plan: &mut Vec<Rect>, game: &Game, layout: &Layout, state: &RenderState, full: bool)
    requires
        layout.draw_fits(),
        moving_fits(game@, *layout, *state),
    ensures
        final(plan)@ == old(plan)@ + paddle_part(game@, *layout, *state, full) + ball_part(game@, *layout, *state, full),
{
    
    let fx = layout.field_x;
    let fy = layout.field_y;
    let ghost p0 = plan@;
    let paddle_y = game.paddle_y(layout) as usize;
    if full || state.prev_paddle_x != game.paddle_x {
        if !full {
            let px = if state.prev_paddle_x >= 0 { state.prev_paddle_x as usize } else { 0 };
            plan.push(Rect { x: fx + px, y: fy + paddle_y, w: layout.paddle_w, h: layout.paddle_h, color: COLOR_FIELD });
        }
        let px = if game.paddle_x >= 0 { game.paddle_x as usize } else { 0 };
        plan.push(Rect { x: fx + px, y: fy + paddle_y, w: layout.paddle_w, h: layout.paddle_h, color: COLOR_PADDLE });
    }
    assert(plan@ =~= p0 + paddle_part(game@, *layout, *state, full));
    let ghost p1 = plan@;
    if full || state.prev_ball_x != game.ball.x || state.prev_ball_y != game.ball.y {
        if !full {
            let bx = if state.prev_ball_x >= 0 { state.prev_ball_x as usize } else { 0 };
            let by = if state.prev_ball_y >= 0 { state.prev_ball_y as usize } else { 0 };
            plan.push(Rect { x: fx + bx, y: fy + by, w: layout.ball_s, h: layout.ball_s, color: COLOR_FIELD });
        }
        let bx = if game.ball.x >= 0 { game.ball.x as usize } else { 0 };
        let by = if game.ball.y >= 0 { game.ball.y as usize } else { 0 };
        plan.push(Rect { x: fx + bx, y: fy + by, w: layout.ball_s, h: layout.ball_s, color: COLOR_BALL });
    }
    assert(plan@ =~= p1 + ball_part(game@, *layout, *state, full));
}

fn push_banner_part(plan: &mut Vec<Rect>, game: &Game, layout: &Layout, state: &RenderState, full: bool)
    requires
        layout.draw_fits(),
    ensures
        final(plan)@ == old(plan)@ + banner_part(game@, *layout, *state, full),
{
    
    let fx = layout.field_x;
    let fy = layout.field_y;
    let fw = layout.field_w;
    let fh = layout.field_h;
    if full || state.prev_paused != game.paused || state.prev_running != game.running {
        plan.push(Rect { x: fx + fw / 4, y: fy + fh / 2 - 12, w: fw / 2, h: 24, color: COLOR_FIELD });
    }
    if game.paused && game.running {
        plan.push(Rect { x: fx + fw / 3, y: fy + fh / 2 - 8, w: fw / 3, h: 16, color: COLOR_PAUSE });
    }
    if !game.running {
        plan.push(Rect { x: fx + fw / 4, y: fy + fh / 2 - 10, w: fw / 2, h: 20, color: COLOR_END });
    }
    assert(plan@ =~= old(plan)@ + banner_part(game@, *layout, *state, full));
}

proof fn lemma_small_layout(l: Layout)
    requires
        l.wf(),
        l.width <= SMALL_SIDE,
        l.height <= SMALL_SIDE,
    ensures
        l.field_w <= 2048,
        l.field_h <= 2048,
        l.field_x <= 1024,
        12 <= l.field_y <= 1036,
        8 <= l.ball_s <= 80,
        80 <= l.paddle_w <= 300,
        10 <= l.paddle_h <= 80,
        2 <= l.brick_gap <= 10,
        l.brick_w <= 205,
        14 <= l.brick_h <= 80,
        l.brick_top == 16,
{
    reveal(layout_of);
    reveal(sat_mul_spec);
}

proof fn lemma_bricks_rects_small(l: Layout, bricks: Seq<bool>, prev: Seq<bool>, full: bool, n: int)
    requires
        l.wf(),
        l.width <= SMALL_SIDE,
        l.height <= SMALL_SIDE,
        n <= BRICK_COUNT,
    ensures
        rects_small(bricks_rects(l, bricks, prev, full, n)),
    decreases n,
{
    if n > 0 {
        let k = n - 1;
        lemma_bricks_rects_small(l, bricks, prev, full, k);
        lemma_small_layout(l);
        assert((k % 10) * (l.brick_w + l.brick_gap) <= 9 * 215) by (nonlinear_arith)
            requires 0 <= k % 10 <= 9, 0 <= l.brick_w + l.brick_gap <= 215;
        assert((k / 10) * (l.brick_h + l.brick_gap) <= 4 * 90) by (nonlinear_arith)
            requires 0 <= k / 10 <= 4, 0 <= l.brick_h + l.brick_gap <= 90;
        assert(rect_small(brick_rect(l, k, row_color(k / 10))));
        assert(rect_small(brick_rect(l, k, COLOR_FIELD)));
    }
}

proof fn lemma_lives_rects_small(l: Layout, n: int)
    requires
        l.wf(),
        l.width <= SMALL_SIDE,
        l.height <= SMALL_SIDE,
        n <= 5,
    ensures
        rects_small(lives_rects(l, n)),
    decreases n,
{
    if n > 0 {
        lemma_lives_rects_small(l, n - 1);
        lemma_small_layout(l);
    }
}

/// On a screen no larger than `SMALL_SIDE` a side, every frame of a game
/// whose paddle and ball (now and when last drawn) lie within 2^16 pixels
/// of the field's corner can be drawn within machine integers, so `render`
/// can be called.
pub proof fn lemma_render_fits(g: GameView, mode: InputMode, l: Layout, st: RenderState, force_full: bool)
    requires
        l.wf(),
        l.width <= SMALL_SIDE,
        l.height <= SMALL_SIDE,
        g.paddle_x <= 0x1_0000,
        g.ball.x <= 0x1_0000,
        g.ball.y <= 0x1_0000,
        st.prev_paddle_x <= 0x1_0000,
        st.prev_ball_x <= 0x1_0000,
        st.prev_ball_y <= 0x1_0000,
    ensures
        rects_fit(l.width as int, render_rects(g, mode, l, st, force_full)),
{
    lemma_small_layout(l);
    reveal(sat_mul_spec);
    let full = full_redraw(st, force_full);
    let a = frame_part(l, full);
    let b = mode_part(l, mode, st, full);
    let c = score_part(g, l, st, full);
    let d = lives_part(g, l, st, full);
    let e = bricks_rects(l, g.bricks, st.prev_bricks@, full, BRICK_COUNT as int);
    let f = paddle_part(g, l, st, full);
    let h = ball_part(g, l, st, full);
    let i = banner_part(g, l, st, full);
    lemma_bricks_rects_small(l, g.bricks, st.prev_bricks@, full, BRICK_COUNT as int);
    lemma_lives_rects_small(l, min_int(g.lives as int, 5));
    assert(rects_small(a));
    assert(rects_small(b));
    assert(rects_small(c));
    lemma_rects_small_concat(seq![rect(l.field_x + sat_sub_spec(l.field_w, 120), sat_sub_spec(l.field_y, 28) as int, 120, 14, COLOR_BG)],
        lives_rects(l, min_int(g.lives as int, 5)));
    assert(rects_small(d));
    assert(rects_small(f));
    assert(rects_small(h));
    assert(rects_small(i));
    lemma_rects_small_concat(a, b);
    lemma_rects_small_concat(a + b, c);
    lemma_rects_small_concat(a + b + c, d);
    lemma_rects_small_concat(a + b + c + d, e);
    lemma_rects_small_concat(a + b + c + d + e, f);
    lemma_rects_small_concat(a + b + c + d + e + f, h);
    lemma_rects_small_concat(a + b + c + d + e + f + h, i);
    lemma_small_rects_fit(l.width as int, render_rects(g, mode, l, st, force_full));
}

/// The rectangles of one frame, as `render_rects` describes them.
pub fn render_plan(game: &Game, mode: InputMode, layout: &Layout, state: &RenderState, force_full: bool) -> (plan: Vec<Rect>)
    requires
        layout.draw_fits(),
        moving_fits(game@, *layout, *state),
    ensures
        plan@ == render_rects(game@, mode, *layout, *state, force_full),
{
    let full = force_full || !state.inited;
    let mut plan: Vec<Rect> = Vec::new();
    push_frame_part(&mut plan, layout, full);
    assert(plan@ =~= frame_part(*layout, full));
    push_status_part(&mut plan, game, mode, layout, state, full);
    push_brick_rects(&mut plan, game, layout, state, full);
    push_moving_part(&mut plan, game, layout, state, full);
    push_banner_part(&mut plan, game, layout, state, full);
    plan
}

/// Draws one frame into the framebuffer, redrawing only what changed since
/// the last frame unless `force_full`, and remembers what it drew.
pub fn render(
    game: &Game,
    mode: InputMode,
    layout: &Layout,
    state: &mut RenderState,
    framebuffer: &mut [u8],
    force_full: bool,
)
    requires
        layout.draw_fits(),
        moving_fits(game@, *layout, *old(state)),
        rects_fit(layout.width as int, render_rects(game@, mode, *layout, *old(state), force_full)),
    ensures
        final(framebuffer)@ == paint_spec(
            old(framebuffer)@,
            layout.width as int,
            render_rects(game@, mode, *layout, *old(state), force_full),
        ),
        rendered_state(game@, mode, *final(state)),
{
    let plan = render_plan(game, mode, layout, state, force_full);
    paint(framebuffer, layout.width, &plan);
    state.inited = true;
    state.prev_paddle_x = game.paddle_x;
    state.prev_ball_x = game.ball.x;
    state.prev_ball_y = game.ball.y;
    state.prev_score = game.score;
    state.prev_lives = game.lives;
    state.prev_running = game.running;
    state.prev_paused = game.paused;
    state.prev_mode = mode_id(mode);
    state.prev_bricks = game.bricks;
}

} // verus!
