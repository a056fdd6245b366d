//! Ping-Pong for two players: two paddles, one ball, first to five points.
//! Keys and clock ticks reach the game as messages.
use vstd::prelude::*;
use crate::framebuffer::{saturating_mul, sat_mul_spec, sat_sub_spec, MAX_SIDE};
use crate::mode::{SyscallRequest, InputMode, mode_id, mode_color, spec_mode_id, spec_mode_color};
use crate::framebuffer::{paint, paint_spec, rects_fit, Rect};
use crate::framebuffer::{SMALL_SIDE, rect_small, rects_small, lemma_small_rects_fit, lemma_rects_small_concat};
use crate::breakout::{max_int, min_int, trunc_div};

verus! {

/// Milliseconds between two clock ticks.
pub const TICK_MS: usize = 16;
pub const SCORE_TO_WIN: usize = 5;
pub const BASE_BALL_SPEED_X: i32 = 2;
pub const MAX_BALL_SPEED_X: i32 = 6;
pub const MAX_BALL_SPEED_Y: i32 = 3;
/// How far one key press moves a paddle.
pub const PADDLE_STEP: i32 = 10;

pub const SYSCALL_MQ_SEND: usize = 0x1000_0010;
pub const SYSCALL_MQ_RECV: usize = 0x1000_0011;

pub const MSG_P1_UP: u32 = 1;
pub const MSG_P1_DOWN: u32 = 2;
pub const MSG_P2_UP: u32 = 3;
pub const MSG_P2_DOWN: u32 = 4;
pub const MSG_TICK: u32 = 5;
pub const MSG_QUIT: u32 = 255;

#[derive(Clone, Copy, Debug, PartialEq, Eq)]
pub struct Paddle {
    pub y: i32,
}

#[derive(Clone, Copy, Debug, PartialEq, Eq)]
pub struct Ball {
    pub x: i32,
    pub y: i32,
    pub vx: i32,
    pub vy: i32,
}

/// Where everything is drawn, in pixels; the paddles' columns `p1_x` and
/// `p2_x` are on the screen, other positions relative to the field.
#[derive(Clone, Copy, Debug, PartialEq, Eq)]
pub struct Layout {
    pub width: usize,
    pub height: usize,
    pub field_x: usize,
    pub field_y: usize,
    pub field_w: usize,
    pub field_h: usize,
    pub paddle_w: usize,
    pub paddle_h: usize,
    pub ball_s: usize,
    pub p1_x: usize,
    pub p2_x: usize,
}

/// A game of Ping-Pong.
#[derive(Clone, Copy, Debug, PartialEq, Eq)]
pub struct Game {
    pub p1: Paddle,
    pub p2: Paddle,
    pub ball: Ball,
    pub score_l: usize,
    pub score_r: usize,
    pub running: bool,
    pub quit: bool,
}

/// The layout of a `width` by `height` screen: a centred field of nine
/// tenths of the width and eight tenths of the height, a paddle twelve
/// pixels inside each side.
#[verifier::opaque]
pub open spec fn layout_of(width: usize, height: usize) -> Layout {
    let field_w = sat_mul_spec(width, 9) / 10;
    let field_h = sat_mul_spec(height, 8) / 10;
    let field_x = sat_sub_spec(width, field_w) / 2;
    let paddle_w = max_int(6, (field_w / 80) as int) as usize;
    Layout {
        width,
        height,
        field_x,
        field_y: sat_sub_spec(height, field_h) / 2,
        field_w,
        field_h,
        paddle_w,
        paddle_h: max_int(30, (field_h / 6) as int) as usize,
        ball_s: max_int(6, (field_w / 90) as int) as usize,
        p1_x: (field_x + 12) as usize,
        p2_x: (field_x + sat_sub_spec(field_w, (12 + paddle_w) as usize)) as usize,
    }
}

/// Whether `v` fits in an `i32`.
pub open spec fn fits_i32(v: int) -> bool {
    i32::MIN <= v <= i32::MAX
}

impl Layout {
    /// Whether the sizes a clock tick reads, and the paddles' right edges
    /// within the field, fit in an `i32`.
    pub open spec fn sizes_fit(self) -> bool {
        &&& self.field_w <= i32::MAX
        &&& self.field_h <= i32::MAX
        &&& self.paddle_h <= i32::MAX
        &&& self.ball_s <= i32::MAX
        &&& sat_sub_spec(self.p1_x, self.field_x) + self.paddle_w <= i32::MAX
        &&& sat_sub_spec(self.p2_x, self.field_x) + self.paddle_w <= i32::MAX
    }

    /// Whether every screen position a frame computes from the layout fits
    /// in a `usize`.
    pub open spec fn draw_fits(self) -> bool {
        &&& self.field_x + self.field_w + 8 <= usize::MAX
        &&& self.field_y + self.field_h + 6 <= usize::MAX
    }

    /// The layout of a screen whose sides are at most `MAX_SIDE` pixels.
    pub open spec fn wf(self) -> bool {
        &&& self == layout_of(self.width, self.height)
        &&& self.width <= MAX_SIDE
        &&& self.height <= MAX_SIDE
    }
}

/// On screens up to `LAYOUT_SIDE_LIMIT` pixels a side, the built layout's
/// sizes fit in an `i32` and its screen positions in a `usize`.
pub proof fn lemma_built_layout_fits(width: usize, height: usize)
    requires
        width <= crate::framebuffer::LAYOUT_SIDE_LIMIT,
        height <= crate::framebuffer::LAYOUT_SIDE_LIMIT,
    ensures
        layout_of(width, height).sizes_fit(),
        layout_of(width, height).draw_fits(),
{
    reveal(layout_of);
    reveal(sat_mul_spec);
}

pub fn build_layout(width: usize, height: usize) -> (l: Layout)
    ensures
        l == layout_of(width, height),
        l.width == width,
        l.height == height,
{
    proof { reveal(layout_of); reveal(sat_mul_spec); }
    let field_w = saturating_mul(width, 9) / 10;
    let field_h = saturating_mul(height, 8) / 10;
    let field_x = (width.saturating_sub(field_w)) / 2;
    let field_y = (height.saturating_sub(field_h)) / 2;
    let paddle_w = if 6 >= field_w / 80 { 6 } else { field_w / 80 };
    let paddle_h = if 30 >= field_h / 6 { 30 } else { field_h / 6 };
    let ball_s = if 6 >= field_w / 90 { 6 } else { field_w / 90 };
    let p1_x = field_x + 12;
    let p2_x = field_x + field_w.saturating_sub(12 + paddle_w);
    Layout { width, height, field_x, field_y, field_w, field_h, paddle_w, paddle_h, ball_s, p1_x, p2_x }
}

pub proof fn lemma_layout_bounds(l: Layout)
    requires
        l.wf(),
    ensures
        l.field_w <= MAX_SIDE,
        l.field_h <= MAX_SIDE,
        l.field_x <= MAX_SIDE,
        l.field_y <= MAX_SIDE,
        6 <= l.paddle_w <= MAX_SIDE,
        30 <= l.paddle_h <= MAX_SIDE,
        6 <= l.ball_s <= MAX_SIDE,
        l.p1_x == l.field_x + 12,
        l.field_x <= l.p2_x <= 2 * MAX_SIDE,
{
    reveal(layout_of);
    reveal(sat_mul_spec);
}

/// Coordinates and speeds for which one step stays within `i32`.
pub open spec fn in_range(v: int, bound: int) -> bool {
    -bound <= v <= bound
}

/// The ball served from the centre after a point: towards the side that
/// just lost when `to_left`, faster as more points have been played (up to
/// 6 across and 3 up or down), downwards after an even number of points.
pub open spec fn served_ball(l: Layout, score_l: usize, score_r: usize, to_left: bool) -> Ball {
    let total = ((score_l + score_r) as usize) as i32;
    let speed_x = min_int(BASE_BALL_SPEED_X + trunc_div(total as int, 2), MAX_BALL_SPEED_X as int);
    let speed_y = min_int(1 + trunc_div(total as int, 3), MAX_BALL_SPEED_Y as int);
    Ball {
        x: (l.field_w / 2) as i32,
        y: (l.field_h / 2) as i32,
        vx: (if to_left { -speed_x } else { speed_x }) as i32,
        vy: (if (score_l + score_r) % 2 == 0 { speed_y } else { -speed_y }) as i32,
    }
}

/// A speed one faster, in the same direction, capped at `max`.
pub open spec fn boosted(v: int, max: int) -> int {
    if v >= 0 {
        min_int(v + 1, max)
    } else {
        -min_int(-v + 1, max)
    }
}

/// Whether the ball's box touches the paddle whose left edge is at `px` and
/// top at `py`.
pub open spec fn touches_paddle(b: Ball, l: Layout, px: int, py: int) -> bool {
    &&& b.x <= px + l.paddle_w
    &&& b.x + l.ball_s >= px
    &&& b.y + l.ball_s >= py
    &&& b.y <= py + l.paddle_h
}

impl Game {
    /// Whether one clock tick on layout `l` stays within machine integers:
    /// every sum, difference and negation it computes fits in an `i32`, the
    /// speeds it boosts are not at the ends of the `i32` range, and the two
    /// scores still add up within a `usize` after a point.
    pub open spec fn tick_fits(self, l: Layout) -> bool {
        (self.running && !self.quit) ==> {
            let b = self.ball;
            let y1 = b.y + b.vy;
            let y2 = if y1 <= 0 { 0 } else { y1 };
            let vy2 = if y1 <= 0 { -b.vy } else { b.vy as int };
            let max_y = sat_sub_spec(l.field_h, l.ball_s) as int;
            let m = self.moved_ball(l);
            let p1_left = sat_sub_spec(l.p1_x, l.field_x) as int;
            let p2_left = sat_sub_spec(l.p2_x, l.field_x) as int;
            let hit1 = touches_paddle(m, l, p1_left, self.p1.y as int) && m.vx < 0;
            let b1 = if hit1 {
                Ball {
                    x: (p1_left + l.paddle_w) as i32,
                    vx: boosted(-m.vx, MAX_BALL_SPEED_X as int) as i32,
                    vy: boosted(m.vy as int, MAX_BALL_SPEED_Y as int) as i32,
                    ..m
                }
            } else {
                m
            };
            let hit2 = touches_paddle(m, l, p2_left, self.p2.y as int) && b1.vx > 0;
            let b2x = if hit2 { p2_left - l.ball_s } else { b1.x as int };
            let sl = if b2x > l.field_w { self.score_l + 1 } else { self.score_l as int };
            let sr = if b2x < 0 { self.score_r + 1 } else { self.score_r as int };
            &&& fits_i32(b.x + b.vx)
            &&& fits_i32(y1)
            &&& y1 <= 0 ==> fits_i32(-b.vy)
            &&& y2 >= max_y ==> fits_i32(-vy2)
            &&& fits_i32(m.x + l.ball_s)
            &&& fits_i32(m.y + l.ball_s)
            &&& fits_i32(self.p1.y + l.paddle_h)
            &&& fits_i32(self.p2.y + l.paddle_h)
            &&& hit1 ==> -i32::MAX < -m.vx < i32::MAX && -i32::MAX < m.vy < i32::MAX
            &&& hit2 ==> -i32::MAX < -b1.vx < i32::MAX && -i32::MAX < b1.vy < i32::MAX
            &&& (b2x < 0 || b2x > l.field_w) ==> sl + sr <= usize::MAX
        }
    }

    /// Whether the paddles and the ball lie in a range that every clock tick
    /// keeps (see `lemma_tick_keeps_fits`), on a built layout.
    pub open spec fn in_safe_range(self) -> bool {
        (self.running && !self.quit) ==> {
            &&& in_range(self.ball.x as int, 0x400_0000)
            &&& in_range(self.ball.y as int, 0x400_0000)
            &&& in_range(self.ball.vx as int, 0x100_0000)
            &&& in_range(self.ball.vy as int, 0x100_0000)
            &&& in_range(self.p1.y as int, 0x400_0000)
            &&& in_range(self.p2.y as int, 0x400_0000)
            &&& self.score_l + self.score_r + 1 <= usize::MAX
        }
    }

    /// The ball after it moves and bounces off the top and the bottom.
    pub open spec fn moved_ball(self, l: Layout) -> Ball {
        let b = self.ball;
        let x1 = b.x + b.vx;
        let y1 = b.y + b.vy;
        let y2 = if y1 <= 0 { 0 } else { y1 };
        let vy2 = if y1 <= 0 { -b.vy } else { b.vy as int };
        let max_y = sat_sub_spec(l.field_h, l.ball_s) as int;
        Ball {
            x: x1 as i32,
            y: (if y2 >= max_y { max_y } else { y2 }) as i32,
            vx: b.vx,
            vy: (if y2 >= max_y { -vy2 } else { vy2 }) as i32,
        }
    }

    /// One clock tick: the ball moves, bounces off the top, the bottom and a
    /// paddle it moves towards (each paddle hit makes it faster), and a ball
    /// past a side scores for the other player and is served again; the game
    /// stops when a player has five points.
    pub open spec fn ticked(self, l: Layout) -> Game {
        if !self.running || self.quit {
            self
        } else {
            let m = self.moved_ball(l);
            let p1_left = sat_sub_spec(l.p1_x, l.field_x) as int;
            let p2_left = sat_sub_spec(l.p2_x, l.field_x) as int;
            let hit1 = touches_paddle(m, l, p1_left, self.p1.y as int) && m.vx < 0;
            let b1 = if hit1 {
                Ball {
                    x: (p1_left + l.paddle_w) as i32,
                    vx: boosted(-m.vx, MAX_BALL_SPEED_X as int) as i32,
                    vy: boosted(m.vy as int, MAX_BALL_SPEED_Y as int) as i32,
                    ..m
                }
            } else {
                m
            };
            let hit2 = touches_paddle(m, l, p2_left, self.p2.y as int) && b1.vx > 0;
            let b2 = if hit2 {
                Ball {
                    x: (p2_left - l.ball_s) as i32,
                    vx: boosted(-b1.vx, MAX_BALL_SPEED_X as int) as i32,
                    vy: boosted(b1.vy as int, MAX_BALL_SPEED_Y as int) as i32,
                    ..b1
                }
            } else {
                b1
            };
            let g = Game { ball: b2, ..self };
            let g2 = if b2.x < 0 {
                let s = Game { score_r: (g.score_r + 1) as usize, ..g };
                Game { ball: served_ball(l, s.score_l, s.score_r, false), ..s }
            } else if b2.x > l.field_w {
                let s = Game { score_l: (g.score_l + 1) as usize, ..g };
                Game { ball: served_ball(l, s.score_l, s.score_r, true), ..s }
            } else {
                g
            };
            if g2.score_l >= SCORE_TO_WIN || g2.score_r >= SCORE_TO_WIN {
                Game { running: false, ..g2 }
            } else {
                g2
            }
        }
    }

    /// A fresh game: both paddles and the ball in the middle.
    pub fn new(layout: &Layout) -> (g: Game)
        requires
            layout.sizes_fit(),
        ensures
            g == (Game {
                p1: Paddle { y: (layout.field_h / 2 - layout.paddle_h / 2) as i32 },
                p2: Paddle { y: (layout.field_h / 2 - layout.paddle_h / 2) as i32 },
                ball: Ball { x: (layout.field_w / 2) as i32, y: (layout.field_h / 2) as i32, vx: BASE_BALL_SPEED_X, vy: 1 },
                score_l: 0,
                score_r: 0,
                running: true,
                quit: false,
            }),
    {
        proof { }
        let center_y = (layout.field_h / 2) as i32;
        Self {
            p1: Paddle { y: center_y - (layout.paddle_h / 2) as i32 },
            p2: Paddle { y: center_y - (layout.paddle_h / 2) as i32 },
            ball: Ball {
                x: (layout.field_w / 2) as i32,
                y: (layout.field_h / 2) as i32,
                vx: BASE_BALL_SPEED_X,
                vy: 1,
            },
            score_l: 0,
            score_r: 0,
            running: true,
            quit: false,
        }
    }

    /// Keeps both paddles inside the field.
    pub fn clamp_paddles(&mut self, layout: &Layout)
        requires
            layout.sizes_fit(),
        ensures
            ({
                let max_y = sat_sub_spec(layout.field_h, layout.paddle_h) as int;
                let clamp = |y: int| if y < 0 { 0 } else if y > max_y { max_y } else { y };
                *final(self) == Game {
                    p1: Paddle { y: clamp(old(self).p1.y as int) as i32 },
                    p2: Paddle { y: clamp(old(self).p2.y as int) as i32 },
                    ..*old(self)
                }
            }),
            0 <= final(self).p1.y <= sat_sub_spec(layout.field_h, layout.paddle_h),
            0 <= final(self).p2.y <= sat_sub_spec(layout.field_h, layout.paddle_h),
    {
        proof { }
        let max_y = layout.field_h.saturating_sub(layout.paddle_h) as i32;
        if self.p1.y < 0 {
            self.p1.y = 0;
        }
        if self.p2.y < 0 {
            self.p2.y = 0;
        }
        if self.p1.y > max_y {
            self.p1.y = max_y;
        }
        if self.p2.y > max_y {
            self.p2.y = max_y;
        }
    }

    /// Serves the ball from the centre, as `served_ball` describes it.
    pub fn reset_ball(&mut self, layout: &Layout, to_left: bool)
        requires
            layout.sizes_fit(),
            old(self).score_l + old(self).score_r <= usize::MAX,
        ensures
            *final(self) == (Game {
                ball: served_ball(*layout, old(self).score_l, old(self).score_r, to_left),
                ..*old(self)
            }),
    {
        proof { }
        let sum: usize = self.score_l + self.score_r;
        let total_score = sum as i32;
        let half = BASE_BALL_SPEED_X + total_score / 2;
        let speed_x = if half <= MAX_BALL_SPEED_X { half } else { MAX_BALL_SPEED_X };
        let third = 1 + total_score / 3;
        let speed_y = if third <= MAX_BALL_SPEED_Y { third } else { MAX_BALL_SPEED_Y };
        self.ball.x = (layout.field_w / 2) as i32;
        self.ball.y = (layout.field_h / 2) as i32;
        self.ball.vx = if to_left { -speed_x } else { speed_x };
        self.ball.vy = if (self.score_l + self.score_r) % 2 == 0 { speed_y } else { -speed_y };
    }

    /// Makes the ball one faster across (up to 6) and one faster up or down
    /// (up to 3), keeping its directions.
    pub fn boost_after_paddle_hit(&mut self)
        requires
            -i32::MAX < old(self).ball.vx < i32::MAX,
            -i32::MAX < old(self).ball.vy < i32::MAX,
        ensures
            *final(self) == (Game {
                ball: Ball {
                    vx: boosted(old(self).ball.vx as int, MAX_BALL_SPEED_X as int) as i32,
                    vy: boosted(old(self).ball.vy as int, MAX_BALL_SPEED_Y as int) as i32,
                    ..old(self).ball
                },
                ..*old(self)
            }),
            -MAX_BALL_SPEED_X <= final(self).ball.vx <= MAX_BALL_SPEED_X,
            -MAX_BALL_SPEED_Y <= final(self).ball.vy <= MAX_BALL_SPEED_Y,
    {
        let vx_sign: i32 = if self.ball.vx >= 0 { 1 } else { -1 };
        let vx_abs = if self.ball.vx >= 0 { self.ball.vx } else { -self.ball.vx };
        let next_vx = if vx_abs + 1 <= MAX_BALL_SPEED_X { vx_abs + 1 } else { MAX_BALL_SPEED_X };
        self.ball.vx = if vx_sign == 1 { next_vx } else { -next_vx };

        let vy_sign: i32 = if self.ball.vy >= 0 { 1 } else { -1 };
        let vy_abs = if self.ball.vy >= 0 { self.ball.vy } else { -self.ball.vy };
        let next_vy = if vy_abs + 1 <= MAX_BALL_SPEED_Y { vy_abs + 1 } else { MAX_BALL_SPEED_Y };
        self.ball.vy = if vy_sign == 1 { next_vy } else { -next_vy };
    }

    /// One clock tick, as `Game::ticked` describes it.
    pub fn on_tick(&mut self, layout: &Layout)
        requires
            layout.sizes_fit(),
            old(self).tick_fits(*layout),
        ensures
            *final(self) == old(self).ticked(*layout),
    {
        if !self.running || self.quit {
            return;
        }
        proof { }
        let ghost start = *self;
        self.ball.x += self.ball.vx;
        self.ball.y += self.ball.vy;

        if self.ball.y <= 0 {
            self.ball.y = 0;
            self.ball.vy = -self.ball.vy;
        }
        let max_ball_y = layout.field_h.saturating_sub(layout.ball_s) as i32;
        if self.ball.y >= max_ball_y {
            self.ball.y = max_ball_y;
            self.ball.vy = -self.ball.vy;
        }
        assert(self.ball == start.moved_ball(*layout));

        let ball_left = self.ball.x;
        let ball_right = self.ball.x + layout.ball_s as i32;
        let ball_top = self.ball.y;
        let ball_bottom = self.ball.y + layout.ball_s as i32;

        let p1_top = self.p1.y;
        let p1_bottom = self.p1.y + layout.paddle_h as i32;
        let p2_top = self.p2.y;
        let p2_bottom = self.p2.y + layout.paddle_h as i32;
        let p1_left = layout.p1_x.saturating_sub(layout.field_x) as i32;
        let p1_right = p1_left + layout.paddle_w as i32;
        let p2_left = layout.p2_x.saturating_sub(layout.field_x) as i32;
        let p2_right = p2_left + layout.paddle_w as i32;

        if ball_left <= p1_right && ball_right >= p1_left && ball_bottom >= p1_top && ball_top <= p1_bottom
            && self.ball.vx < 0 {
            self.ball.x = p1_right;
            self.ball.vx = -self.ball.vx;
            self.boost_after_paddle_hit();
        }

        if ball_right >= p2_left && ball_left <= p2_right && ball_bottom >= p2_top && ball_top <= p2_bottom
            && self.ball.vx > 0 {
            self.ball.x = p2_left - layout.ball_s as i32;
            self.ball.vx = -self.ball.vx;
            self.boost_after_paddle_hit();
        }

        if self.ball.x < 0 {
            self.score_r = self.score_r.saturating_add(1);
            self.reset_ball(layout, false);
        } else if self.ball.x as usize > layout.field_w {
            self.score_l = self.score_l.saturating_add(1);
            self.reset_ball(layout, true);
        }

        if self.score_l >= SCORE_TO_WIN || self.score_r >= SCORE_TO_WIN {
            self.running = false;
        }
    }
}

/// The top and bottom walls turn the ball back. In a tick where the ball
/// stays inside the field sideways and clear of both paddles, a ball that
/// reaches the bottom stops there, at `field_h - ball_s`, and leaves moving
/// up at the same speed; one that reaches the top stops at 0 and leaves
/// moving down. It moves sideways by its speed, and neither the scores nor
/// the paddles change.
pub proof fn lemma_top_bottom_walls(g: Game, l: Layout)
    requires
        l.sizes_fit(),
        g.running && !g.quit,
        l.ball_s < l.field_h,
        g.ball.vy > i32::MIN,
        0 <= g.ball.x + g.ball.vx <= l.field_w,
        g.ball.x + g.ball.vx > sat_sub_spec(l.p1_x, l.field_x) + l.paddle_w,
        g.ball.x + g.ball.vx + l.ball_s < sat_sub_spec(l.p2_x, l.field_x),
    ensures
        g.ball.vy > 0 && g.ball.y + g.ball.vy >= l.field_h - l.ball_s ==> {
            &&& g.ticked(l).ball.y == l.field_h - l.ball_s
            &&& g.ticked(l).ball.vy == -g.ball.vy
        },
        g.ball.vy < 0 && g.ball.y + g.ball.vy <= 0 ==> {
            &&& g.ticked(l).ball.y == 0
            &&& g.ticked(l).ball.vy == -g.ball.vy
        },
        (g.ball.vy > 0 && g.ball.y + g.ball.vy >= l.field_h - l.ball_s) || (g.ball.vy < 0 && g.ball.y + g.ball.vy <= 0)
            ==> {
            &&& g.ticked(l).ball.x == g.ball.x + g.ball.vx
            &&& g.ticked(l).ball.vx == g.ball.vx
            &&& g.ticked(l).score_l == g.score_l
            &&& g.ticked(l).score_r == g.score_r
            &&& g.ticked(l).p1 == g.p1
            &&& g.ticked(l).p2 == g.p2
        },
{
}

/// A ball that gets past a paddle scores for the other player. In a tick
/// where the ball moves out past the left side, beyond the left paddle, the
/// right player gains a point and the ball is served again from the middle of
/// the field towards the right; past the right side, beyond the right paddle,
/// the left player gains a point and the ball is served towards the left.
pub proof fn lemma_miss_scores(g: Game, l: Layout)
    requires
        l.sizes_fit(),
        g.running && !g.quit,
        g.score_l < 100,
        g.score_r < 100,
        fits_i32(g.ball.x + g.ball.vx),
    ensures
        g.ball.x + g.ball.vx < 0 && g.ball.x + g.ball.vx + l.ball_s < sat_sub_spec(l.p1_x, l.field_x) && g.ball.vx < 0 ==> {
            &&& g.ticked(l).score_r == g.score_r + 1
            &&& g.ticked(l).score_l == g.score_l
            &&& g.ticked(l).ball.x == l.field_w / 2
            &&& g.ticked(l).ball.y == l.field_h / 2
            &&& g.ticked(l).ball.vx > 0
        },
        g.ball.x + g.ball.vx > l.field_w && g.ball.x + g.ball.vx > sat_sub_spec(l.p2_x, l.field_x) + l.paddle_w
            && g.ball.vx > 0 ==> {
            &&& g.ticked(l).score_l == g.score_l + 1
            &&& g.ticked(l).score_r == g.score_r
            &&& g.ticked(l).ball.x == l.field_w / 2
            &&& g.ticked(l).ball.y == l.field_h / 2
            &&& g.ticked(l).ball.vx < 0
        },
{
}

/// On a built layout, a game in the safe range can take a clock tick and
/// stays in that range, and a game still running after a tick has no player at five
/// points.
pub proof fn lemma_tick_keeps_fits(g: Game, l: Layout)
    requires
        l.wf(),
        g.in_safe_range(),
    ensures
        g.tick_fits(l),
        g.ticked(l).in_safe_range(),
        g.ticked(l).p1 == g.p1 && g.ticked(l).p2 == g.p2,
        g.ticked(l).running && !g.ticked(l).quit ==> g.ticked(l).score_l < SCORE_TO_WIN && g.ticked(l).score_r
            < SCORE_TO_WIN,
{
    lemma_layout_bounds(l);
}

/// What a message from the other processes does to the game: the paddles
/// move ten pixels, a tick advances the ball, a quit ends the game; tells
/// whether the screen needs redrawing.
pub open spec fn message_effect(g: Game, l: Layout, msg: u32) -> (bool, Game) {
    if msg == MSG_P1_UP {
        (true, Game { p1: Paddle { y: (g.p1.y - PADDLE_STEP) as i32 }, ..g })
    } else if msg == MSG_P1_DOWN {
        (true, Game { p1: Paddle { y: (g.p1.y + PADDLE_STEP) as i32 }, ..g })
    } else if msg == MSG_P2_UP {
        (true, Game { p2: Paddle { y: (g.p2.y - PADDLE_STEP) as i32 }, ..g })
    } else if msg == MSG_P2_DOWN {
        (true, Game { p2: Paddle { y: (g.p2.y + PADDLE_STEP) as i32 }, ..g })
    } else if msg == MSG_TICK {
        (true, g.ticked(l))
    } else if msg == MSG_QUIT {
        (true, Game { quit: true, ..g })
    } else {
        (false, g)
    }
}

/// Applies one message to the game; tells whether the screen needs redrawing.
pub fn apply_message(game: &mut Game, layout: &Layout, msg: u32) -> (dirty: bool)
    requires
        layout.sizes_fit(),
        msg == MSG_P1_UP ==> old(game).p1.y >= i32::MIN + PADDLE_STEP,
        msg == MSG_P1_DOWN ==> old(game).p1.y <= i32::MAX - PADDLE_STEP,
        msg == MSG_P2_UP ==> old(game).p2.y >= i32::MIN + PADDLE_STEP,
        msg == MSG_P2_DOWN ==> old(game).p2.y <= i32::MAX - PADDLE_STEP,
        msg == MSG_TICK ==> old(game).tick_fits(*layout),
    ensures
        (dirty, *final(game)) == message_effect(*old(game), *layout, msg),
{
    match msg {
        MSG_P1_UP => {
            game.p1.y -= PADDLE_STEP;
            true
        },
        MSG_P1_DOWN => {
            game.p1.y += PADDLE_STEP;
            true
        },
        MSG_P2_UP => {
            game.p2.y -= PADDLE_STEP;
            true
        },
        MSG_P2_DOWN => {
            game.p2.y += PADDLE_STEP;
            true
        },
        MSG_TICK => {
            game.on_tick(layout);
            true
        },
        MSG_QUIT => {
            game.quit = true;
            true
        },
        _ => false,
    }
}

/// The message a key sends: `w`/`s` move the left paddle, `i`/`k` the right
/// one, `q` quits; other keys send nothing.
pub fn key_message(key: u8) -> (msg: Option<u32>)
    ensures
        msg == if key == 0x77 || key == 0x57 {
            Some(MSG_P1_UP)
        } else if key == 0x73 || key == 0x53 {
            Some(MSG_P1_DOWN)
        } else if key == 0x69 || key == 0x49 {
            Some(MSG_P2_UP)
        } else if key == 0x6b || key == 0x4b {
            Some(MSG_P2_DOWN)
        } else if key == 0x71 || key == 0x51 {
            Some(MSG_QUIT)
        } else {
            None::<u32>
        },
{
    match key {
        0x77 | 0x57 => Some(MSG_P1_UP),
        0x73 | 0x53 => Some(MSG_P1_DOWN),
        0x69 | 0x49 => Some(MSG_P2_UP),
        0x6b | 0x4b => Some(MSG_P2_DOWN),
        0x71 | 0x51 => Some(MSG_QUIT),
        _ => None,
    }
}

/// The system call that sends `message` to process `to_pid`.
pub fn mq_send(to_pid: usize, message: u32) -> (req: SyscallRequest)
    ensures
        req == (SyscallRequest { id: SYSCALL_MQ_SEND, arg0: to_pid, arg1: message as usize }),
{
    SyscallRequest { id: SYSCALL_MQ_SEND, arg0: to_pid, arg1: message as usize }
}

/// The message that the receive system call returned, if any: a negative
/// value or all ones means that none was waiting.
pub fn mq_recv(ret: isize) -> (msg: Option<u32>)
    ensures
        msg == if ret < 0 { None::<u32> } else { Some(ret as u32) },
{
    if ret < 0 || ret as usize == usize::MAX {
        None
    } else {
        Some(ret as u32)
    }
}

pub const COLOR_BG: u32 = 0xff0f1720;
pub const COLOR_FIELD: u32 = 0xff1b2632;
pub const COLOR_BORDER: u32 = 0xff334155;
pub const COLOR_P1: u32 = 0xff22c55e;
pub const COLOR_P2: u32 = 0xff3b82f6;
pub const COLOR_BALL: u32 = 0xfff8fafc;
pub const COLOR_SCORE_L: u32 = 0xffa855f7;
pub const COLOR_SCORE_R: u32 = 0xfff59e0b;
pub const COLOR_WIN: u32 = 0xffef4444;

/// What the screen showed when it was last drawn.
#[derive(Clone, Copy, Debug, PartialEq, Eq)]
pub struct RenderState {
    pub inited: bool,
    pub prev_p1_y: i32,
    pub prev_p2_y: i32,
    pub prev_ball_x: i32,
    pub prev_ball_y: i32,
    pub prev_score_l: usize,
    pub prev_score_r: usize,
    pub prev_running: bool,
    pub prev_mode: u8,
}

impl RenderState {
    /// Nothing drawn yet.
    pub fn new() -> (st: Self)
        ensures
            st == (RenderState {
                inited: false,
                prev_p1_y: 0,
                prev_p2_y: 0,
                prev_ball_x: 0,
                prev_ball_y: 0,
                prev_score_l: 0,
                prev_score_r: 0,
                prev_running: true,
                prev_mode: 0,
            }),
    {
        Self {
            inited: false,
            prev_p1_y: 0,
            prev_p2_y: 0,
            prev_ball_x: 0,
            prev_ball_y: 0,
            prev_score_l: 0,
            prev_score_r: 0,
            prev_running: true,
            prev_mode: 0,
        }
    }
}

pub open spec fn rect(x: int, y: int, w: int, h: int, color: u32) -> Rect {
    Rect { x: x as usize, y: y as usize, w: w as usize, h: h as usize, color }
}

/// A player's score: a grey slot of at most 120 pixels (a third of the
/// field) above the field, filled fourteen pixels per point, on the left for
/// the left player and on the right for the right one.
pub open spec fn score_rects(l: Layout, score: usize, left: bool, color: u32) -> Seq<Rect> {
    let max_seg_w = min_int((l.field_w / 3) as int, 120);
    let bar_w = min_int(max_seg_w, if score * 14 > usize::MAX { usize::MAX as int } else { score * 14 });
    let x = if left {
        l.field_x + 8
    } else {
        l.field_x + sat_sub_spec(l.field_w, (8 + max_seg_w) as usize)
    };
    let y = sat_sub_spec(l.field_y, 24) as int;
    seq![rect(x, y, max_seg_w, 10, COLOR_BORDER)] + if bar_w > 0 {
        seq![rect(x, y, bar_w, 10, color)]
    } else {
        seq![]
    }
}

fn push_score_rects(plan: &mut Vec<Rect>, layout: &Layout, score: usize, left: bool, color: u32)
    requires
        layout.draw_fits(),
    ensures
        final(plan)@ == old(plan)@ + score_rects(*layout, score, left, color),
{
    let max_seg_w = if layout.field_w / 3 <= 120 { layout.field_w / 3 } else { 120 };
    let scaled = saturating_mul(score, 14);
    proof { reveal(sat_mul_spec); }
    let bar_w = if max_seg_w <= scaled { max_seg_w } else { scaled };
    let x = if left {
        layout.field_x + 8
    } else {
        layout.field_x + layout.field_w.saturating_sub(8 + max_seg_w)
    };
    let y = layout.field_y.saturating_sub(24);
    plan.push(Rect { x, y, w: max_seg_w, h: 10, color: COLOR_BORDER });
    if bar_w > 0 {
        plan.push(Rect { x, y, w: bar_w, h: 10, color });
    }
    assert(plan@ =~= old(plan)@ + score_rects(*layout, score, left, color));
}

/// Draws a player's score, as `score_rects` describes it.
pub fn draw_score(framebuffer: &mut [u8], layout: &Layout, score: usize, left: bool, color: u32)
    requires
        layout.draw_fits(),
        rects_fit(layout.width as int, score_rects(*layout, score, left, color)),
    ensures
        final(framebuffer)@ == paint_spec(old(framebuffer)@, layout.width as int, score_rects(*layout, score, left, color)),
{
    let mut plan: Vec<Rect> = Vec::new();
    push_score_rects(&mut plan, layout, score, left, color);
    assert(plan@ =~= score_rects(*layout, score, left, color));
    paint(framebuffer, layout.width, &plan);
}

/// A moving object: erased where it was (unless this is the first frame)
/// and drawn where it is, when it moved or on the first frame.
pub open spec fn mover_rects(
    inited: bool,
    moved: bool,
    old_x: int,
    old_y: int,
    x: int,
    y: int,
    w: int,
    h: int,
    color: u32,
) -> Seq<Rect> {
    if !inited || moved {
        (if inited { seq![rect(old_x, old_y, w, h, COLOR_FIELD)] } else { seq![] }) + seq![rect(x, y, w, h, color)]
    } else {
        seq![]
    }
}

/// The background, border and field on the first frame, and the mode bar
/// when the input mode changed.
#[verifier::opaque]
pub open spec fn frame_part(mode: InputMode, st: RenderState, l: Layout) -> Seq<Rect> {
    let fx = l.field_x as int;
    let fy = l.field_y as int;
    let fw = l.field_w as int;
    let fh = l.field_h as int;
    let frame = if !st.inited {
        seq![
            rect(0, 0, l.width as int, l.height as int, COLOR_BG),
            rect(sat_sub_spec(l.field_x, 3) as int, sat_sub_spec(l.field_y, 3) as int, fw + 6, fh + 6, COLOR_BORDER),
            rect(fx, fy, fw, fh, COLOR_FIELD),
        ]
    } else {
        seq![]
    };
    let mode_bar = if !st.inited || st.prev_mode != spec_mode_id(mode) {
        seq![rect(fx, sat_sub_spec(l.field_y, 40) as int, fw, 8, spec_mode_color(mode))]
    } else {
        seq![]
    };
    frame + mode_bar
}

/// The two paddles and the ball, each redrawn where it moved.
#[verifier::opaque]
pub open spec fn movers_part(g: Game, st: RenderState, l: Layout) -> Seq<Rect> {
    let fx = l.field_x as int;
    let fy = l.field_y as int;
    let pw = l.paddle_w as int;
    let ph = l.paddle_h as int;
    let p1 = mover_rects(st.inited, st.prev_p1_y != g.p1.y, l.p1_x as int, fy + max_int(st.prev_p1_y as int, 0),
        l.p1_x as int, fy + max_int(g.p1.y as int, 0), pw, ph, COLOR_P1);
    let p2 = mover_rects(st.inited, st.prev_p2_y != g.p2.y, l.p2_x as int, fy + max_int(st.prev_p2_y as int, 0),
        l.p2_x as int, fy + max_int(g.p2.y as int, 0), pw, ph, COLOR_P2);
    let s = l.ball_s as int;
    let ball = mover_rects(st.inited, st.prev_ball_x != g.ball.x || st.prev_ball_y != g.ball.y,
        fx + max_int(st.prev_ball_x as int, 0), fy + max_int(st.prev_ball_y as int, 0),
        fx + max_int(g.ball.x as int, 0), fy + max_int(g.ball.y as int, 0), s, s, COLOR_BALL);
    p1 + p2 + ball
}

/// The frame, mode bar, paddles and ball.
pub open spec fn scene_part(g: Game, mode: InputMode, st: RenderState, l: Layout) -> Seq<Rect> {
    frame_part(mode, st, l) + movers_part(g, st, l)
}

/// The scores, and the band across the field once the game is over (erased
/// when a new game runs).
#[verifier::opaque]
pub open spec fn status_part(g: Game, st: RenderState, l: Layout) -> Seq<Rect> {
    let fx = l.field_x as int;
    let fy = l.field_y as int;
    let fw = l.field_w as int;
    let fh = l.field_h as int;
    let left = if !st.inited || st.prev_score_l != g.score_l {
        score_rects(l, g.score_l, true, COLOR_SCORE_L)
    } else {
        seq![]
    };
    let right = if !st.inited || st.prev_score_r != g.score_r {
        score_rects(l, g.score_r, false, COLOR_SCORE_R)
    } else {
        seq![]
    };
    let band = if !g.running {
        seq![rect(fx + fw / 4, fy + fh / 2 - 8, fw / 2, 16, COLOR_WIN)]
    } else if !st.prev_running {
        seq![rect(fx + fw / 4, fy + fh / 2 - 8, fw / 2, 16, COLOR_FIELD)]
    } else {
        seq![]
    };
    left + right + band
}

/// Whether the paddles and the ball, where they are and where they were
/// last drawn, have screen positions that fit in a `usize`.
pub open spec fn moving_fits(g: Game, l: Layout, st: RenderState) -> bool {
    &&& l.field_y + max_int(g.p1.y as int, 0) <= usize::MAX
    &&& l.field_y + max_int(st.prev_p1_y as int, 0) <= usize::MAX
    &&& l.field_y + max_int(g.p2.y as int, 0) <= usize::MAX
    &&& l.field_y + max_int(st.prev_p2_y as int, 0) <= usize::MAX
    &&& l.field_x + max_int(g.ball.x as int, 0) <= usize::MAX
    &&& l.field_x + max_int(st.prev_ball_x as int, 0) <= usize::MAX
    &&& l.field_y + max_int(g.ball.y as int, 0) <= usize::MAX
    &&& l.field_y + max_int(st.prev_ball_y as int, 0) <= usize::MAX
}

/// Everything a frame draws, in order.
pub open spec fn render_rects(g: Game, mode: InputMode, st: RenderState, l: Layout) -> Seq<Rect> {
    scene_part(g, mode, st, l) + status_part(g, st, l)
}

/// What a frame remembers of the game it drew.
pub open spec fn rendered_state(g: Game, mode: InputMode) -> RenderState {
    RenderState {
        inited: true,
        prev_p1_y: g.p1.y,
        prev_p2_y: g.p2.y,
        prev_ball_x: g.ball.x,
        prev_ball_y: g.ball.y,
        prev_score_l: g.score_l,
        prev_score_r: g.score_r,
        prev_running: g.running,
        prev_mode: spec_mode_id(mode),
    }
}

proof fn lemma_small_layout(l: Layout)
    requires
        l == layout_of(l.width, l.height),
        l.width <= SMALL_SIDE,
        l.height <= SMALL_SIDE,
    ensures
        l.field_w <= 2048,
        l.field_h <= 2048,
        l.field_x <= 1024,
        l.field_y <= 1024,
        6 <= l.paddle_w <= 40,
        30 <= l.paddle_h <= 400,
        6 <= l.ball_s <= 40,
        l.p1_x <= 1100,
        l.p2_x <= 4096,
{
    reveal(layout_of);
    reveal(sat_mul_spec);
}

proof fn lemma_frame_small(mode: InputMode, st: RenderState, l: Layout)
    requires
        l == layout_of(l.width, l.height),
        l.width <= SMALL_SIDE,
        l.height <= SMALL_SIDE,
    ensures
        rects_small(frame_part(mode, st, l)),
{
    lemma_small_layout(l);
    reveal(frame_part);
}

proof fn lemma_movers_small(g: Game, st: RenderState, l: Layout)
    requires
        l == layout_of(l.width, l.height),
        l.width <= SMALL_SIDE,
        l.height <= SMALL_SIDE,
        g.p1.y <= 0x1_0000,
        g.p2.y <= 0x1_0000,
        g.ball.x <= 0x1_0000,
        g.ball.y <= 0x1_0000,
        st.prev_p1_y <= 0x1_0000,
        st.prev_p2_y <= 0x1_0000,
        st.prev_ball_x <= 0x1_0000,
        st.prev_ball_y <= 0x1_0000,
    ensures
        rects_small(movers_part(g, st, l)),
{
    lemma_small_layout(l);
    reveal(movers_part);
    let fx = l.field_x as int;
    let fy = l.field_y as int;
    let pw = l.paddle_w as int;
    let ph = l.paddle_h as int;
    let p1 = mover_rects(st.inited, st.prev_p1_y != g.p1.y, l.p1_x as int, fy + max_int(st.prev_p1_y as int, 0),
        l.p1_x as int, fy + max_int(g.p1.y as int, 0), pw, ph, COLOR_P1);
    let p2 = mover_rects(st.inited, st.prev_p2_y != g.p2.y, l.p2_x as int, fy + max_int(st.prev_p2_y as int, 0),
        l.p2_x as int, fy + max_int(g.p2.y as int, 0), pw, ph, COLOR_P2);
    let s = l.ball_s as int;
    let ball = mover_rects(st.inited, st.prev_ball_x != g.ball.x || st.prev_ball_y != g.ball.y,
        fx + max_int(st.prev_ball_x as int, 0), fy + max_int(st.prev_ball_y as int, 0),
        fx + max_int(g.ball.x as int, 0), fy + max_int(g.ball.y as int, 0), s, s, COLOR_BALL);
    assert(rects_small(p1));
    assert(rects_small(p2));
    assert(rects_small(ball));
    lemma_rects_small_concat(p1, p2);
    lemma_rects_small_concat(p1 + p2, ball);
}

proof fn lemma_status_small(g: Game, st: RenderState, l: Layout)
    requires
        l == layout_of(l.width, l.height),
        l.width <= SMALL_SIDE,
        l.height <= SMALL_SIDE,
        !g.running || !st.prev_running ==> l.field_y + l.field_h / 2 >= 8,
    ensures
        rects_small(status_part(g, st, l)),
{
    lemma_small_layout(l);
    reveal(status_part);
    reveal(sat_mul_spec);
    let left = score_rects(l, g.score_l, true, COLOR_SCORE_L);
    let right = score_rects(l, g.score_r, false, COLOR_SCORE_R);
    assert(rects_small(left));
    assert(rects_small(right));
    let fx = l.field_x as int;
    let fy = l.field_y as int;
    let fw = l.field_w as int;
    let fh = l.field_h as int;
    let band = if !g.running {
        seq![rect(fx + fw / 4, fy + fh / 2 - 8, fw / 2, 16, COLOR_WIN)]
    } else if !st.prev_running {
        seq![rect(fx + fw / 4, fy + fh / 2 - 8, fw / 2, 16, COLOR_FIELD)]
    } else {
        seq![]
    };
    assert(rects_small(band));
    let l2 = if !st.inited || st.prev_score_l != g.score_l { left } else { seq![] };
    let r2 = if !st.inited || st.prev_score_r != g.score_r { right } else { seq![] };
    assert(rects_small(l2));
    assert(rects_small(r2));
    lemma_rects_small_concat(l2, r2);
    lemma_rects_small_concat(l2 + r2, band);
}

/// On a screen no larger than `SMALL_SIDE` a side, every frame of a game
/// whose paddles and ball (now and when last drawn) lie within 2^16 pixels
/// of the field's corner can be drawn within machine integers, so `render`
/// can be called (when its game-over band fits on the screen).
pub proof fn lemma_render_fits(g: Game, mode: InputMode, st: RenderState, width: usize, height: usize)
    requires
        width <= SMALL_SIDE,
        height <= SMALL_SIDE,
        !g.running || !st.prev_running ==> layout_of(width, height).field_y + layout_of(width, height).field_h / 2 >= 8,
        g.p1.y <= 0x1_0000,
        g.p2.y <= 0x1_0000,
        g.ball.x <= 0x1_0000,
        g.ball.y <= 0x1_0000,
        st.prev_p1_y <= 0x1_0000,
        st.prev_p2_y <= 0x1_0000,
        st.prev_ball_x <= 0x1_0000,
        st.prev_ball_y <= 0x1_0000,
    ensures
        rects_fit(width as int, render_rects(g, mode, st, layout_of(width, height))),
{
    let l = layout_of(width, height);
    assert(l == layout_of(l.width, l.height) && l.width == width && l.height == height) by { reveal(layout_of); }
    lemma_frame_small(mode, st, l);
    lemma_movers_small(g, st, l);
    lemma_status_small(g, st, l);
    lemma_rects_small_concat(frame_part(mode, st, l), movers_part(g, st, l));
    lemma_rects_small_concat(frame_part(mode, st, l) + movers_part(g, st, l), status_part(g, st, l));
    lemma_small_rects_fit(width as int, render_rects(g, mode, st, l));
}

fn push_mover(
    plan: &mut Vec<Rect>,
    inited: bool,
    moved: bool,
    old_x: usize,
    old_y: usize,
    x: usize,
    y: usize,
    w: usize,
    h: usize,
    color: u32,
)
    ensures
        final(plan)@ == old(plan)@ + mover_rects(inited, moved, old_x as int, old_y as int, x as int, y as int, w as int, h as int, color),
{
    if !inited || moved {
        if inited {
            plan.push(Rect { x: old_x, y: old_y, w, h, color: COLOR_FIELD });
        }
        plan.push(Rect { x, y, w, h, color });
    }
    assert(plan@ =~= old(plan)@ + mover_rects(inited, moved, old_x as int, old_y as int, x as int, y as int, w as int, h as int, color));
}

/// The row `y` clipped at zero, as a screen offset.
fn clip0(y: i32) -> (r: usize)
    ensures
        r == max_int(y as int, 0),
{
    if y >= 0 { y as usize } else { 0 }
}

fn push_frame_part(plan: &mut Vec<Rect>, mode: InputMode, state: &RenderState, layout: &Layout)
    requires
        layout.draw_fits(),
    ensures
        final(plan)@ == old(plan)@ + frame_part(mode, *state, *layout),
{
    proof {
        reveal(frame_part);
    }
    let fx = layout.field_x;
    let fy = layout.field_y;
    let fw = layout.field_w;
    let fh = layout.field_h;
    if !state.inited {
        plan.push(Rect { x: 0, y: 0, w: layout.width, h: layout.height, color: COLOR_BG });
        plan.push(Rect { x: fx.saturating_sub(3), y: fy.saturating_sub(3), w: fw + 6, h: fh + 6, color: COLOR_BORDER });
        plan.push(Rect { x: fx, y: fy, w: fw, h: fh, color: COLOR_FIELD });
    }
    if !state.inited || state.prev_mode != mode_id(mode) {
        plan.push(Rect { x: fx, y: fy.saturating_sub(40), w: fw, h: 8, color: mode_color(mode) });
    }
    assert(plan@ =~= old(plan)@ + frame_part(mode, *state, *layout));
}

fn push_movers_part(plan: &mut Vec<Rect>, game: &Game, state: &RenderState, layout: &Layout)
    requires
        layout.draw_fits(),
        moving_fits(*game, *layout, *state),
    ensures
        final(plan)@ == old(plan)@ + movers_part(*game, *state, *layout),
{
    proof {
        reveal(movers_part);
    }
    let fx = layout.field_x;
    let fy = layout.field_y;
    let ghost p0 = plan@;
    push_mover(plan, state.inited, state.prev_p1_y != game.p1.y, layout.p1_x, fy + clip0(state.prev_p1_y),
        layout.p1_x, fy + clip0(game.p1.y), layout.paddle_w, layout.paddle_h, COLOR_P1);
    let ghost p1 = plan@;
    push_mover(plan, state.inited, state.prev_p2_y != game.p2.y, layout.p2_x, fy + clip0(state.prev_p2_y),
        layout.p2_x, fy + clip0(game.p2.y), layout.paddle_w, layout.paddle_h, COLOR_P2);
    let ghost p2 = plan@;
    push_mover(plan, state.inited, state.prev_ball_x != game.ball.x || state.prev_ball_y != game.ball.y,
        fx + clip0(state.prev_ball_x), fy + clip0(state.prev_ball_y), fx + clip0(game.ball.x), fy + clip0(game.ball.y),
        layout.ball_s, layout.ball_s, COLOR_BALL);
    assert(plan@ =~= old(plan)@ + movers_part(*game, *state, *layout));
}

fn push_status_part(plan: &mut Vec<Rect>, game: &Game, state: &RenderState, layout: &Layout)
    requires
        layout.draw_fits(),
        !game.running || !state.prev_running ==> layout.field_y + layout.field_h / 2 >= 8,
    ensures
        final(plan)@ == old(plan)@ + status_part(*game, *state, *layout),
{
    proof {
        reveal(status_part);
    }
    let ghost p0 = plan@;
    if !state.inited || state.prev_score_l != game.score_l {
        push_score_rects(plan, layout, game.score_l, true, COLOR_SCORE_L);
    }
    let ghost p1 = plan@;
    if !state.inited || state.prev_score_r != game.score_r {
        push_score_rects(plan, layout, game.score_r, false, COLOR_SCORE_R);
    }
    let ghost p2 = plan@;
    let fx = layout.field_x;
    let fy = layout.field_y;
    let fw = layout.field_w;
    let fh = layout.field_h;
    if !game.running {
        plan.push(Rect { x: fx + fw / 4, y: fy + fh / 2 - 8, w: fw / 2, h: 16, color: COLOR_WIN });
    } else if state.prev_running == false {
        plan.push(Rect { x: fx + fw / 4, y: fy + fh / 2 - 8, w: fw / 2, h: 16, color: COLOR_FIELD });
    }
    assert(plan@ =~= old(plan)@ + status_part(*game, *state, *layout));
}

/// Draws one frame into a `width` by `height` framebuffer, redrawing only
/// what changed since the last frame, and remembers what it drew.
pub fn render(game: &Game, mode: InputMode, state: &mut RenderState, framebuffer: &mut [u8], width: usize, height: usize)
    requires
        layout_of(width, height).draw_fits(),
        moving_fits(*game, layout_of(width, height), *old(state)),
        !game.running || !old(state).prev_running ==> layout_of(width, height).field_y + layout_of(width, height).field_h / 2 >= 8,
        rects_fit(width as int, render_rects(*game, mode, *old(state), layout_of(width, height))),
    ensures
        final(framebuffer)@ == paint_spec(old(framebuffer)@, width as int, render_rects(*game, mode, *old(state), layout_of(width, height))),
        *final(state) == rendered_state(*game, mode),
{
    let layout = build_layout(width, height);
    let mut plan: Vec<Rect> = Vec::new();
    push_frame_part(&mut plan, mode, state, &layout);
    push_movers_part(&mut plan, game, state, &layout);
    push_status_part(&mut plan, game, state, &layout);
    assert(plan@ =~= render_rects(*game, mode, *state, layout));
    paint(framebuffer, width, &plan);
    state.inited = true;
    state.prev_p1_y = game.p1.y;
    state.prev_p2_y = game.p2.y;
    state.prev_ball_x = game.ball.x;
    state.prev_ball_y = game.ball.y;
    state.prev_score_l = game.score_l;
    state.prev_score_r = game.score_r;
    state.prev_running = game.running;
    state.prev_mode = mode_id(mode);
}

} // verus!
