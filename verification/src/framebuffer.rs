use vstd::prelude::*;

verus! {

/// The largest screen side, in pixels, of the laid-out breakout and pingpong
/// screens on which play is shown to stay within the ranges that every later
/// step needs.
pub const MAX_SIDE: usize = 0x100_0000;

/// Byte `k` (0 = least significant) of a 32-bit colour stored little-endian.
pub open spec fn color_byte(color: u32, k: int) -> u8 {
    if k == 0 {
        (color % 256) as u8
    } else if k == 1 {
        ((color / 256) % 256) as u8
    } else if k == 2 {
        ((color / 65536) % 256) as u8
    } else {
        ((color / 16777216) % 256) as u8
    }
}

/// Whether pixel number `p` (counted row by row) of a framebuffer `width`
/// pixels wide lies in the rectangle with corner `(x, y)` and size `w` by `h`.
pub open spec fn in_rect(width: int, x: int, y: int, w: int, h: int, p: int) -> bool {
    &&& width > 0
    &&& x <= p % width < x + w
    &&& y <= p / width < y + h
}

/// Whether all four bytes of pixel `p` lie inside a buffer of `len` bytes.
pub open spec fn pixel_in_buffer(len: int, p: int) -> bool {
    0 <= p && (p + 1) * 4 <= len
}

/// The framebuffer after pixel `(x, y)` is set to `color`: nothing happens when
/// `x` is outside the row or the pixel does not fit in the buffer.
pub open spec fn put_pixel_spec(fb: Seq<u8>, width: int, x: int, y: int, color: u32) -> Seq<u8> {
    Seq::new(
        fb.len(),
        |i: int|
            if x < width && i / 4 == y * width + x && pixel_in_buffer(fb.len() as int, i / 4) {
                color_byte(color, i % 4)
            } else {
                fb[i]
            },
    )
}

/// The framebuffer after every pixel of a rectangle that lies inside the
/// rows and inside the buffer is set to `color`.
pub open spec fn fill_rect_spec(
    fb: Seq<u8>,
    width: int,
    x: int,
    y: int,
    w: int,
    h: int,
    color: u32,
) -> Seq<u8> {
    Seq::new(
        fb.len(),
        |i: int|
            if in_rect(width, x, y, w, h, i / 4) && pixel_in_buffer(fb.len() as int, i / 4) {
                color_byte(color, i % 4)
            } else {
                fb[i]
            },
    )
}

/// The sizes for which filling a rectangle stays within machine integers.
pub open spec fn fill_rect_fits(width: int, x: int, y: int, w: int, h: int) -> bool {
    &&& y + h <= usize::MAX
    &&& h > 0 ==> x + w <= usize::MAX
    &&& (h > 0 && w > 0 && x < width) ==> ((y + h - 1) * width + (if x + w < width {
        x + w
    } else {
        width
    })) * 4 <= usize::MAX
}

/// A rectangle to fill with one colour.
#[derive(Clone, Copy, Debug, PartialEq, Eq)]
pub struct Rect {
    pub x: usize,
    pub y: usize,
    pub w: usize,
    pub h: usize,
    pub color: u32,
}

/// The framebuffer after the rectangles are filled one after the other.
pub open spec fn paint_spec(fb: Seq<u8>, width: int, rects: Seq<Rect>) -> Seq<u8>
    decreases rects.len(),
{
    if rects.len() == 0 {
        fb
    } else {
        let r = rects.last();
        fill_rect_spec(
            paint_spec(fb, width, rects.drop_last()),
            width,
            r.x as int,
            r.y as int,
            r.w as int,
            r.h as int,
            r.color,
        )
    }
}

/// Whether every rectangle of the list can be filled within machine integers.
pub open spec fn rects_fit(width: int, rects: Seq<Rect>) -> bool {
    forall|k: int|
        0 <= k < rects.len() ==> #[trigger] fill_rect_fits(
            width,
            rects[k].x as int,
            rects[k].y as int,
            rects[k].w as int,
            rects[k].h as int,
        )
}

/// The screen side up to which the layouts the games build are shown to
/// have sizes that fit in an `i32` (`lemma_built_layout_fits`).
pub const LAYOUT_SIDE_LIMIT: usize = 0x2000_0000;

/// The largest screen side for which `lemma_small_rects_fit` shows that
/// drawing stays within machine integers, on 32-bit machines too.
pub const SMALL_SIDE: usize = 2048;

/// A rectangle whose corner and sides are at most 2^17 pixels.
pub open spec fn rect_small(r: Rect) -> bool {
    &&& r.x <= 0x2_0000
    &&& r.y <= 0x2_0000
    &&& r.w <= 0x2_0000
    &&& r.h <= 0x2_0000
}

/// Whether every rectangle of the list is small.
pub open spec fn rects_small(rects: Seq<Rect>) -> bool {
    forall|k: int| 0 <= k < rects.len() ==> rect_small(#[trigger] rects[k])
}

/// Small rectangles can be filled on a screen no wider than `SMALL_SIDE`.
pub proof fn lemma_small_rects_fit(width: int, rects: Seq<Rect>)
    requires
        0 <= width <= SMALL_SIDE,
        rects_small(rects),
    ensures
        rects_fit(width, rects),
{
    assert forall|k: int| 0 <= k < rects.len() implies #[trigger] fill_rect_fits(
        width,
        rects[k].x as int,
        rects[k].y as int,
        rects[k].w as int,
        rects[k].h as int,
    ) by {
        let r = rects[k];
        assert(rect_small(r));
        let yh = r.y + r.h;
        if r.h > 0 && r.w > 0 && r.x < width {
            assert((yh - 1) * width <= 0x4_0000 * SMALL_SIDE) by (nonlinear_arith)
                requires
                    0 <= yh - 1 <= 0x4_0000,
                    0 <= width <= SMALL_SIDE,
            ;
        }
    }
}

/// Two lists of small rectangles make one.
pub proof fn lemma_rects_small_concat(a: Seq<Rect>, b: Seq<Rect>)
    requires
        rects_small(a),
        rects_small(b),
    ensures
        rects_small(a + b),
{
    assert forall|k: int| 0 <= k < (a + b).len() implies rect_small(#[trigger] (a + b)[k]) by {
        if k < a.len() {
            assert((a + b)[k] == a[k]);
        } else {
            assert((a + b)[k] == b[k - a.len()]);
        }
    }
}

pub proof fn lemma_pixel_coords(width: int, x: int, y: int)
    requires
        width > 0,
        0 <= x < width,
        0 <= y,
    ensures
        (y * width + x) / width == y,
        (y * width + x) % width == x,
{
    vstd::arithmetic::div_mod::lemma_fundamental_div_mod_converse(y * width + x, width, y, x);
}

pub proof fn lemma_pixel_split(width: int, p: int)
    requires
        width > 0,
        0 <= p,
    ensures
        p == (p / width) * width + p % width,
        0 <= p % width < width,
        0 <= p / width,
{
    vstd::arithmetic::div_mod::lemma_fundamental_div_mod(p, width);
    vstd::arithmetic::mul::lemma_mul_is_commutative(width, p / width);
    vstd::arithmetic::div_mod::lemma_div_pos_is_pos(p, width);
}

/// Sets pixel `(x, y)` of a framebuffer of 32-bit pixels, `width` pixels per
/// row, to `color`, stored little-endian; a pixel outside the row or outside
/// the buffer is left alone.
pub fn put_pixel(framebuffer: &mut [u8], width: usize, x: usize, y: usize, color: u32)
    requires
        x < width ==> (y * width + x) * 4 + 4 <= usize::MAX,
    ensures
        final(framebuffer)@ == put_pixel_spec(old(framebuffer)@, width as int, x as int, y as int, color),
{
    if x >= width {
        assert(framebuffer@ =~= put_pixel_spec(old(framebuffer)@, width as int, x as int, y as int, color));
        return;
    }
    let idx = (y * width + x) * 4;
    if idx + 4 <= framebuffer.len() {
        let b0 = (color & 0xff) as u8;
        let b1 = ((color >> 8) & 0xff) as u8;
        let b2 = ((color >> 16) & 0xff) as u8;
        let b3 = ((color >> 24) & 0xff) as u8;
        assert(b0 == color_byte(color, 0) && b1 == color_byte(color, 1) && b2 == color_byte(color, 2)
            && b3 == color_byte(color, 3)) by {
            assert(color & 0xff == color % 256) by (bit_vector);
            assert((color >> 8) & 0xff == (color / 256) % 256) by (bit_vector);
            assert((color >> 16) & 0xff == (color / 65536) % 256) by (bit_vector);
            assert((color >> 24) & 0xff == (color / 16777216) % 256) by (bit_vector);
        }
        framebuffer[idx] = b0;
        framebuffer[idx + 1] = b1;
        framebuffer[idx + 2] = b2;
        framebuffer[idx + 3] = b3;
        let ghost p = y * width + x;
        assert forall|i: int| 0 <= i < framebuffer@.len() implies #[trigger] framebuffer@[i]
            == put_pixel_spec(old(framebuffer)@, width as int, x as int, y as int, color)[i] by {
            if p * 4 <= i < p * 4 + 4 {
                assert(i / 4 == p);
                assert(i % 4 == i - p * 4);
            } else {
                assert(i / 4 != p);
            }
        }
        assert(framebuffer@ =~= put_pixel_spec(old(framebuffer)@, width as int, x as int, y as int, color));
    } else {
        assert forall|i: int| 0 <= i < framebuffer@.len() implies !(i / 4 == y * width + x
            && #[trigger] pixel_in_buffer(framebuffer@.len() as int, i / 4)) by {}
        assert(framebuffer@ =~= put_pixel_spec(old(framebuffer)@, width as int, x as int, y as int, color));
    }
}

proof fn lemma_fill_step(
    fb: Seq<u8>,
    base: Seq<u8>,
    width: int,
    x: int,
    yy: int,
    xx: int,
    color: u32,
)
    requires
        width > 0,
        0 <= x <= xx,
        0 <= yy,
        fb == fill_rect_spec(base, width, x, yy, xx - x, 1, color),
    ensures
        put_pixel_spec(fb, width, xx, yy, color) == fill_rect_spec(base, width, x, yy, xx + 1 - x, 1, color),
{
    let lhs = put_pixel_spec(fb, width, xx, yy, color);
    let rhs = fill_rect_spec(base, width, x, yy, xx + 1 - x, 1, color);
    assert forall|i: int| 0 <= i < lhs.len() implies #[trigger] lhs[i] == rhs[i] by {
        let p = i / 4;
        lemma_pixel_split(width, p);
        if xx < width {
            lemma_pixel_coords(width, xx, yy);
        }
    }
    assert(lhs =~= rhs);
}

proof fn lemma_fill_rows(base: Seq<u8>, width: int, x: int, y: int, w: int, yy: int, color: u32)
    requires
        y <= yy,
    ensures
        fill_rect_spec(fill_rect_spec(base, width, x, y, w, yy - y, color), width, x, yy, w, 1, color)
            == fill_rect_spec(base, width, x, y, w, yy + 1 - y, color),
{
    let lhs = fill_rect_spec(fill_rect_spec(base, width, x, y, w, yy - y, color), width, x, yy, w, 1, color);
    let rhs = fill_rect_spec(base, width, x, y, w, yy + 1 - y, color);
    assert(lhs =~= rhs);
}

/// Fills the rectangle with corner `(x, y)` and size `w` by `h` with `color`,
/// pixel by pixel; pixels outside the row or the buffer are skipped.
pub fn fill_rect(
    framebuffer: &mut [u8],
    width: usize,
    x: usize,
    y: usize,
    w: usize,
    h: usize,
    color: u32,
)
    requires
        fill_rect_fits(width as int, x as int, y as int, w as int, h as int),
    ensures
        final(framebuffer)@ == fill_rect_spec(
            old(framebuffer)@,
            width as int,
            x as int,
            y as int,
            w as int,
            h as int,
            color,
        ),
{
    let ghost base = framebuffer@;
    let mut yy = y;
    while yy < y + h
        invariant
            y <= yy <= y + h,
            fill_rect_fits(width as int, x as int, y as int, w as int, h as int),
            width > 0 ==> framebuffer@ == fill_rect_spec(base, width as int, x as int, y as int, w as int, (yy - y) as int, color),
            width == 0 ==> framebuffer@ == base,
        decreases y + h - yy,
    {
        let ghost row_base = framebuffer@;
        proof {
            if width > 0 {
                assert(fill_rect_spec(row_base, width as int, x as int, yy as int, 0, 1, color) =~= row_base);
            }
        }
        let mut xx = x;
        while xx < x + w
            invariant
                y <= yy < y + h,
                x <= xx <= x + w,
                fill_rect_fits(width as int, x as int, y as int, w as int, h as int),
                width > 0 ==> framebuffer@ == fill_rect_spec(row_base, width as int, x as int, yy as int, (xx - x) as int, 1, color),
                width == 0 ==> framebuffer@ == row_base,
            decreases x + w - xx,
        {
            proof {
                if xx < width {
                    let m: int = if x + w < width { (x + w) as int } else { width as int };
                    assert(xx + 1 <= m);
                    assert(yy * width <= (y + h - 1) * width) by (nonlinear_arith)
                        requires yy <= y + h - 1, width >= 0;
                }
            }
            let ghost before = framebuffer@;
            put_pixel(framebuffer, width, xx, yy, color);
            proof {
                if width > 0 {
                    lemma_fill_step(before, row_base, width as int, x as int, yy as int, xx as int, color);
                } else {
                    assert(framebuffer@ =~= before);
                }
            }
            xx += 1;
        }
        proof {
            if width > 0 {
                lemma_fill_rows(base, width as int, x as int, y as int, w as int, yy as int, color);
            }
        }
        yy += 1;
    }
    proof {
        if width == 0 {
            assert(fill_rect_spec(base, 0, x as int, y as int, w as int, h as int, color) =~= base);
        }
    }
}

/// Fills the rectangles one after the other.
pub fn paint(framebuffer: &mut [u8], width: usize, rects: &Vec<Rect>)
    requires
        rects_fit(width as int, rects@),
    ensures
        final(framebuffer)@ == paint_spec(old(framebuffer)@, width as int, rects@),
{
    let mut k: usize = 0;
    while k < rects.len()
        invariant
            k <= rects@.len(),
            rects_fit(width as int, rects@),
            framebuffer@ == paint_spec(old(framebuffer)@, width as int, rects@.take(k as int)),
        decreases rects@.len() - k,
    {
        let r = rects[k];
        assert(fill_rect_fits(width as int, rects@[k as int].x as int, rects@[k as int].y as int,
            rects@[k as int].w as int, rects@[k as int].h as int));
        fill_rect(framebuffer, width, r.x, r.y, r.w, r.h, r.color);
        assert(rects@.take(k + 1).drop_last() =~= rects@.take(k as int));
        k += 1;
    }
    assert(rects@.take(rects@.len() as int) =~= rects@);
}

#[verifier::opaque]
pub open spec fn sat_mul_spec(a: usize, b: usize) -> usize {
    if a * b > usize::MAX {
        usize::MAX
    } else {
        (a * b) as usize
    }
}

pub open spec fn sat_sub_spec(a: usize, b: usize) -> usize {
    if a < b {
        0
    } else {
        (a - b) as usize
    }
}

/// `a * b`, or `usize::MAX` when the product does not fit.
pub fn saturating_mul(a: usize, b: usize) -> (r: usize)
    ensures
        r == sat_mul_spec(a, b),
{
    proof { reveal(sat_mul_spec); }
    match a.checked_mul(b) {
        Some(v) => v,
        None => usize::MAX,
    }
}

/// The number of bytes of a `width` by `height` framebuffer of 32-bit pixels
/// that may be drawn in, when that many bytes exist: `None` when the size
/// overflows, is zero, or is larger than the `fb_len` bytes there are.
pub fn used_len(width: usize, height: usize, fb_len: usize) -> (r: Option<usize>)
    ensures
        r == if width * height * 4 == 0 || width * height * 4 > fb_len {
            None::<usize>
        } else {
            Some((width * height * 4) as usize)
        },
{
    let used = match width.checked_mul(height) {
        Some(pixels) => match pixels.checked_mul(4) {
            Some(bytes) => bytes,
            None => 0,
        },
        None => 0,
    };
    proof {
        if width * height > usize::MAX {
            assert(width * height * 4 > usize::MAX);
        }
    }
    if used == 0 || used > fb_len {
        None
    } else {
        Some(used)
    }
}

} // verus!
