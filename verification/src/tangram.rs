//! A tangram picture of the letters "OS", drawn one piece at a time: each
//! piece is one or two triangles, flipped, turned by multiples of 45
//! degrees, moved into place, and scaled to the screen.
use vstd::prelude::*;
use crate::framebuffer::{color_byte, pixel_in_buffer};

verus! {

/// The size of the picture before it is scaled to the screen.
pub const DESIGN_WIDTH: i32 = 1280;
pub const DESIGN_HEIGHT: i32 = 800;

pub const SMALL_HALF_LEG: i32 = 32;
pub const MEDIUM_HALF_LEG: i32 = 45;
pub const LARGE_HALF_LEG: i32 = 64;
pub const SQUARE_HALF_DIAG: i32 = 64;

/// The triangles of each kind of piece, as corners around its centre.
pub const TRI_LARGE: [[[i32; 2]; 3]; 1] = [
    [[-LARGE_HALF_LEG, -LARGE_HALF_LEG], [LARGE_HALF_LEG, -LARGE_HALF_LEG], [-LARGE_HALF_LEG, LARGE_HALF_LEG]],
];

pub const TRI_MEDIUM: [[[i32; 2]; 3]; 1] = [
    [[-MEDIUM_HALF_LEG, -MEDIUM_HALF_LEG], [MEDIUM_HALF_LEG, -MEDIUM_HALF_LEG], [-MEDIUM_HALF_LEG, MEDIUM_HALF_LEG]],
];

pub const TRI_SMALL: [[[i32; 2]; 3]; 1] = [
    [[-SMALL_HALF_LEG, -SMALL_HALF_LEG], [SMALL_HALF_LEG, -SMALL_HALF_LEG], [-SMALL_HALF_LEG, SMALL_HALF_LEG]],
];

pub const SQUARE: [[[i32; 2]; 3]; 2] = [
    [[-SQUARE_HALF_DIAG, 0], [0, -SQUARE_HALF_DIAG], [SQUARE_HALF_DIAG, 0]],
    [[-SQUARE_HALF_DIAG, 0], [SQUARE_HALF_DIAG, 0], [0, SQUARE_HALF_DIAG]],
];

pub const PARALLELOGRAM: [[[i32; 2]; 3]; 2] = [
    [[-96, -32], [32, -32], [96, 32]],
    [[-96, -32], [96, 32], [-32, 32]],
];

/// The number of pieces of the picture.
pub const BLOCK_COUNT: usize = 14;

/// The centre of each piece in the picture.
pub const BLOCK_POS: [[i32; 2]; 14] = [
    [210, 210], [354, 270], [350, 400], [300, 430], [210, 274], [280, 180], [230, 410],
    [930, 330], [900, 150], [790, 230], [870, 300], [940, 120], [850, 460], [900, 465],
];

/// The red, green and blue of each piece.
pub const BLOCK_RGB: [[u8; 3]; 14] = [
    [255, 84, 84], [255, 170, 60], [255, 236, 96], [130, 220, 92], [76, 201, 240], [114, 137, 218],
    [196, 110, 245], [255, 99, 132], [255, 159, 64], [255, 205, 86], [75, 192, 192], [54, 162, 235],
    [153, 102, 255], [201, 203, 207],
];

/// How many eighths of a turn each piece is turned.
pub const BLOCK_ROT: [u8; 14] = [0, 2, 4, 6, 2, 2, 2, 3, 1, 6, 1, 2, 5, 4];

/// Whether each piece is mirrored left to right.
pub const BLOCK_FLIP: [bool; 14] = [
    false, false, false, false, false, false, true, false, false, false, false, false, false, false,
];

/// The shape of each piece: 0 large, 1 medium, 2 small triangle, 3 square,
/// 4 parallelogram.
pub const BLOCK_MESH: [u8; 14] = [2, 0, 1, 1, 4, 2, 4, 0, 1, 4, 3, 2, 1, 2];

#[derive(Clone, Copy, Debug, PartialEq, Eq, Structural)]
pub struct Point {
    pub x: i32,
    pub y: i32,
}

/// A piece of the picture.
#[derive(Clone, Copy, Debug, PartialEq, Eq, Structural)]
pub struct Block {
    pub pos: Point,
    pub color: u32,
    pub rot45: u8,
    pub flip_x: bool,
    pub mesh: u8,
}

/// An opaque colour from red, green and blue, stored as `0xAARRGGBB`.
pub open spec fn bgra_spec(r: u8, g: u8, b: u8) -> u32 {
    (0xff00_0000 + r * 0x1_0000 + g * 0x100 + b) as u32
}

pub fn bgra(r: u8, g: u8, b: u8) -> (c: u32)
    ensures
        c == bgra_spec(r, g, b),
{
    let c = ((0xff_u32) << 24) | ((r as u32) << 16) | ((g as u32) << 8) | (b as u32);
    assert(c == bgra_spec(r, g, b)) by (bit_vector)
        requires
            c == ((0xff_u32) << 24u32) | ((r as u32) << 16u32) | ((g as u32) << 8u32) | (b as u32),
    ;
    c
}

/// The number of triangles of a shape.
pub open spec fn mesh_len(mesh: u8) -> int {
    if mesh == 3 || mesh == 4 {
        2
    } else {
        1
    }
}

/// Corner `k` of triangle `t` of a shape.
pub open spec fn mesh_corner(mesh: u8, t: int, k: int) -> Point {
    let c = if mesh == 0 {
        TRI_LARGE[t][k]
    } else if mesh == 1 {
        TRI_MEDIUM[t][k]
    } else if mesh == 2 {
        TRI_SMALL[t][k]
    } else if mesh == 3 {
        SQUARE[t][k]
    } else {
        PARALLELOGRAM[t][k]
    };
    Point { x: c[0], y: c[1] }
}

pub fn mesh_point(mesh: u8, t: usize, k: usize) -> (p: Point)
    requires
        mesh < 5,
        t < mesh_len(mesh),
        k < 3,
    ensures
        p == mesh_corner(mesh, t as int, k as int),
        -96 <= p.x <= 96,
        -96 <= p.y <= 96,
{
    let c = if mesh == 0 {
        TRI_LARGE[t][k]
    } else if mesh == 1 {
        TRI_MEDIUM[t][k]
    } else if mesh == 2 {
        TRI_SMALL[t][k]
    } else if mesh == 3 {
        SQUARE[t][k]
    } else {
        PARALLELOGRAM[t][k]
    };
    Point { x: c[0], y: c[1] }
}

/// Piece `i` of the picture.
pub open spec fn block_of(i: int) -> Block {
    Block {
        pos: Point { x: BLOCK_POS[i][0], y: BLOCK_POS[i][1] },
        color: bgra_spec(BLOCK_RGB[i][0], BLOCK_RGB[i][1], BLOCK_RGB[i][2]),
        rot45: BLOCK_ROT[i],
        flip_x: BLOCK_FLIP[i],
        mesh: BLOCK_MESH[i],
    }
}

pub fn os_tangram_block(i: usize) -> (b: Block)
    requires
        i < BLOCK_COUNT,
    ensures
        b == block_of(i as int),
        b.mesh < 5,
        b.rot45 < 8,
        100 <= b.pos.x <= 1000,
        100 <= b.pos.y <= 1000,
{
    Block {
        pos: Point { x: BLOCK_POS[i][0], y: BLOCK_POS[i][1] },
        color: bgra(BLOCK_RGB[i][0], BLOCK_RGB[i][1], BLOCK_RGB[i][2]),
        rot45: BLOCK_ROT[i],
        flip_x: BLOCK_FLIP[i],
        mesh: BLOCK_MESH[i],
    }
}

/// The point mirrored left to right when `flip_x`.
pub open spec fn flip_spec(p: Point, flip_x: bool) -> Point {
    if flip_x {
        Point { x: -p.x as i32, y: p.y }
    } else {
        p
    }
}

pub fn maybe_flip_x(p: Point, flip_x: bool) -> (q: Point)
    requires
        p.x > i32::MIN,
    ensures
        q == flip_spec(p, flip_x),
{
    if flip_x {
        Point { x: -p.x, y: p.y }
    } else {
        p
    }
}

pub open spec fn translate_spec(p: Point, offset: Point) -> Point {
    Point { x: (p.x + offset.x) as i32, y: (p.y + offset.y) as i32 }
}

pub fn translate(p: Point, offset: Point) -> (q: Point)
    requires
        i32::MIN <= p.x + offset.x <= i32::MAX,
        i32::MIN <= p.y + offset.y <= i32::MAX,
    ensures
        q == translate_spec(p, offset),
{
    Point { x: p.x + offset.x, y: p.y + offset.y }
}

/// `724 / 1024`, close to the cosine of 45 degrees.
pub const K: i32 = 724;

/// The point turned by `rot45` eighths of a turn around the origin; the
/// diagonal turns scale by `724 / 1024` and round down.
pub open spec fn rotate_spec(p: Point, rot45: u8) -> Point {
    let r = rot45 % 8;
    let x = p.x as int;
    let y = p.y as int;
    if r == 0 {
        p
    } else if r == 1 {
        Point { x: (((x - y) * 724) / 1024) as i32, y: (((x + y) * 724) / 1024) as i32 }
    } else if r == 2 {
        Point { x: -y as i32, y: x as i32 }
    } else if r == 3 {
        Point { x: (((-x - y) * 724) / 1024) as i32, y: (((x - y) * 724) / 1024) as i32 }
    } else if r == 4 {
        Point { x: -x as i32, y: -y as i32 }
    } else if r == 5 {
        Point { x: (((y - x) * 724) / 1024) as i32, y: (((-x - y) * 724) / 1024) as i32 }
    } else if r == 6 {
        Point { x: y as i32, y: -x as i32 }
    } else {
        Point { x: (((x + y) * 724) / 1024) as i32, y: (((y - x) * 724) / 1024) as i32 }
    }
}

/// Quarter turns compose exactly: two quarter turns make a half turn, and
/// a quarter turn followed by three more, or two half turns, give the point
/// back (for coordinates whose negation fits in an `i32`).
pub proof fn lemma_quarter_turns(p: Point)
    requires
        p.x > i32::MIN,
        p.y > i32::MIN,
    ensures
        rotate_spec(rotate_spec(p, 2), 2) == rotate_spec(p, 4),
        rotate_spec(rotate_spec(p, 2), 6) == p,
        rotate_spec(rotate_spec(p, 4), 4) == p,
{
}

proof fn lemma_shr10(v: i32)
    ensures
        v >> 10i32 == v / 1024,
{
    assert(v >> 10i32 == v / 1024) by (bit_vector);
}

/// Whether `v` fits in an `i32`.
pub open spec fn fits_i32(v: int) -> bool {
    i32::MIN <= v <= i32::MAX
}

/// Whether turning `p` by `rot45` eighths stays within `i32`: every sum,
/// difference, negation and product by 724 that the turn computes fits.
pub open spec fn rotate_fits(p: Point, rot45: u8) -> bool {
    let r = rot45 % 8;
    let x = p.x as int;
    let y = p.y as int;
    if r == 1 {
        fits_i32((x - y) * 724) && fits_i32((x + y) * 724)
    } else if r == 2 {
        fits_i32(-y)
    } else if r == 3 {
        fits_i32(-x) && fits_i32((-x - y) * 724) && fits_i32((x - y) * 724)
    } else if r == 4 {
        fits_i32(-x) && fits_i32(-y)
    } else if r == 5 {
        fits_i32(-x) && fits_i32((y - x) * 724) && fits_i32((-x - y) * 724)
    } else if r == 6 {
        fits_i32(-x)
    } else if r == 7 {
        fits_i32((x + y) * 724) && fits_i32((y - x) * 724)
    } else {
        true
    }
}

pub fn rotate_45(p: Point, rot45: u8) -> (q: Point)
    requires
        rotate_fits(p, rot45),
    ensures
        q == rotate_spec(p, rot45),
{
    let r = rot45 & 0x7;
    assert(r == rot45 % 8) by (bit_vector)
        requires
            r == rot45 & 7u8,
    ;
    let x = p.x;
    let y = p.y;
    if r == 0 {
        p
    } else if r == 1 {
        let a = (x - y) * K;
        let b = (x + y) * K;
        proof { lemma_shr10(a); lemma_shr10(b); }
        Point { x: a >> 10, y: b >> 10 }
    } else if r == 2 {
        Point { x: -y, y: x }
    } else if r == 3 {
        let a = (-x - y) * K;
        let b = (x - y) * K;
        proof { lemma_shr10(a); lemma_shr10(b); }
        Point { x: a >> 10, y: b >> 10 }
    } else if r == 4 {
        Point { x: -x, y: -y }
    } else if r == 5 {
        let a = (y - x) * K;
        let b = (-x - y) * K;
        proof { lemma_shr10(a); lemma_shr10(b); }
        Point { x: a >> 10, y: b >> 10 }
    } else if r == 6 {
        Point { x: y, y: -x }
    } else {
        let a = (x + y) * K;
        let b = (y - x) * K;
        proof { lemma_shr10(a); lemma_shr10(b); }
        Point { x: a >> 10, y: b >> 10 }
    }
}

/// The point scaled by `scale / 1024` (rounding down, then cut to 32 bits
/// as Rust's `as` does) and moved by `offset`.
pub open spec fn scale_offset_spec(p: Point, scale: int, offset: Point) -> Point {
    Point {
        x: (((p.x * scale) / 1024) as i32 + offset.x) as i32,
        y: (((p.y * scale) / 1024) as i32 + offset.y) as i32,
    }
}

/// Whether scaling `p` and moving it by `offset` stays within machine
/// integers: the products fit in an `i64` and the sums in an `i32`.
pub open spec fn scale_offset_fits(p: Point, scale: int, offset: Point) -> bool {
    &&& i64::MIN <= p.x * scale <= i64::MAX
    &&& i64::MIN <= p.y * scale <= i64::MAX
    &&& fits_i32(((p.x * scale) / 1024) as i32 + offset.x)
    &&& fits_i32(((p.y * scale) / 1024) as i32 + offset.y)
}

proof fn lemma_shr10_64(v: i64)
    ensures
        v >> 10i64 == v / 1024,
{
    assert(v >> 10i64 == v / 1024) by (bit_vector);
}

pub fn scale_and_offset(p: Point, scale: i64, offset: Point) -> (q: Point)
    requires
        scale_offset_fits(p, scale as int, offset),
    ensures
        q == scale_offset_spec(p, scale as int, offset),
{
    let a = p.x as i64 * scale;
    let b = p.y as i64 * scale;
    proof { lemma_shr10_64(a); lemma_shr10_64(b); }
    Point { x: (a >> 10) as i32 + offset.x, y: (b >> 10) as i32 + offset.y }
}

/// Twice the signed area of the triangle `a`, `b`, `p`: positive on one
/// side of the line from `a` to `b`, negative on the other, zero on it.
pub open spec fn edge_spec(a: Point, b: Point, p: Point) -> int {
    (b.x - a.x) * (p.y - a.y) - (b.y - a.y) * (p.x - a.x)
}

/// Whether the edge test of `a`, `b`, `p` stays within machine integers:
/// the four differences fit in an `i32` and the result in an `i64` (each
/// product of two such differences always does).
pub open spec fn edge_fits(a: Point, b: Point, p: Point) -> bool {
    &&& fits_i32(b.x - a.x)
    &&& fits_i32(p.y - a.y)
    &&& fits_i32(b.y - a.y)
    &&& fits_i32(p.x - a.x)
    &&& i64::MIN <= edge_spec(a, b, p) <= i64::MAX
}

pub fn edge(a: Point, b: Point, p: Point) -> (e: i64)
    requires
        edge_fits(a, b, p),
    ensures
        e == edge_spec(a, b, p),
{
    let dx1 = (b.x - a.x) as i64;
    let dy1 = (p.y - a.y) as i64;
    let dy2 = (b.y - a.y) as i64;
    let dx2 = (p.x - a.x) as i64;
    assert(-0x4000_0000_0000_0000 <= dx1 * dy1 <= 0x4000_0000_0000_0000) by (nonlinear_arith)
        requires -0x8000_0000 <= dx1 <= 0x8000_0000, -0x8000_0000 <= dy1 <= 0x8000_0000;
    assert(-0x4000_0000_0000_0000 <= dy2 * dx2 <= 0x4000_0000_0000_0000) by (nonlinear_arith)
        requires -0x8000_0000 <= dx2 <= 0x8000_0000, -0x8000_0000 <= dy2 <= 0x8000_0000;
    dx1 * dy1 - dy2 * dx2
}

/// Coordinates within 2^29: the edge test of any three such points fits.
pub open spec fn point_in_range(p: Point) -> bool {
    -0x2000_0000 <= p.x <= 0x2000_0000 && -0x2000_0000 <= p.y <= 0x2000_0000
}

proof fn lemma_edge_in_range(a: Point, b: Point, p: Point)
    requires
        point_in_range(a),
        point_in_range(b),
        point_in_range(p),
    ensures
        edge_fits(a, b, p),
{
    let dx1 = b.x - a.x;
    let dy1 = p.y - a.y;
    let dy2 = b.y - a.y;
    let dx2 = p.x - a.x;
    assert(-0x1000_0000_0000_0000 <= dx1 * dy1 <= 0x1000_0000_0000_0000) by (nonlinear_arith)
        requires -0x4000_0000 <= dx1 <= 0x4000_0000, -0x4000_0000 <= dy1 <= 0x4000_0000;
    assert(-0x1000_0000_0000_0000 <= dy2 * dx2 <= 0x1000_0000_0000_0000) by (nonlinear_arith)
        requires -0x4000_0000 <= dx2 <= 0x4000_0000, -0x4000_0000 <= dy2 <= 0x4000_0000;
}

pub open spec fn same_sign_spec(a: int, b: int) -> bool {
    (a >= 0 && b >= 0) || (a <= 0 && b <= 0)
}

/// Whether `a` and `b` are both at least zero or both at most zero.
pub fn same_sign(a: i64, b: i64) -> (r: bool)
    ensures
        r == same_sign_spec(a as int, b as int),
{
    (a >= 0 && b >= 0) || (a <= 0 && b <= 0)
}

/// Whether `p` lies in the triangle or on its edges.
pub open spec fn inside(tri: [Point; 3], p: Point) -> bool {
    let area = edge_spec(tri[0], tri[1], tri[2]);
    &&& same_sign_spec(area, edge_spec(tri[1], tri[2], p))
    &&& same_sign_spec(area, edge_spec(tri[2], tri[0], p))
    &&& same_sign_spec(area, edge_spec(tri[0], tri[1], p))
}

pub open spec fn min3(a: int, b: int, c: int) -> int {
    if a <= b && a <= c {
        a
    } else if b <= c {
        b
    } else {
        c
    }
}

pub open spec fn max3(a: int, b: int, c: int) -> int {
    if a >= b && a >= c {
        a
    } else if b >= c {
        b
    } else {
        c
    }
}

/// The box of pixels that the triangle may cover, clipped to the screen:
/// `(min_x, max_x, min_y, max_y)`.
pub open spec fn clip_box(tri: [Point; 3], width: int, height: int) -> (int, int, int, int) {
    let lx = min3(tri[0].x as int, tri[1].x as int, tri[2].x as int);
    let hx = max3(tri[0].x as int, tri[1].x as int, tri[2].x as int);
    let ly = min3(tri[0].y as int, tri[1].y as int, tri[2].y as int);
    let hy = max3(tri[0].y as int, tri[1].y as int, tri[2].y as int);
    let wl = if width > 0 { width - 1 } else { 0 };
    let hl = if height > 0 { height - 1 } else { 0 };
    (
        if lx > 0 { lx } else { 0 },
        if hx < wl { hx } else { wl },
        if ly > 0 { ly } else { 0 },
        if hy < hl { hy } else { hl },
    )
}

/// Whether pixel `(x, y)` of the clipped box is painted: it is inside the
/// triangle, which has a non-zero area.
pub open spec fn painted(tri: [Point; 3], width: int, height: int, x: int, y: int) -> bool {
    let b = clip_box(tri, width, height);
    &&& b.0 <= x <= b.1
    &&& b.2 <= y <= b.3
    &&& edge_spec(tri[0], tri[1], tri[2]) != 0
    &&& inside(tri, Point { x: x as i32, y: y as i32 })
}

/// The framebuffer after every painted pixel of the triangle that lies in
/// the buffer gets `color`.
pub open spec fn draw_triangle_spec(fb: Seq<u8>, width: int, height: int, tri: [Point; 3], color: u32) -> Seq<u8> {
    Seq::new(
        fb.len(),
        |i: int|
            if (exists|x: int, y: int|
                #[trigger] painted(tri, width, height, x, y) && i / 4 == y * width + x)
                && pixel_in_buffer(fb.len() as int, i / 4) {
                color_byte(color, i % 4)
            } else {
                fb[i]
            },
    )
}

/// Sizes for which the pixel arithmetic fits: the last column and row fit
/// in an `i32`, and the bytes of the screen in a `usize`.
pub open spec fn screen_fits(width: int, height: int) -> bool {
    &&& width <= 0x8000_0000
    &&& height <= 0x8000_0000
    &&& (if height > 0 { height } else { 1 }) * width * 4 <= usize::MAX
}

/// Whether the three edge tests at pixel `(x, y)` fit in machine integers.
pub open spec fn pixel_tests_fit(tri: [Point; 3], x: int, y: int) -> bool {
    let p = Point { x: x as i32, y: y as i32 };
    &&& edge_fits(tri[1], tri[2], p)
    &&& edge_fits(tri[2], tri[0], p)
    &&& edge_fits(tri[0], tri[1], p)
}

/// Whether every edge test made in drawing the triangle on a `width` by
/// `height` screen fits in machine integers: the area, when the clipped box
/// is not empty, and the three tests at each pixel of the box, when the area
/// is not zero.
pub open spec fn tri_fits(tri: [Point; 3], width: int, height: int) -> bool {
    let b = clip_box(tri, width, height);
    (b.0 <= b.1 && b.2 <= b.3) ==> {
        &&& edge_fits(tri[0], tri[1], tri[2])
        &&& edge_spec(tri[0], tri[1], tri[2]) != 0 ==> forall|x: int, y: int|
            b.0 <= x <= b.1 && b.2 <= y <= b.3 ==> #[trigger] pixel_tests_fit(tri, x, y)
    }
}

/// With every corner within 2^29 of the origin, every edge test fits.
proof fn lemma_tri_in_range(tri: [Point; 3], width: int, height: int)
    requires
        point_in_range(tri[0]),
        point_in_range(tri[1]),
        point_in_range(tri[2]),
    ensures
        tri_fits(tri, width, height),
{
    lemma_edge_in_range(tri[0], tri[1], tri[2]);
    let b = clip_box(tri, width, height);
    assert forall|x: int, y: int| b.0 <= x <= b.1 && b.2 <= y <= b.3 implies #[trigger] pixel_tests_fit(tri, x, y) by {
        let p = Point { x: x as i32, y: y as i32 };
        assert(point_in_range(p));
        lemma_edge_in_range(tri[1], tri[2], p);
        lemma_edge_in_range(tri[2], tri[0], p);
        lemma_edge_in_range(tri[0], tri[1], p);
    }
}

/// A screen side up to which the whole picture can be drawn (see
/// `lemma_picture_fits`).
pub const PICTURE_MAX_SIDE: usize = 0x1000_0000;

/// Sizes on which the picture is laid out: the screen's bytes can be
/// counted and both sides are `i32` values.
pub open spec fn picture_sides_fit(width: int, height: int) -> bool {
    &&& screen_fits(width, height)
    &&& width <= i32::MAX
    &&& height <= i32::MAX
}

/// Whether scaling corner `p` of piece `b` onto a `width` by `height`
/// screen stays within machine integers.
pub open spec fn corner_fits(b: Block, p: Point, width: int, height: int) -> bool {
    scale_offset_fits(
        translate_spec(rotate_spec(flip_spec(p, b.flip_x), b.rot45), b.pos),
        scale_of(width, height),
        offset_of(width, height),
    )
}

/// Whether placing every corner of piece `b` on a `width` by `height`
/// screen, and drawing each of its triangles there, stays within machine
/// integers.
pub open spec fn block_fits(b: Block, width: int, height: int) -> bool {
    &&& forall|t: int, k: int|
        0 <= t < mesh_len(b.mesh) && 0 <= k < 3 ==> #[trigger] corner_fits(b, mesh_corner(b.mesh, t, k), width, height)
    &&& forall|t: int|
        0 <= t < mesh_len(b.mesh) ==> #[trigger] tri_fits(block_triangle(b, t, width, height), width, height)
}

/// Sizes on which the first `n` pieces of the picture can be drawn.
pub open spec fn picture_fits(width: int, height: int, n: int) -> bool {
    &&& picture_sides_fit(width, height)
    &&& forall|i: int| 0 <= i < n && i < BLOCK_COUNT ==> #[trigger] block_fits(block_of(i), width, height)
}

/// Sets the four bytes of pixel `(x, y)` to `color` when they are in the buffer.
pub fn put_pixel(framebuffer: &mut [u8], width: usize, x: usize, y: usize, color: u32)
    requires
        (y * width + x) * 4 + 4 <= usize::MAX,
    ensures
        final(framebuffer)@ == Seq::new(
            old(framebuffer)@.len(),
            |i: int|
                if i / 4 == y * width + x && pixel_in_buffer(old(framebuffer)@.len() as int, i / 4) {
                    color_byte(color, i % 4)
                } else {
                    old(framebuffer)@[i]
                },
        ),
{
    let idx = (y * width + x) * 4;
    if idx + 4 <= framebuffer.len() {
        let b0 = (color & 0xff) as u8;
        let b1 = ((color >> 8) & 0xff) as u8;
        let b2 = ((color >> 16) & 0xff) as u8;
        let b3 = ((color >> 24) & 0xff) as u8;
        assert(b0 == color_byte(color, 0) && b1 == color_byte(color, 1) && b2 == color_byte(color, 2)
            && b3 == color_byte(color, 3)) by {
            assert(color & 0xff == color % 256) by (bit_vector);
            assert((color >> 8) & 0xff == (color / 256) % 256) by (bit_vector);
            assert((color >> 16) & 0xff == (color / 65536) % 256) by (bit_vector);
            assert((color >> 24) & 0xff == (color / 16777216) % 256) by (bit_vector);
        }
        framebuffer[idx] = b0;
        framebuffer[idx + 1] = b1;
        framebuffer[idx + 2] = b2;
        framebuffer[idx + 3] = b3;
    }
    assert(framebuffer@ =~= Seq::new(
        old(framebuffer)@.len(),
        |i: int|
            if i / 4 == y * width + x && pixel_in_buffer(old(framebuffer)@.len() as int, i / 4) {
                color_byte(color, i % 4)
            } else {
                old(framebuffer)@[i]
            },
    ));
}

/// Swapping the two ends of an edge turns the sign of its test over.
proof fn lemma_edge_swap(a: Point, b: Point, p: Point)
    ensures
        edge_spec(b, a, p) == -edge_spec(a, b, p),
{
    let (ax, ay, bx, by, px, py) = (a.x as int, a.y as int, b.x as int, b.y as int, p.x as int, p.y as int);
    assert((ax - bx) * (py - by) - (ay - by) * (px - bx) == -((bx - ax) * (py - ay) - (by - ay) * (px - ax)))
        by (nonlinear_arith);
}

/// Twice the signed area of a triangle is the same from each corner.
proof fn lemma_edge_cycle(a: Point, b: Point, c: Point)
    ensures
        edge_spec(b, c, a) == edge_spec(a, b, c),
{
    let (ax, ay, bx, by, cx, cy) = (a.x as int, a.y as int, b.x as int, b.y as int, c.x as int, c.y as int);
    assert((cx - bx) * (ay - by) - (cy - by) * (ax - bx) == (bx - ax) * (cy - ay) - (by - ay) * (cx - ax))
        by (nonlinear_arith);
}

/// Which pixels a triangle paints does not depend on the order in which its
/// corners are listed: clockwise or counter-clockwise, from any corner.
pub proof fn lemma_painted_any_order(tri: [Point; 3], width: int, height: int, x: int, y: int)
    ensures
        painted([tri[0], tri[2], tri[1]], width, height, x, y) == painted(tri, width, height, x, y),
        painted([tri[1], tri[2], tri[0]], width, height, x, y) == painted(tri, width, height, x, y),
{
    let p = Point { x: x as i32, y: y as i32 };
    lemma_edge_swap(tri[1], tri[2], p);
    lemma_edge_swap(tri[0], tri[1], p);
    lemma_edge_swap(tri[2], tri[0], p);
    lemma_edge_swap(tri[1], tri[2], tri[0]);
    lemma_edge_cycle(tri[0], tri[1], tri[2]);
    lemma_edge_cycle(tri[0], tri[2], tri[1]);
}

/// Filling a triangle gives the same framebuffer whatever the order of its
/// corners: listed the other way round, or starting from another corner.
pub proof fn lemma_fill_any_order(fb: Seq<u8>, width: int, height: int, tri: [Point; 3], color: u32)
    ensures
        draw_triangle_spec(fb, width, height, [tri[0], tri[2], tri[1]], color)
            == draw_triangle_spec(fb, width, height, tri, color),
        draw_triangle_spec(fb, width, height, [tri[1], tri[2], tri[0]], color)
            == draw_triangle_spec(fb, width, height, tri, color),
{
    let s = [tri[0], tri[2], tri[1]];
    let r = [tri[1], tri[2], tri[0]];
    assert forall|x: int, y: int|
        #![trigger painted(s, width, height, x, y)]
        #![trigger painted(r, width, height, x, y)]
        #![trigger painted(tri, width, height, x, y)]
        painted(s, width, height, x, y) == painted(tri, width, height, x, y)
            && painted(r, width, height, x, y) == painted(tri, width, height, x, y) by {
        lemma_painted_any_order(tri, width, height, x, y);
    }
    assert(draw_triangle_spec(fb, width, height, s, color) =~= draw_triangle_spec(fb, width, height, tri, color));
    assert(draw_triangle_spec(fb, width, height, r, color) =~= draw_triangle_spec(fb, width, height, tri, color));
}

/// Whether painted pixel `(x, y)` comes before `(x0, y0)` in row order.
pub open spec fn painted_before(tri: [Point; 3], width: int, height: int, x0: int, y0: int, x: int, y: int) -> bool {
    painted(tri, width, height, x, y) && (y < y0 || (y == y0 && x < x0))
}

/// The framebuffer after the painted pixels before `(x0, y0)` are drawn.
pub open spec fn draw_partial(
    fb: Seq<u8>,
    width: int,
    height: int,
    tri: [Point; 3],
    color: u32,
    x0: int,
    y0: int,
) -> Seq<u8> {
    Seq::new(
        fb.len(),
        |i: int|
            if (exists|x: int, y: int|
                #[trigger] painted_before(tri, width, height, x0, y0, x, y) && i / 4 == y * width + x)
                && pixel_in_buffer(fb.len() as int, i / 4) {
                color_byte(color, i % 4)
            } else {
                fb[i]
            },
    )
}

proof fn lemma_partial_start(fb: Seq<u8>, width: int, height: int, tri: [Point; 3], color: u32, x0: int, y0: int)
    requires
        x0 == clip_box(tri, width, height).0,
        y0 == clip_box(tri, width, height).2,
    ensures
        draw_partial(fb, width, height, tri, color, x0, y0) == fb,
{
    assert forall|x: int, y: int| !#[trigger] painted_before(tri, width, height, x0, y0, x, y) by {}
    assert(draw_partial(fb, width, height, tri, color, x0, y0) =~= fb);
}

proof fn lemma_partial_end(fb: Seq<u8>, width: int, height: int, tri: [Point; 3], color: u32, x0: int, y0: int)
    requires
        y0 == clip_box(tri, width, height).3 + 1,
    ensures
        draw_partial(fb, width, height, tri, color, x0, y0) == draw_triangle_spec(fb, width, height, tri, color),
{
    let a = draw_partial(fb, width, height, tri, color, x0, y0);
    let b = draw_triangle_spec(fb, width, height, tri, color);
    assert forall|i: int| 0 <= i < a.len() implies a[i] == b[i] by {
        if exists|x: int, y: int| #[trigger] painted(tri, width, height, x, y) && i / 4 == y * width + x {
            let (x, y) = choose|x: int, y: int| #[trigger] painted(tri, width, height, x, y) && i / 4 == y * width + x;
            assert(painted_before(tri, width, height, x0, y0, x, y));
        }
        if exists|x: int, y: int| #[trigger] painted_before(tri, width, height, x0, y0, x, y) && i / 4 == y * width + x {
            let (x, y) = choose|x: int, y: int| #[trigger] painted_before(tri, width, height, x0, y0, x, y) && i / 4 == y * width + x;
            assert(painted(tri, width, height, x, y));
        }
    }
    assert(a =~= b);
}

proof fn lemma_partial_row(fb: Seq<u8>, width: int, height: int, tri: [Point; 3], color: u32, y: int)
    ensures
        draw_partial(fb, width, height, tri, color, clip_box(tri, width, height).1 + 1, y)
            == draw_partial(fb, width, height, tri, color, clip_box(tri, width, height).0, y + 1),
{
    let bx = clip_box(tri, width, height);
    let a = draw_partial(fb, width, height, tri, color, bx.1 + 1, y);
    let b = draw_partial(fb, width, height, tri, color, bx.0, y + 1);
    assert forall|i: int| 0 <= i < a.len() implies a[i] == b[i] by {
        if exists|x: int, yy: int| #[trigger] painted_before(tri, width, height, bx.1 + 1, y, x, yy) && i / 4 == yy * width + x {
            let (x, yy) = choose|x: int, yy: int| #[trigger] painted_before(tri, width, height, bx.1 + 1, y, x, yy) && i / 4 == yy * width + x;
            assert(painted_before(tri, width, height, bx.0, y + 1, x, yy));
        }
        if exists|x: int, yy: int| #[trigger] painted_before(tri, width, height, bx.0, y + 1, x, yy) && i / 4 == yy * width + x {
            let (x, yy) = choose|x: int, yy: int| #[trigger] painted_before(tri, width, height, bx.0, y + 1, x, yy) && i / 4 == yy * width + x;
            assert(painted_before(tri, width, height, bx.1 + 1, y, x, yy));
        }
    }
    assert(a =~= b);
}

proof fn lemma_partial_step(
    cur: Seq<u8>,
    fb: Seq<u8>,
    width: int,
    height: int,
    tri: [Point; 3],
    color: u32,
    x: int,
    y: int,
)
    requires
        cur == draw_partial(fb, width, height, tri, color, x, y),
    ensures
        painted(tri, width, height, x, y) ==> Seq::new(
            cur.len(),
            |i: int|
                if i / 4 == y * width + x && pixel_in_buffer(cur.len() as int, i / 4) {
                    color_byte(color, i % 4)
                } else {
                    cur[i]
                },
        ) == draw_partial(fb, width, height, tri, color, x + 1, y),
        !painted(tri, width, height, x, y) ==> cur == draw_partial(fb, width, height, tri, color, x + 1, y),
{
    let next = draw_partial(fb, width, height, tri, color, x + 1, y);
    let stepped = Seq::new(
        cur.len(),
        |i: int|
            if i / 4 == y * width + x && pixel_in_buffer(cur.len() as int, i / 4) {
                color_byte(color, i % 4)
            } else {
                cur[i]
            },
    );
    assert forall|i: int| 0 <= i < cur.len() implies (if painted(tri, width, height, x, y) { stepped[i] } else { cur[i] }) == next[i] by {
        if exists|xx: int, yy: int| #[trigger] painted_before(tri, width, height, x + 1, y, xx, yy) && i / 4 == yy * width + xx {
            let (xx, yy) = choose|xx: int, yy: int| #[trigger] painted_before(tri, width, height, x + 1, y, xx, yy) && i / 4 == yy * width + xx;
            if !(xx == x && yy == y) {
                assert(painted_before(tri, width, height, x, y, xx, yy));
            }
        }
        if exists|xx: int, yy: int| #[trigger] painted_before(tri, width, height, x, y, xx, yy) && i / 4 == yy * width + xx {
            let (xx, yy) = choose|xx: int, yy: int| #[trigger] painted_before(tri, width, height, x, y, xx, yy) && i / 4 == yy * width + xx;
            assert(painted_before(tri, width, height, x + 1, y, xx, yy));
        }
        if painted(tri, width, height, x, y) && i / 4 == y * width + x {
            assert(painted_before(tri, width, height, x + 1, y, x, y));
        }
    }
    if painted(tri, width, height, x, y) {
        assert(stepped =~= next);
    } else {
        assert(cur =~= next);
    }
}

/// Fills the triangle with `color`: every pixel of the screen that lies in
/// the triangle or on its edges, when the triangle has a non-zero area.
pub fn draw_triangle(framebuffer: &mut [u8], width: usize, height: usize, tri: [Point; 3], color: u32)
    requires
        screen_fits(width as int, height as int),
        tri_fits(tri, width as int, height as int),
    ensures
        final(framebuffer)@ == draw_triangle_spec(old(framebuffer)@, width as int, height as int, tri, color),
{
    let ghost base = framebuffer@;
    let ghost bx = clip_box(tri, width as int, height as int);
    let mut min_x = tri[0].x;
    let mut max_x = tri[0].x;
    let mut min_y = tri[0].y;
    let mut max_y = tri[0].y;
    let mut k: usize = 1;
    while k < 3
        invariant
            1 <= k <= 3,
            min_x as int == (if k == 1 { tri[0].x as int } else if k == 2 { if tri[0].x <= tri[1].x { tri[0].x as int } else { tri[1].x as int } } else { min3(tri[0].x as int, tri[1].x as int, tri[2].x as int) }),
            max_x as int == (if k == 1 { tri[0].x as int } else if k == 2 { if tri[0].x >= tri[1].x { tri[0].x as int } else { tri[1].x as int } } else { max3(tri[0].x as int, tri[1].x as int, tri[2].x as int) }),
            min_y as int == (if k == 1 { tri[0].y as int } else if k == 2 { if tri[0].y <= tri[1].y { tri[0].y as int } else { tri[1].y as int } } else { min3(tri[0].y as int, tri[1].y as int, tri[2].y as int) }),
            max_y as int == (if k == 1 { tri[0].y as int } else if k == 2 { if tri[0].y >= tri[1].y { tri[0].y as int } else { tri[1].y as int } } else { max3(tri[0].y as int, tri[1].y as int, tri[2].y as int) }),
        decreases 3 - k,
    {
        let p = tri[k];
        if p.x < min_x { min_x = p.x; }
        if p.x > max_x { max_x = p.x; }
        if p.y < min_y { min_y = p.y; }
        if p.y > max_y { max_y = p.y; }
        k += 1;
    }
    if min_x < 0 { min_x = 0; }
    if min_y < 0 { min_y = 0; }
    let wl = width.saturating_sub(1) as i32;
    let hl = height.saturating_sub(1) as i32;
    if max_x > wl { max_x = wl; }
    if max_y > hl { max_y = hl; }
    assert(min_x == bx.0 && max_x == bx.1 && min_y == bx.2 && max_y == bx.3);

    if min_x > max_x || min_y > max_y {
        assert forall|x: int, y: int| !#[trigger] painted(tri, width as int, height as int, x, y) by {}
        assert(framebuffer@ =~= draw_triangle_spec(base, width as int, height as int, tri, color));
        return;
    }

    let area = edge(tri[0], tri[1], tri[2]);
    if area == 0 {
        assert forall|x: int, y: int| !#[trigger] painted(tri, width as int, height as int, x, y) by {}
        assert(framebuffer@ =~= draw_triangle_spec(base, width as int, height as int, tri, color));
        return;
    }

    proof { lemma_partial_start(base, width as int, height as int, tri, color, min_x as int, min_y as int); }
    let min_x = min_x as i64;
    let max_x = max_x as i64;
    let min_y = min_y as i64;
    let max_y = max_y as i64;
    let mut y = min_y;
    while y <= max_y
        invariant
            bx == clip_box(tri, width as int, height as int),
            min_x == bx.0,
            max_x == bx.1,
            min_y == bx.2,
            max_y == bx.3,
            0 <= min_x <= max_x,
            0 <= min_y <= y <= max_y + 1,
            max_x <= (if width > 0 { width - 1 } else { 0 }),
            max_y <= (if height > 0 { height - 1 } else { 0 }),
            tri_fits(tri, width as int, height as int),
            screen_fits(width as int, height as int),
            area == edge_spec(tri[0], tri[1], tri[2]),
            area != 0,
            framebuffer@ == draw_partial(base, width as int, height as int, tri, color, min_x as int, y as int),
        decreases max_y + 1 - y,
    {
        let mut x = min_x;
        while x <= max_x
            invariant
                bx == clip_box(tri, width as int, height as int),
                min_x == bx.0,
                max_x == bx.1,
                min_y == bx.2,
                max_y == bx.3,
                0 <= min_x <= x <= max_x + 1,
                0 <= min_y <= y <= max_y,
                max_x <= (if width > 0 { width - 1 } else { 0 }),
                max_y <= (if height > 0 { height - 1 } else { 0 }),
                tri_fits(tri, width as int, height as int),
                screen_fits(width as int, height as int),
                area == edge_spec(tri[0], tri[1], tri[2]),
                area != 0,
                framebuffer@ == draw_partial(base, width as int, height as int, tri, color, x as int, y as int),
            decreases max_x + 1 - x,
        {
            let p = Point { x: x as i32, y: y as i32 };
            proof {
                assert(pixel_tests_fit(tri, x as int, y as int));
            }
            let w0 = edge(tri[1], tri[2], p);
            let w1 = edge(tri[2], tri[0], p);
            let w2 = edge(tri[0], tri[1], p);
            let ghost cur = framebuffer@;
            proof { lemma_partial_step(cur, base, width as int, height as int, tri, color, x as int, y as int); }
            if same_sign(area, w0) && same_sign(area, w1) && same_sign(area, w2) {
                proof {
                    let hh: int = if height > 0 { height as int } else { 1 };
                    if width > 0 {
                        assert((y as int) * width + (x as int) + 1 <= hh * width) by (nonlinear_arith)
                            requires
                                0 <= y <= hh - 1,
                                0 <= x <= width - 1;
                        assert(hh * width * 4 <= usize::MAX);
                        assert(((y as int) * width + (x as int)) * 4 + 4 <= hh * width * 4);
                    } else {
                        assert((y as int) * width == 0) by (nonlinear_arith)
                            requires width == 0;
                    }
                    assert(((y as usize) * width + (x as usize)) * 4 + 4 <= usize::MAX);
                }
                put_pixel(framebuffer, width, x as usize, y as usize, color);
            }
            x += 1;
        }
        proof { lemma_partial_row(base, width as int, height as int, tri, color, y as int); }
        y += 1;
    }
    proof { lemma_partial_end(base, width as int, height as int, tri, color, min_x as int, y as int); }
}

/// The scale of the picture on a `width` by `height` screen, in 1024ths:
/// the largest that fits both sides.
pub open spec fn scale_of(width: int, height: int) -> int {
    let sx = (width * 1024) / (DESIGN_WIDTH as int);
    let sy = (height * 1024) / (DESIGN_HEIGHT as int);
    if sx <= sy {
        sx
    } else {
        sy
    }
}

/// The offset that centres the scaled picture on the screen.
pub open spec fn offset_of(width: int, height: int) -> Point {
    let scale = scale_of(width, height);
    Point {
        x: ((width - (DESIGN_WIDTH * scale) / 1024) / 2) as i32,
        y: ((height - (DESIGN_HEIGHT * scale) / 1024) / 2) as i32,
    }
}

/// Where a corner of a piece lands on the screen: mirrored, turned, moved
/// to the piece's place, then scaled and centred.
pub open spec fn place(b: Block, p: Point, width: int, height: int) -> Point {
    scale_offset_spec(
        translate_spec(rotate_spec(flip_spec(p, b.flip_x), b.rot45), b.pos),
        scale_of(width, height),
        offset_of(width, height),
    )
}

/// Triangle `t` of the piece, placed on the screen.
pub open spec fn block_triangle(b: Block, t: int, width: int, height: int) -> [Point; 3] {
    [
        place(b, mesh_corner(b.mesh, t, 0), width, height),
        place(b, mesh_corner(b.mesh, t, 1), width, height),
        place(b, mesh_corner(b.mesh, t, 2), width, height),
    ]
}

/// The framebuffer after the first `t` triangles of the piece are drawn.
pub open spec fn render_triangles_spec(fb: Seq<u8>, width: int, height: int, b: Block, t: int) -> Seq<u8>
    decreases t,
{
    if t <= 0 {
        fb
    } else {
        draw_triangle_spec(
            render_triangles_spec(fb, width, height, b, t - 1),
            width,
            height,
            block_triangle(b, t - 1, width, height),
            b.color,
        )
    }
}

/// The framebuffer after the piece is drawn.
pub open spec fn render_block_spec(fb: Seq<u8>, width: int, height: int, b: Block) -> Seq<u8> {
    render_triangles_spec(fb, width, height, b, mesh_len(b.mesh))
}

/// A piece whose shape is known and which lies in the picture.
pub open spec fn block_wf(b: Block) -> bool {
    b.mesh < 5 && 100 <= b.pos.x <= 1000 && 100 <= b.pos.y <= 1000
}

proof fn lemma_rotate_bounds(p: Point, rot45: u8)
    requires
        -96 <= p.x <= 96,
        -96 <= p.y <= 96,
    ensures
        rotate_fits(p, rot45),
        -140 <= rotate_spec(p, rot45).x <= 140,
        -140 <= rotate_spec(p, rot45).y <= 140,
{
}

proof fn lemma_shl10_64(v: i64)
    requires
        0 <= v <= 0x7fff_ffff,
    ensures
        v << 10i64 == v * 1024,
{
    assert(v << 10i64 == v * 1024) by (bit_vector)
        requires
            0 <= v <= 0x7fff_ffff,
    ;
}

/// The scaled picture is no larger than the screen, so it is centred with
/// offsets between zero and half the screen.
proof fn lemma_scale_bounds(width: int, height: int)
    requires
        0 <= width <= i32::MAX,
        0 <= height <= i32::MAX,
    ensures
        0 <= scale_of(width, height),
        scale_of(width, height) * 1280 <= width * 1024,
        scale_of(width, height) * 800 <= height * 1024,
        0 <= (DESIGN_WIDTH * scale_of(width, height)) / 1024 <= width,
        0 <= (DESIGN_HEIGHT * scale_of(width, height)) / 1024 <= height,
        0 <= offset_of(width, height).x <= width / 2,
        0 <= offset_of(width, height).y <= height / 2,
{
    let sc = scale_of(width, height);
    let sx = (width * 1024) / 1280;
    let sy = (height * 1024) / 800;
    assert(sx * 1280 <= width * 1024);
    assert(sy * 800 <= height * 1024);
    assert(sc <= sx && sc <= sy);
    assert(sc * 1280 <= width * 1024) by (nonlinear_arith)
        requires sc <= sx, sx * 1280 <= width * 1024;
    assert(sc * 800 <= height * 1024) by (nonlinear_arith)
        requires sc <= sy, sy * 800 <= height * 1024;
    assert((1280 * sc) / 1024 <= width);
    assert((800 * sc) / 1024 <= height);
}

/// Where corner `k` of triangle `t` of the piece lands on the screen.
fn place_corner(block: &Block, t: usize, k: usize, scale: i64, offset: Point, width: usize, height: usize) -> (q: Point)
    requires
        block_wf(*block),
        t < mesh_len(block.mesh),
        k < 3,
        scale == scale_of(width as int, height as int),
        offset == offset_of(width as int, height as int),
        corner_fits(*block, mesh_corner(block.mesh, t as int, k as int), width as int, height as int),
    ensures
        q == place(*block, mesh_corner(block.mesh, t as int, k as int), width as int, height as int),
{
    let c = mesh_point(block.mesh, t, k);
    let f = maybe_flip_x(c, block.flip_x);
    proof { lemma_rotate_bounds(f, block.rot45); }
    let r = rotate_45(f, block.rot45);
    let m = translate(r, block.pos);
    scale_and_offset(m, scale, offset)
}

/// Draws one piece of the picture, scaled and centred on the screen.
pub fn render_one_block(framebuffer: &mut [u8], width: usize, height: usize, block: &Block)
    requires
        block_wf(*block),
        picture_sides_fit(width as int, height as int),
        block_fits(*block, width as int, height as int),
    ensures
        final(framebuffer)@ == render_block_spec(old(framebuffer)@, width as int, height as int, *block),
{
    let width_i32 = width as i32;
    let height_i32 = height as i32;
    proof {
        lemma_shl10_64(width_i32 as i64);
        lemma_shl10_64(height_i32 as i64);
        lemma_scale_bounds(width as int, height as int);
    }
    let scale_x = ((width_i32 as i64) << 10) / DESIGN_WIDTH as i64;
    let scale_y = ((height_i32 as i64) << 10) / DESIGN_HEIGHT as i64;
    let scale = if scale_x <= scale_y { scale_x } else { scale_y };
    assert(scale == scale_of(width as int, height as int));
    let scaled_w = DESIGN_WIDTH as i64 * scale;
    let scaled_h = DESIGN_HEIGHT as i64 * scale;
    proof {
        lemma_shr10_64(scaled_w);
        lemma_shr10_64(scaled_h);
    }
    let content_w = (scaled_w >> 10) as i32;
    let content_h = (scaled_h >> 10) as i32;
    let offset = Point { x: (width_i32 - content_w) / 2, y: (height_i32 - content_h) / 2 };
    assert(offset == offset_of(width as int, height as int));

    let ghost base = framebuffer@;
    let n: usize = if block.mesh == 3 || block.mesh == 4 { 2 } else { 1 };
    let mut t: usize = 0;
    while t < n
        invariant
            n == mesh_len(block.mesh),
            0 <= t <= n,
            block_wf(*block),
            picture_sides_fit(width as int, height as int),
            block_fits(*block, width as int, height as int),
            scale == scale_of(width as int, height as int),
            offset == offset_of(width as int, height as int),
            framebuffer@ == render_triangles_spec(base, width as int, height as int, *block, t as int),
        decreases n - t,
    {
        proof {
            assert(corner_fits(*block, mesh_corner(block.mesh, t as int, 0), width as int, height as int));
            assert(corner_fits(*block, mesh_corner(block.mesh, t as int, 1), width as int, height as int));
            assert(corner_fits(*block, mesh_corner(block.mesh, t as int, 2), width as int, height as int));
        }
        let p0 = place_corner(block, t, 0, scale, offset, width, height);
        let p1 = place_corner(block, t, 1, scale, offset, width, height);
        let p2 = place_corner(block, t, 2, scale, offset, width, height);
        let tri = [p0, p1, p2];
        assert(tri == block_triangle(*block, t as int, width as int, height as int));
        assert(tri_fits(block_triangle(*block, t as int, width as int, height as int), width as int, height as int));
        draw_triangle(framebuffer, width, height, tri, block.color);
        t += 1;
    }
}

/// Draws piece `block_idx` of the picture; an index past the last piece
/// draws nothing.
pub fn render_block_by_index(framebuffer: &mut [u8], width: usize, height: usize, block_idx: usize)
    requires
        picture_sides_fit(width as int, height as int),
        block_idx < BLOCK_COUNT ==> block_fits(block_of(block_idx as int), width as int, height as int),
    ensures
        final(framebuffer)@ == if block_idx < BLOCK_COUNT {
            render_block_spec(old(framebuffer)@, width as int, height as int, block_of(block_idx as int))
        } else {
            old(framebuffer)@
        },
{
    if block_idx < BLOCK_COUNT {
        let block = os_tangram_block(block_idx);
        render_one_block(framebuffer, width, height, &block);
    }
}

/// The framebuffer after the first `n` pieces are drawn in order.
pub open spec fn render_blocks_spec(fb: Seq<u8>, width: int, height: int, n: int) -> Seq<u8>
    decreases n,
{
    if n <= 0 {
        fb
    } else {
        render_block_spec(render_blocks_spec(fb, width, height, n - 1), width, height, block_of(n - 1))
    }
}

/// Draws the first `count` pieces of the picture (all of them when `count`
/// is larger than their number).
pub fn render_blocks(framebuffer: &mut [u8], width: usize, height: usize, count: usize)
    requires
        picture_fits(width as int, height as int, count as int),
    ensures
        final(framebuffer)@ == render_blocks_spec(
            old(framebuffer)@,
            width as int,
            height as int,
            if count < BLOCK_COUNT { count as int } else { BLOCK_COUNT as int },
        ),
{
    let draw_count = if count < BLOCK_COUNT { count } else { BLOCK_COUNT };
    let ghost base = framebuffer@;
    let mut i: usize = 0;
    while i < draw_count
        invariant
            0 <= i <= draw_count <= BLOCK_COUNT,
            draw_count <= count,
            picture_fits(width as int, height as int, count as int),
            framebuffer@ == render_blocks_spec(base, width as int, height as int, i as int),
        decreases draw_count - i,
    {
        let block = os_tangram_block(i);
        render_one_block(framebuffer, width, height, &block);
        i += 1;
    }
}

proof fn lemma_mesh_corner_bounds(mesh: u8, t: int, k: int)
    requires
        mesh < 5,
        0 <= t < mesh_len(mesh),
        0 <= k < 3,
    ensures
        -96 <= mesh_corner(mesh, t, k).x <= 96,
        -96 <= mesh_corner(mesh, t, k).y <= 96,
{
}

proof fn lemma_block_of_wf(i: int)
    requires
        0 <= i < BLOCK_COUNT,
    ensures
        block_wf(block_of(i)),
{
}

/// On a screen no larger than `PICTURE_MAX_SIDE` a side, a corner of a
/// piece is scaled within machine integers and lands within 2^29 of the
/// origin.
proof fn lemma_corner_small(b: Block, p: Point, width: int, height: int)
    requires
        block_wf(b),
        -96 <= p.x <= 96,
        -96 <= p.y <= 96,
        0 <= width <= PICTURE_MAX_SIDE,
        0 <= height <= PICTURE_MAX_SIDE,
    ensures
        corner_fits(b, p, width, height),
        point_in_range(place(b, p, width, height)),
{
    lemma_scale_bounds(width, height);
    let sc = scale_of(width, height);
    let off = offset_of(width, height);
    let f = flip_spec(p, b.flip_x);
    lemma_rotate_bounds(f, b.rot45);
    let m = translate_spec(rotate_spec(f, b.rot45), b.pos);
    assert(-40 <= m.x <= 1140 && -40 <= m.y <= 1140);
    assert(0 <= sc <= 0x1000_0000);
    assert(-40 * sc <= m.x * sc <= 1140 * sc) by (nonlinear_arith)
        requires -40 <= m.x <= 1140, 0 <= sc;
    assert(-40 * sc <= m.y * sc <= 1140 * sc) by (nonlinear_arith)
        requires -40 <= m.y <= 1140, 0 <= sc;
    assert(1140 * sc <= 1140 * 0x1000_0000) by (nonlinear_arith)
        requires 0 <= sc <= 0x1000_0000;
    assert(-40 * sc >= -40 * 0x1000_0000) by (nonlinear_arith)
        requires 0 <= sc <= 0x1000_0000;
}

/// On a screen no larger than `PICTURE_MAX_SIDE` a side, every corner of a
/// piece is placed and every triangle of it drawn within machine integers.
proof fn lemma_block_fits_small(b: Block, width: int, height: int)
    requires
        block_wf(b),
        0 <= width <= PICTURE_MAX_SIDE,
        0 <= height <= PICTURE_MAX_SIDE,
    ensures
        block_fits(b, width, height),
{
    assert forall|t: int, k: int| 0 <= t < mesh_len(b.mesh) && 0 <= k < 3 implies
        #[trigger] corner_fits(b, mesh_corner(b.mesh, t, k), width, height) by {
        lemma_mesh_corner_bounds(b.mesh, t, k);
        lemma_corner_small(b, mesh_corner(b.mesh, t, k), width, height);
    }
    assert forall|t: int| 0 <= t < mesh_len(b.mesh) implies
        #[trigger] tri_fits(block_triangle(b, t, width, height), width, height) by {
        lemma_mesh_corner_bounds(b.mesh, t, 0);
        lemma_mesh_corner_bounds(b.mesh, t, 1);
        lemma_mesh_corner_bounds(b.mesh, t, 2);
        lemma_corner_small(b, mesh_corner(b.mesh, t, 0), width, height);
        lemma_corner_small(b, mesh_corner(b.mesh, t, 1), width, height);
        lemma_corner_small(b, mesh_corner(b.mesh, t, 2), width, height);
        lemma_tri_in_range(block_triangle(b, t, width, height), width, height);
    }
}

/// On a screen whose bytes can be counted and whose sides are at most
/// `PICTURE_MAX_SIDE` pixels, any number of pieces of the picture can be
/// drawn.
pub proof fn lemma_picture_fits(width: int, height: int, n: int)
    requires
        screen_fits(width, height),
        0 <= width <= PICTURE_MAX_SIDE,
        0 <= height <= PICTURE_MAX_SIDE,
    ensures
        picture_fits(width, height, n),
{
    assert forall|i: int| 0 <= i < n && i < BLOCK_COUNT implies #[trigger] block_fits(block_of(i), width, height) by {
        lemma_block_of_wf(i);
        lemma_block_fits_small(block_of(i), width, height);
    }
}

} // verus!
