//! Tetris: a ten by twenty board, seven tetrominoes, line clearing and levels.
use vstd::prelude::*;
use crate::framebuffer::{
    fill_rect, fill_rect_spec, fill_rect_fits, paint, paint_spec, rects_fit, saturating_mul, sat_mul_spec,
    sat_sub_spec, Rect, SMALL_SIDE, rect_small, rects_small, lemma_small_rects_fit,
    lemma_rects_small_concat,
};
use crate::mode::{InputMode, mode_id, mode_color, spec_mode_id, spec_mode_color};

verus! {

pub const BOARD_W: i16 = 10;
pub const BOARD_H: i16 = 20;
pub const BOARD_CELLS: usize = 200;
/// How long the game loop sleeps between two polls of the keyboard.
pub const POLL_TICK_MS: usize = 16;

/// For each of the seven kinds and four rotations, the offsets of the four
/// blocks of a tetromino from the corner of its four by four box.
pub const SHAPES: [[[[i16; 2]; 4]; 4]; 7] = [
    [
        [[0, 1], [1, 1], [2, 1], [3, 1]],
        [[2, 0], [2, 1], [2, 2], [2, 3]],
        [[0, 2], [1, 2], [2, 2], [3, 2]],
        [[1, 0], [1, 1], [1, 2], [1, 3]],
    ],
    [
        [[0, 0], [0, 1], [1, 1], [2, 1]],
        [[1, 0], [2, 0], [1, 1], [1, 2]],
        [[0, 1], [1, 1], [2, 1], [2, 2]],
        [[1, 0], [1, 1], [0, 2], [1, 2]],
    ],
    [
        [[1, 0], [2, 0], [1, 1], [2, 1]],
        [[1, 0], [2, 0], [1, 1], [2, 1]],
        [[1, 0], [2, 0], [1, 1], [2, 1]],
        [[1, 0], [2, 0], [1, 1], [2, 1]],
    ],
    [
        [[1, 0], [0, 1], [1, 1], [2, 1]],
        [[1, 0], [1, 1], [2, 1], [1, 2]],
        [[0, 1], [1, 1], [2, 1], [1, 2]],
        [[1, 0], [0, 1], [1, 1], [1, 2]],
    ],
    [
        [[1, 0], [2, 0], [0, 1], [1, 1]],
        [[1, 0], [1, 1], [2, 1], [2, 2]],
        [[1, 1], [2, 1], [0, 2], [1, 2]],
        [[0, 0], [0, 1], [1, 1], [1, 2]],
    ],
    [
        [[0, 0], [1, 0], [1, 1], [2, 1]],
        [[2, 0], [1, 1], [2, 1], [1, 2]],
        [[0, 1], [1, 1], [1, 2], [2, 2]],
        [[1, 0], [0, 1], [1, 1], [0, 2]],
    ],
    [
        [[2, 0], [0, 1], [1, 1], [2, 1]],
        [[1, 0], [1, 1], [1, 2], [2, 2]],
        [[0, 1], [1, 1], [2, 1], [0, 2]],
        [[0, 0], [1, 0], [1, 1], [1, 2]],
    ],
];

/// A falling tetromino: its kind, its rotation and the corner of its box.
#[derive(Clone, Copy, Debug, PartialEq, Eq)]
pub struct Piece {
    pub kind: u8,
    pub rot: u8,
    pub x: i16,
    pub y: i16,
}

/// One block of the board.
#[derive(Clone, Copy, Debug, PartialEq, Eq)]
pub struct Block {
    pub x: i16,
    pub y: i16,
}

impl Piece {
    pub open spec fn wf(self) -> bool {
        self.kind < 7 && self.rot < 4
    }

    /// Column of block `i`.
    pub open spec fn cell_x(self, i: int) -> int {
        self.x + SHAPES[self.kind as int][self.rot as int][i][0]
    }

    /// Row of block `i`.
    pub open spec fn cell_y(self, i: int) -> int {
        self.y + SHAPES[self.kind as int][self.rot as int][i][1]
    }

    /// Whether the coordinates of block `i` fit in an `i16`.
    pub open spec fn cell_fits(self, i: int) -> bool {
        self.cell_x(i) <= i16::MAX && self.cell_y(i) <= i16::MAX
    }

    pub open spec fn cells_fit(self) -> bool {
        self.cell_fits(0) && self.cell_fits(1) && self.cell_fits(2) && self.cell_fits(3)
    }

    pub open spec fn moved(self, dx: int, dy: int) -> Piece {
        Piece { x: (self.x + dx) as i16, y: (self.y + dy) as i16, ..self }
    }
}

/// Every offset of every shape lies in `0..=3`.
pub proof fn lemma_shape_offsets(kind: int, rot: int, i: int)
    requires
        0 <= kind < 7,
        0 <= rot < 4,
        0 <= i < 4,
    ensures
        0 <= SHAPES[kind][rot][i][0] <= 3,
        0 <= SHAPES[kind][rot][i][1] <= 3,
{
}

pub open spec fn in_board(x: int, y: int) -> bool {
    0 <= x < BOARD_W && 0 <= y < BOARD_H
}

/// Index of cell `(x, y)` in the row-major board.
pub open spec fn board_index(x: int, y: int) -> int {
    y * BOARD_W + x
}

/// Whether block `i` of the piece leaves the board or lands on a filled cell.
pub open spec fn cell_blocked(board: Seq<u8>, p: Piece, i: int) -> bool {
    !in_board(p.cell_x(i), p.cell_y(i)) || board[board_index(p.cell_x(i), p.cell_y(i))] != 0
}

/// Whether the piece cannot stand where it is.
pub open spec fn collides(board: Seq<u8>, p: Piece) -> bool {
    cell_blocked(board, p, 0) || cell_blocked(board, p, 1) || cell_blocked(board, p, 2)
        || cell_blocked(board, p, 3)
}

/// Whether one of the blocks of the piece is the board cell with index `j`.
pub open spec fn piece_covers(p: Piece, j: int) -> bool {
    exists|i: int|
        0 <= i < 4 && in_board(p.cell_x(i), p.cell_y(i)) && #[trigger] board_index(p.cell_x(i), p.cell_y(i))
            == j
}

/// The board after the blocks of the piece that lie on it are written with `cell`.
pub open spec fn stamp(board: Seq<u8>, p: Piece, cell: u8) -> Seq<u8> {
    Seq::new(board.len(), |j: int| if piece_covers(p, j) { cell } else { board[j] })
}

pub fn board_idx(x: i16, y: i16) -> (r: usize)
    requires
        in_board(x as int, y as int),
    ensures
        r == board_index(x as int, y as int),
{
    let row: usize = y as usize;
    let col: usize = x as usize;
    assert(row < 20 && col < 10);
    row * 10 + col
}

pub fn block_at(piece: &Piece, i: usize) -> (b: Block)
    requires
        piece.wf(),
        i < 4,
        piece.cell_fits(i as int),
    ensures
        b.x == piece.cell_x(i as int),
        b.y == piece.cell_y(i as int),
{
    proof { lemma_shape_offsets(piece.kind as int, piece.rot as int, i as int); }
    let rel = SHAPES[piece.kind as usize][piece.rot as usize][i];
    Block { x: piece.x + rel[0], y: piece.y + rel[1] }
}

/// Whether the piece leaves the board or overlaps a filled cell.
pub fn is_collide(board: &[u8; BOARD_CELLS], piece: &Piece) -> (r: bool)
    requires
        piece.wf(),
        piece.cell_fits(0),
    ensures
        r == collides(board@, *piece),
{
    let mut i: usize = 0;
    while i < 4
        invariant
            0 <= i <= 4,
            piece.wf(),
            piece.cell_fits(0),
            i > 0 ==> in_board(piece.cell_x(0), piece.cell_y(0)),
            forall|k: int| 0 <= k < i ==> !#[trigger] cell_blocked(board@, *piece, k),
        decreases 4 - i,
    {
        proof {
            lemma_shape_offsets(piece.kind as int, piece.rot as int, 0);
            lemma_shape_offsets(piece.kind as int, piece.rot as int, i as int);
        }
        let b = block_at(piece, i);
        if b.x < 0 || b.x >= BOARD_W || b.y < 0 || b.y >= BOARD_H {
            return true;
        }
        if board[board_idx(b.x, b.y)] != 0 {
            return true;
        }
        i += 1;
    }
    assert(!cell_blocked(board@, *piece, 0) && !cell_blocked(board@, *piece, 1)
        && !cell_blocked(board@, *piece, 2) && !cell_blocked(board@, *piece, 3));
    false
}

/// Writes `kind + 1` into every board cell that a block of the piece covers.
pub fn lock_piece(board: &mut [u8; BOARD_CELLS], piece: &Piece)
    requires
        piece.wf(),
        piece.cells_fit(),
    ensures
        final(board)@ == stamp(old(board)@, *piece, (piece.kind + 1) as u8),
{
    let cell = piece.kind + 1;
    let mut i: usize = 0;
    while i < 4
        invariant
            0 <= i <= 4,
            piece.wf(),
            piece.cells_fit(),
            cell == piece.kind + 1,
            board@.len() == BOARD_CELLS,
            forall|j: int|
                0 <= j < BOARD_CELLS ==> #[trigger] board@[j] == if exists|k: int|
                    0 <= k < i && in_board(piece.cell_x(k), piece.cell_y(k)) && #[trigger] board_index(
                        piece.cell_x(k),
                        piece.cell_y(k),
                    ) == j {
                    cell
                } else {
                    old(board)@[j]
                },
        decreases 4 - i,
    {
        let b = block_at(piece, i);
        if b.x >= 0 && b.x < BOARD_W && b.y >= 0 && b.y < BOARD_H {
            let idx = board_idx(b.x, b.y);
            board[idx] = cell;
        }
        i += 1;
    }
    assert(board@ =~= stamp(old(board)@, *piece, (piece.kind + 1) as u8));
}

/// Whether every cell of row `r` is filled.
pub open spec fn row_full(board: Seq<u8>, r: int) -> bool {
    forall|x: int| 0 <= x < BOARD_W ==> #[trigger] board[board_index(x, r)] != 0
}

/// The rows of `lo..=hi` that are not full, from the lowest on the screen
/// (`hi`) to the highest (`lo`).
pub open spec fn kept_rows(board: Seq<u8>, lo: int, hi: int) -> Seq<int>
    decreases hi - lo + 1,
{
    if hi < lo {
        seq![]
    } else {
        let rest = kept_rows(board, lo + 1, hi);
        if row_full(board, lo) {
            rest
        } else {
            rest.push(lo)
        }
    }
}

/// The board after every full row is removed and the rows above it fall:
/// the rows that are kept, in their order, rest on the bottom of the board
/// and the rows above them are empty.
pub open spec fn cleared_board(board: Seq<u8>) -> Seq<u8> {
    let kept = kept_rows(board, 0, BOARD_H - 1);
    Seq::new(
        BOARD_CELLS as nat,
        |j: int|
            {
                let k = (BOARD_H - 1) - j / 10;
                if k < kept.len() {
                    board[board_index(j % 10, kept[k])]
                } else {
                    0
                }
            },
    )
}

/// The number of full rows.
pub open spec fn full_rows(board: Seq<u8>) -> int {
    BOARD_H - kept_rows(board, 0, BOARD_H - 1).len()
}

/// The number of full rows among rows `lo..=hi` of the board.
pub open spec fn count_full_rows(board: Seq<u8>, lo: int, hi: int) -> int
    decreases hi - lo + 1,
{
    if hi < lo {
        0
    } else {
        count_full_rows(board, lo, hi - 1) + if row_full(board, hi) { 1int } else { 0int }
    }
}

proof fn lemma_count_full_rows_step(board: Seq<u8>, lo: int, hi: int)
    requires
        lo <= hi,
    ensures
        count_full_rows(board, lo, hi) == count_full_rows(board, lo + 1, hi) + if row_full(board, lo) { 1int } else { 0int },
    decreases hi - lo,
{
    if lo < hi {
        lemma_count_full_rows_step(board, lo, hi - 1);
        assert(count_full_rows(board, lo + 1, hi) == count_full_rows(board, lo + 1, hi - 1)
            + if row_full(board, hi) { 1int } else { 0int });
    } else {
        assert(count_full_rows(board, lo, hi - 1) == 0);
        assert(count_full_rows(board, lo + 1, hi) == 0);
    }
}

proof fn lemma_kept_and_full(board: Seq<u8>, lo: int, hi: int)
    requires
        lo <= hi + 1,
    ensures
        kept_rows(board, lo, hi).len() + count_full_rows(board, lo, hi) == hi - lo + 1,
    decreases hi - lo + 1,
{
    if lo <= hi {
        lemma_kept_and_full(board, lo + 1, hi);
        lemma_count_full_rows_step(board, lo, hi);
    }
}

pub proof fn lemma_kept_rows_range(board: Seq<u8>, lo: int, hi: int)
    ensures
        kept_rows(board, lo, hi).len() <= if hi < lo { 0 } else { hi - lo + 1 },
        forall|k: int|
            0 <= k < kept_rows(board, lo, hi).len() ==> lo <= #[trigger] kept_rows(board, lo, hi)[k]
                <= hi,
    decreases hi - lo + 1,
{
    if hi >= lo {
        lemma_kept_rows_range(board, lo + 1, hi);
    }
}

/// Whether row `row` of the board is full.
fn row_is_full(board: &[u8; BOARD_CELLS], row: i16) -> (r: bool)
    requires
        0 <= row < BOARD_H,
    ensures
        r == row_full(board@, row as int),
{
    let mut x: i16 = 0;
    while x < BOARD_W
        invariant
            0 <= x <= BOARD_W,
            0 <= row < BOARD_H,
            forall|c: int| 0 <= c < x ==> #[trigger] board@[board_index(c, row as int)] != 0,
        decreases BOARD_W - x,
    {
        if board[board_idx(x, row)] == 0 {
            return false;
        }
        x += 1;
    }
    true
}

/// Removes every full row, lets the rows above fall, and returns how many
/// rows were removed.
pub fn clear_lines(board: &mut [u8; BOARD_CELLS]) -> (cleared: usize)
    ensures
        final(board)@ == cleared_board(old(board)@),
        cleared == full_rows(old(board)@),
{
    let ghost old_board = board@;
    let mut dst: i16 = BOARD_H - 1;
    let mut cleared: usize = 0;
    let mut src: i16 = BOARD_H - 1;
    while src >= 0
        invariant
            -1 <= src <= BOARD_H - 1,
            board@.len() == BOARD_CELLS,
            old_board.len() == BOARD_CELLS,
            dst == (BOARD_H - 1) - kept_rows(old_board, src + 1, BOARD_H - 1).len(),
            src <= dst,
            cleared == (BOARD_H - 1 - src) - kept_rows(old_board, src + 1, BOARD_H - 1).len(),
            forall|r: int, x: int|
                0 <= r <= src && 0 <= x < BOARD_W ==> #[trigger] board@[board_index(x, r)]
                    == old_board[board_index(x, r)],
            forall|r: int, x: int|
                dst < r < BOARD_H && 0 <= x < BOARD_W ==> #[trigger] board@[board_index(x, r)]
                    == old_board[board_index(
                    x,
                    kept_rows(old_board, src + 1, BOARD_H - 1)[(BOARD_H - 1) - r],
                )],
        decreases src + 1,
    {
        let ghost kept_before = kept_rows(old_board, src + 1, BOARD_H - 1);
        proof {
            lemma_kept_rows_range(old_board, src + 1, BOARD_H - 1);
            assert(kept_rows(old_board, src as int, BOARD_H - 1) == if row_full(old_board, src as int) {
                kept_before
            } else {
                kept_before.push(src as int)
            });
        }
        let full = row_is_full(board, src);
        assert(full == row_full(old_board, src as int)) by {
            if row_full(board@, src as int) {
                assert forall|x: int| 0 <= x < BOARD_W implies #[trigger] old_board[board_index(x, src as int)]
                    != 0 by {
                    assert(board@[board_index(x, src as int)] != 0);
                }
            }
            if row_full(old_board, src as int) {
                assert forall|x: int| 0 <= x < BOARD_W implies #[trigger] board@[board_index(x, src as int)]
                    != 0 by {
                    assert(old_board[board_index(x, src as int)] != 0);
                }
            }
        }
        if full {
            cleared += 1;
        } else {
            let ghost row_start = board@;
            let mut copy_x: i16 = 0;
            while copy_x < BOARD_W
                invariant
                    0 <= copy_x <= BOARD_W,
                    0 <= src <= dst < BOARD_H,
                    board@.len() == BOARD_CELLS,
                    forall|j: int|
                        0 <= j < BOARD_CELLS && !(dst * BOARD_W <= j < dst * BOARD_W + copy_x) ==> #[trigger] board@[j]
                            == row_start[j],
                    forall|x: int|
                        0 <= x < copy_x ==> #[trigger] board@[board_index(x, dst as int)]
                            == row_start[board_index(x, src as int)],
                decreases BOARD_W - copy_x,
            {
                let v = board[board_idx(copy_x, src)];
                let d = board_idx(copy_x, dst);
                board[d] = v;
                copy_x += 1;
            }
            dst -= 1;
        }
        src -= 1;
    }
    proof {
        lemma_kept_rows_range(old_board, 0, BOARD_H - 1);
    }
    let ghost dst0 = dst;
    while dst >= 0
        invariant
            -1 <= dst <= dst0,
            dst0 == (BOARD_H - 1) - kept_rows(old_board, 0, BOARD_H - 1).len(),
            board@.len() == BOARD_CELLS,
            forall|r: int, x: int|
                dst < r <= dst0 && 0 <= x < BOARD_W ==> #[trigger] board@[board_index(x, r)] == 0,
            forall|r: int, x: int|
                dst0 < r < BOARD_H && 0 <= x < BOARD_W ==> #[trigger] board@[board_index(x, r)]
                    == old_board[board_index(
                    x,
                    kept_rows(old_board, 0, BOARD_H - 1)[(BOARD_H - 1) - r],
                )],
        decreases dst + 1,
    {
        let ghost row_start = board@;
        let mut x: i16 = 0;
        while x < BOARD_W
            invariant
                0 <= x <= BOARD_W,
                0 <= dst <= dst0,
                dst0 <= BOARD_H - 1,
                board@.len() == BOARD_CELLS,
                forall|j: int|
                    0 <= j < BOARD_CELLS && !(dst * BOARD_W <= j < dst * BOARD_W + x) ==> #[trigger] board@[j]
                        == row_start[j],
                forall|c: int| 0 <= c < x ==> #[trigger] board@[board_index(c, dst as int)] == 0,
            decreases BOARD_W - x,
        {
            let d = board_idx(x, dst);
            board[d] = 0;
            x += 1;
        }
        dst -= 1;
    }
    assert forall|j: int| 0 <= j < BOARD_CELLS implies #[trigger] board@[j] == cleared_board(old_board)[j] by {
        let r = j / 10;
        let x = j % 10;
        assert(j == board_index(x, r));
    }
    assert(board@ =~= cleared_board(old_board));
    cleared
}

/// The points for clearing `cleared` rows at once, before the level bonus.
pub open spec fn line_base(cleared: int) -> int {
    if cleared == 1 {
        100
    } else if cleared == 2 {
        300
    } else if cleared == 3 {
        500
    } else if cleared == 4 {
        800
    } else {
        0
    }
}

/// Points for clearing `cleared` rows at once on `level`: 100, 300, 500 or 800
/// times the level plus one.
pub fn line_score(cleared: usize, level: usize) -> (score: usize)
    requires
        level < usize::MAX,
        line_base(cleared as int) * (level + 1) <= usize::MAX,
    ensures
        score == line_base(cleared as int) * (level + 1),
{
    let base: usize = match cleared {
        1 => 100,
        2 => 300,
        3 => 500,
        4 => 800,
        _ => 0,
    };
    base * (level + 1)
}

/// The level: one for every ten cleared rows and one for every eighteen pieces.
pub open spec fn level_of(lines: int, pieces: int) -> int {
    lines / 10 + pieces / 18
}

pub fn calc_level(lines: usize, pieces: usize) -> (level: usize)
    ensures
        level == level_of(lines as int, pieces as int),
{
    let by_lines = lines / 10;
    let by_pieces = pieces / 18;
    by_lines + by_pieces
}

/// Milliseconds between two automatic drops: 700 less 55 per level, less at
/// most 620, and never below 80.
pub open spec fn drop_interval(level: int) -> int {
    let dec = if level * 55 < 620 { level * 55 } else { 620 };
    if 700 - dec > 80 { 700 - dec } else { 80 }
}

pub fn drop_interval_ms(level: usize) -> (ms: usize)
    requires
        level * 55 <= usize::MAX,
    ensures
        ms == drop_interval(level as int),
{
    let base = 700usize;
    let scaled = level * 55;
    let dec = if scaled < 620 { scaled } else { 620 };
    let left = base.saturating_sub(dec);
    if 80 > left { 80 } else { left }
}

/// The drop interval stays between 80 and 700 milliseconds and never grows
/// when the level rises.
pub proof fn lemma_drop_interval_bounds(level: int, higher: int)
    requires
        0 <= level <= higher,
    ensures
        80 <= drop_interval(level) <= 700,
        drop_interval(higher) <= drop_interval(level),
{
    assert(level * 55 <= higher * 55) by (nonlinear_arith)
        requires level <= higher;
}

/// The seed of a new game from the clock: the time, at least 1, cut to 32
/// bits as Rust's `as` does and mixed with a fixed pattern.
pub fn seed_from_time(time: isize) -> (seed: u32)
    ensures
        seed == ((if time < 1 { 1 } else { time }) as u32) ^ 0x4d43_5a19u32,
{
    let t = if time < 1 { 1 } else { time };
    (t as u32) ^ 0x4d43_5a19
}

/// Whether the next automatic drop is due at `now`, the last one having
/// been at `last_drop`.
pub fn drop_due(now: isize, last_drop: isize, level: usize) -> (due: bool)
    requires
        isize::MIN <= now - last_drop <= isize::MAX,
        level * 55 <= usize::MAX,
    ensures
        due == (now - last_drop >= drop_interval(level as int)),
{
    let interval = drop_interval_ms(level);
    proof { lemma_drop_interval_bounds(level as int, level as int); }
    now - last_drop >= interval as isize
}

/// The linear congruential generator of the games.
#[verifier::opaque]
pub open spec fn lcg(seed: u32) -> u32 {
    vstd::wrapping::u32_specs::wrapping_add(
        vstd::wrapping::u32_specs::wrapping_mul(seed, 1664525),
        1013904223,
    )
}

/// The piece after it falls as far as it can.
pub open spec fn dropped(board: Seq<u8>, p: Piece) -> Piece
    decreases BOARD_H - p.y,
{
    if p.y < BOARD_H && !collides(board, p.moved(0, 1)) {
        dropped(board, p.moved(0, 1))
    } else {
        p
    }
}

/// The state of a game of Tetris as a value.
pub struct GameView {
    pub board: Seq<u8>,
    pub active: Piece,
    pub next_kind: u8,
    pub rng: u32,
    pub pieces: usize,
    pub score: usize,
    pub lines: usize,
    pub level: usize,
    pub quit: bool,
    pub over: bool,
}

pub open spec fn sat_add(a: usize, b: int) -> usize {
    if a + b > usize::MAX {
        usize::MAX
    } else {
        (a + b) as usize
    }
}

impl GameView {
    /// The invariant every game keeps: the board holds colours `0..=7`, the
    /// piece lies near the board, and while the game runs it overlaps nothing.
    pub open spec fn wf(self) -> bool {
        &&& self.board.len() == BOARD_CELLS
        &&& forall|j: int| 0 <= j < BOARD_CELLS ==> #[trigger] self.board[j] <= 7
        &&& self.active.wf()
        &&& self.next_kind < 7
        &&& -3 <= self.active.x <= 9
        &&& -3 <= self.active.y <= 19
        &&& !self.over ==> !collides(self.board, self.active)
    }

    /// The next piece enters at the top; the game is over when it cannot.
    pub open spec fn spawned(self) -> GameView {
        let p = Piece { kind: self.next_kind, rot: 0, x: 3, y: 0 };
        GameView {
            active: p,
            next_kind: (lcg(self.rng) % 7) as u8,
            rng: lcg(self.rng),
            over: self.over || collides(self.board, p),
            ..self
        }
    }

    /// The rows that locking the falling piece in place clears.
    pub open spec fn rows_cleared_by_lock(self) -> int {
        full_rows(stamp(self.board, self.active, (self.active.kind + 1) as u8))
    }

    /// Whether the score of the rows that locking clears fits in a `usize`.
    pub open spec fn lock_fits(self) -> bool {
        self.rows_cleared_by_lock() > 0 ==> self.level < usize::MAX && line_base(
            self.rows_cleared_by_lock(),
        ) * (self.level + 1) <= usize::MAX
    }

    /// The falling piece is written into the board, full rows are cleared and
    /// counted, score, rows and level are updated, and the next piece enters.
    pub open spec fn locked(self) -> GameView {
        let stamped = stamp(self.board, self.active, (self.active.kind + 1) as u8);
        let cleared = full_rows(stamped);
        let pieces = sat_add(self.pieces, 1);
        let score = if cleared > 0 {
            sat_add(self.score, line_base(cleared) * (self.level + 1))
        } else {
            self.score
        };
        let lines = if cleared > 0 {
            sat_add(self.lines, cleared)
        } else {
            self.lines
        };
        GameView {
            board: cleared_board(stamped),
            pieces,
            score,
            lines,
            level: level_of(lines as int, pieces as int) as usize,
            ..self
        }.spawned()
    }

    /// The game with the piece moved by `(dx, dy)` when it fits there.
    pub open spec fn moved(self, dx: int, dy: int) -> GameView {
        if collides(self.board, self.active.moved(dx, dy)) {
            self
        } else {
            GameView { active: self.active.moved(dx, dy), ..self }
        }
    }

    /// The piece turned a quarter, or else pushed one or two columns left or
    /// right after turning, whichever fits first.
    pub open spec fn rotated(self) -> GameView {
        let r = Piece { rot: ((self.active.rot + 1) % 4) as u8, ..self.active };
        if !collides(self.board, r) {
            GameView { active: r, ..self }
        } else if !collides(self.board, r.moved(-1, 0)) {
            GameView { active: r.moved(-1, 0), ..self }
        } else if !collides(self.board, r.moved(1, 0)) {
            GameView { active: r.moved(1, 0), ..self }
        } else if !collides(self.board, r.moved(-2, 0)) {
            GameView { active: r.moved(-2, 0), ..self }
        } else if !collides(self.board, r.moved(2, 0)) {
            GameView { active: r.moved(2, 0), ..self }
        } else {
            self
        }
    }

    pub open spec fn hard_dropped(self) -> GameView {
        if self.over || self.quit {
            self
        } else {
            GameView { active: dropped(self.board, self.active), ..self }.locked()
        }
    }

    pub open spec fn hard_drop_fits(self) -> bool {
        !(self.over || self.quit) ==> GameView {
            active: dropped(self.board, self.active),
            ..self
        }.lock_fits()
    }

    pub open spec fn ticked(self) -> GameView {
        if self.over || self.quit {
            self
        } else if !collides(self.board, self.active.moved(0, 1)) {
            GameView { active: self.active.moved(0, 1), ..self }
        } else {
            self.locked()
        }
    }

    pub open spec fn tick_fits(self) -> bool {
        !(self.over || self.quit) && collides(self.board, self.active.moved(0, 1)) ==> self.lock_fits()
    }
}

proof fn lemma_kept_rows_not_full(board: Seq<u8>, lo: int, hi: int)
    ensures
        forall|k: int| 0 <= k < kept_rows(board, lo, hi).len() ==> !row_full(board, #[trigger] kept_rows(board, lo, hi)[k]),
    decreases hi - lo + 1,
{
    if hi >= lo {
        lemma_kept_rows_not_full(board, lo + 1, hi);
        let rest = kept_rows(board, lo + 1, hi);
        let all = kept_rows(board, lo, hi);
        assert forall|k: int| 0 <= k < all.len() implies !row_full(board, #[trigger] all[k]) by {
            if !row_full(board, lo) && k == rest.len() {
                assert(all[k] == lo);
            } else {
                assert(all[k] == rest[k]);
            }
        }
    }
}

/// Clearing rows leaves no full row on the board, and as many empty rows at
/// the top as there were full rows.
pub proof fn lemma_clear_leaves_no_full_row(board: Seq<u8>)
    requires
        board.len() == BOARD_CELLS,
    ensures
        forall|r: int| 0 <= r < BOARD_H ==> !row_full(#[trigger] cleared_board(board), r),
        forall|r: int, x: int|
            0 <= r < count_full_rows(board, 0, BOARD_H - 1) && 0 <= x < BOARD_W
                ==> #[trigger] cleared_board(board)[board_index(x, r)] == 0,
{
    let c = cleared_board(board);
    let kept = kept_rows(board, 0, BOARD_H - 1);
    lemma_kept_rows_not_full(board, 0, BOARD_H - 1);
    lemma_kept_rows_range(board, 0, BOARD_H - 1);
    lemma_kept_and_full(board, 0, BOARD_H - 1);
    assert forall|r: int| 0 <= r < BOARD_H implies !row_full(#[trigger] cleared_board(board), r) by {
        let k = (BOARD_H - 1) - r;
        if k < kept.len() {
            let src = kept[k];
            assert(!row_full(board, src));
            let x = choose|x: int| 0 <= x < BOARD_W && !(board[board_index(x, src)] != 0);
            let j = board_index(x, r);
            assert(j / 10 == r && j % 10 == x);
            assert(c[j] == board[board_index(x, src)]);
        } else {
            let j = board_index(0, r);
            assert(j / 10 == r && j % 10 == 0);
            assert(c[j] == 0);
        }
    }
    assert forall|r: int, x: int|
        0 <= r < count_full_rows(board, 0, BOARD_H - 1) && 0 <= x < BOARD_W
            implies #[trigger] cleared_board(board)[board_index(x, r)] == 0 by {
        let j = board_index(x, r);
        assert(j / 10 == r && j % 10 == x);
    }
}

/// Locking a piece adds to the row counter exactly the number of rows the
/// piece completes, one piece to the piece counter, and the points of that
/// many rows cleared at once: 100, 300, 500 or 800 times the level plus one
/// (each sum stopping at `usize::MAX`); the level is then one for every ten
/// rows and one for every eighteen pieces, and no full row is left.
pub proof fn lemma_lock_counts_rows(g: GameView)
    ensures
        ({
            let c = count_full_rows(stamp(g.board, g.active, (g.active.kind + 1) as u8), 0, BOARD_H - 1);
            let t = g.locked();
            &&& t.lines == sat_add(g.lines, c)
            &&& t.pieces == sat_add(g.pieces, 1)
            &&& t.level == t.lines / 10 + t.pieces / 18
            &&& g.board.len() == BOARD_CELLS ==> forall|r: int| 0 <= r < BOARD_H ==> !row_full(t.board, r)
            &&& c == 0 ==> t.score == g.score
            &&& c == 1 ==> t.score == sat_add(g.score, 100 * (g.level + 1))
            &&& c == 2 ==> t.score == sat_add(g.score, 300 * (g.level + 1))
            &&& c == 3 ==> t.score == sat_add(g.score, 500 * (g.level + 1))
            &&& c == 4 ==> t.score == sat_add(g.score, 800 * (g.level + 1))
        }),
{
    let stamped = stamp(g.board, g.active, (g.active.kind + 1) as u8);
    lemma_kept_and_full(stamped, 0, BOARD_H - 1);
    lemma_kept_rows_range(stamped, 0, BOARD_H - 1);
    if g.board.len() == BOARD_CELLS {
        lemma_clear_leaves_no_full_row(stamped);
        assert(g.locked().board == cleared_board(stamped));
    }
    let c = count_full_rows(stamped, 0, BOARD_H - 1);
    assert(full_rows(stamped) == c);
    assert(c == 1 ==> line_base(c) * (g.level + 1) == 100 * (g.level + 1));
    assert(c == 2 ==> line_base(c) * (g.level + 1) == 300 * (g.level + 1));
    assert(c == 3 ==> line_base(c) * (g.level + 1) == 500 * (g.level + 1));
    assert(c == 4 ==> line_base(c) * (g.level + 1) == 800 * (g.level + 1));
}

/// Below a level of about `usize::MAX / 800` no score can overflow, so
/// every key and every gravity step can be applied.
pub proof fn lemma_lock_fits(g: GameView)
    requires
        (g.level + 1) * 800 <= usize::MAX,
    ensures
        g.lock_fits(),
        g.hard_drop_fits(),
        g.tick_fits(),
{
    assert forall|c: int| #[trigger] line_base(c) * (g.level + 1) <= usize::MAX by {
        let b = line_base(c);
        assert(0 <= b <= 800);
        assert(b * (g.level + 1) <= 800 * (g.level + 1)) by (nonlinear_arith)
            requires
                0 <= b <= 800,
                g.level + 1 >= 0,
        ;
    }
}

/// A game of Tetris.
pub struct Game {
    pub board: [u8; BOARD_CELLS],
    pub active: Piece,
    pub next_kind: u8,
    pub rng: u32,
    pub pieces: usize,
    pub score: usize,
    pub lines: usize,
    pub level: usize,
    pub quit: bool,
    pub over: bool,
}

impl View for Game {
    type V = GameView;

    open spec fn view(&self) -> GameView {
        GameView {
            board: self.board@,
            active: self.active,
            next_kind: self.next_kind,
            rng: self.rng,
            pieces: self.pieces,
            score: self.score,
            lines: self.lines,
            level: self.level,
            quit: self.quit,
            over: self.over,
        }
    }
}

/// What a key press does: whether the screen changes, and the game after it.
pub open spec fn key_effect(g: GameView, key: u8) -> (bool, GameView) {
    if g.over || g.quit {
        if key == 0x71 || key == 0x51 {
            (true, GameView { quit: true, ..g })
        } else {
            (false, g)
        }
    } else if key == 0x61 || key == 0x41 {
        (!collides(g.board, g.active.moved(-1, 0)), g.moved(-1, 0))
    } else if key == 0x64 || key == 0x44 {
        (!collides(g.board, g.active.moved(1, 0)), g.moved(1, 0))
    } else if key == 0x73 || key == 0x53 {
        (!collides(g.board, g.active.moved(0, 1)), g.moved(0, 1))
    } else if key == 0x77 || key == 0x57 {
        (true, g.rotated())
    } else if key == 0x20 {
        (true, g.hard_dropped())
    } else if key == 0x71 || key == 0x51 {
        (true, GameView { quit: true, ..g })
    } else {
        (false, g)
    }
}

/// Locking a piece keeps every board cell a colour in `0..=7`.
proof fn lemma_locked_board(g: GameView)
    requires
        g.wf(),
    ensures
        cleared_board(stamp(g.board, g.active, (g.active.kind + 1) as u8)).len() == BOARD_CELLS,
        forall|j: int|
            0 <= j < BOARD_CELLS ==> #[trigger] cleared_board(stamp(g.board, g.active, (g.active.kind + 1) as u8))[j]
                <= 7,
{
    let stamped = stamp(g.board, g.active, (g.active.kind + 1) as u8);
    lemma_kept_rows_range(stamped, 0, BOARD_H - 1);
    assert forall|j: int| 0 <= j < BOARD_CELLS implies #[trigger] cleared_board(stamped)[j] <= 7 by {
        let kept = kept_rows(stamped, 0, BOARD_H - 1);
        let k = (BOARD_H - 1) - j / 10;
        if k < kept.len() {
            let idx = board_index(j % 10, kept[k]);
            assert(0 <= idx < BOARD_CELLS);
            assert(stamped[idx] <= 7);
        }
    }
}

/// A piece that overlaps nothing lies on the board.
proof fn lemma_free_piece_on_board(board: Seq<u8>, p: Piece)
    requires
        p.wf(),
        !collides(board, p),
    ensures
        -3 <= p.x <= 9,
        -3 <= p.y <= 19,
{
    lemma_shape_offsets(p.kind as int, p.rot as int, 0);
}

/// Falling keeps a piece that overlaps nothing free.
proof fn lemma_dropped_free(board: Seq<u8>, p: Piece)
    requires
        p.wf(),
        !collides(board, p),
    ensures
        !collides(board, dropped(board, p)),
        dropped(board, p).wf(),
        dropped(board, p).x == p.x,
    decreases BOARD_H - p.y,
{
    lemma_free_piece_on_board(board, p);
    if p.y < BOARD_H && !collides(board, p.moved(0, 1)) {
        lemma_dropped_free(board, p.moved(0, 1));
    }
}

impl Game {
    /// A fresh game whose random numbers start from `seed`.
    pub fn new(seed: u32) -> (g: Game)
        ensures
            g@ == (GameView {
                board: Seq::new(BOARD_CELLS as nat, |j: int| 0u8),
                active: Piece { kind: 0, rot: 0, x: 3, y: 0 },
                next_kind: (lcg(seed) % 7) as u8,
                rng: lcg(seed),
                pieces: 0,
                score: 0,
                lines: 0,
                level: 0,
                quit: false,
                over: false,
            }).spawned(),
            g@.wf(),
    {
        let mut g = Self {
            board: [0u8; BOARD_CELLS],
            active: Piece { kind: 0, rot: 0, x: 3, y: 0 },
            next_kind: 0,
            rng: seed,
            pieces: 0,
            score: 0,
            lines: 0,
            level: 0,
            quit: false,
            over: false,
        };
        assert(g.board@ =~= Seq::new(BOARD_CELLS as nat, |j: int| 0u8));
        g.next_kind = g.rand_kind();
        g.spawn_piece();
        g
    }

    /// Advances the generator and returns its new value.
    pub fn next_rand(&mut self) -> (r: u32)
        ensures
            r == lcg(old(self).rng),
            final(self)@ == (GameView { rng: lcg(old(self).rng), ..old(self)@ }),
    {
        proof { reveal(lcg); }
        self.rng = self.rng.wrapping_mul(1664525).wrapping_add(1013904223);
        self.rng
    }

    /// A random kind in `0..7`.
    pub fn rand_kind(&mut self) -> (k: u8)
        ensures
            k == lcg(old(self).rng) % 7,
            k < 7,
            final(self)@ == (GameView { rng: lcg(old(self).rng), ..old(self)@ }),
    {
        (self.next_rand() % 7) as u8
    }

    /// The next piece enters at the top; the game ends when it cannot.
    pub fn spawn_piece(&mut self)
        requires
            old(self).next_kind < 7,
        ensures
            final(self)@ == old(self)@.spawned(),
    {
        self.active = Piece { kind: self.next_kind, rot: 0, x: 3, y: 0 };
        self.next_kind = self.rand_kind();
        if is_collide(&self.board, &self.active) {
            self.over = true;
        }
    }

    /// Moves the piece by `(dx, dy)` if it fits there; tells whether it moved.
    pub fn try_move(&mut self, dx: i16, dy: i16) -> (moved: bool)
        requires
            old(self).active.wf(),
            i16::MIN <= old(self).active.x + dx <= i16::MAX,
            i16::MIN <= old(self).active.y + dy <= i16::MAX,
            old(self).active.moved(dx as int, dy as int).cell_fits(0),
        ensures
            moved == !collides(old(self)@.board, old(self).active.moved(dx as int, dy as int)),
            final(self)@ == old(self)@.moved(dx as int, dy as int),
            old(self)@.wf() ==> final(self)@.wf(),
    {
        let mut next = self.active;
        next.x += dx;
        next.y += dy;
        assert(next == self.active.moved(dx as int, dy as int));
        if is_collide(&self.board, &next) {
            return false;
        }
        self.active = next;
        proof { lemma_free_piece_on_board(self.board@, next); }
        true
    }

    /// Turns the piece a quarter, pushing it one or two columns aside when
    /// needed; leaves it alone when no position fits.
    pub fn try_rotate(&mut self)
        requires
            old(self)@.wf(),
        ensures
            final(self)@ == old(self)@.rotated(),
            final(self)@.wf(),
    {
        let mut next = self.active;
        next.rot = (next.rot + 1) % 4;
        if !is_collide(&self.board, &next) {
            self.active = next;
            proof { lemma_free_piece_on_board(self.board@, next); }
            return;
        }
        let kicks: [i16; 4] = [-1, 1, -2, 2];
        let mut i: usize = 0;
        while i < 4
            invariant
                0 <= i <= 4,
                kicks@ == seq![-1i16, 1i16, -2i16, 2i16],
                *self == *old(self),
                next == (Piece { rot: ((old(self).active.rot + 1) % 4) as u8, ..old(self).active }),
                collides(self.board@, next),
                old(self)@.wf(),
                i >= 1 ==> collides(self.board@, next.moved(-1, 0)),
                i >= 2 ==> collides(self.board@, next.moved(1, 0)),
                i >= 3 ==> collides(self.board@, next.moved(-2, 0)),
                i >= 4 ==> collides(self.board@, next.moved(2, 0)),
            decreases 4 - i,
        {
            let mut kicked = next;
            kicked.x += kicks[i];
            assert(kicked == next.moved(kicks@[i as int] as int, 0));
            if !is_collide(&self.board, &kicked) {
                self.active = kicked;
                proof { lemma_free_piece_on_board(self.board@, kicked); }
                return;
            }
            i += 1;
        }
    }

    /// Locks the piece into the board, clears full rows, updates score, rows
    /// and level, and lets the next piece enter.
    pub fn lock_and_advance(&mut self)
        requires
            old(self)@.wf(),
            old(self)@.lock_fits(),
        ensures
            final(self)@ == old(self)@.locked(),
            final(self)@.wf(),
    {
        proof {
            lemma_shape_offsets(self.active.kind as int, self.active.rot as int, 0);
            lemma_shape_offsets(self.active.kind as int, self.active.rot as int, 1);
            lemma_shape_offsets(self.active.kind as int, self.active.rot as int, 2);
            lemma_shape_offsets(self.active.kind as int, self.active.rot as int, 3);
            lemma_locked_board(self@);
        }
        lock_piece(&mut self.board, &self.active);
        self.pieces = self.pieces.saturating_add(1);
        let cleared = clear_lines(&mut self.board);
        if cleared > 0 {
            self.score = self.score.saturating_add(line_score(cleared, self.level));
            self.lines = self.lines.saturating_add(cleared);
        }
        self.level = calc_level(self.lines, self.pieces);
        self.spawn_piece();
    }

    /// Drops the piece as far as it falls and locks it there.
    pub fn hard_drop(&mut self)
        requires
            old(self)@.wf(),
            old(self)@.hard_drop_fits(),
        ensures
            final(self)@ == old(self)@.hard_dropped(),
            final(self)@.wf(),
    {
        if self.over || self.quit {
            return;
        }
        proof { lemma_dropped_free(self.board@, self.active); }
        loop
            invariant
                self@.wf(),
                !self.over,
                !self.quit,
                self.board@ == old(self).board@,
                dropped(self.board@, self.active) == dropped(old(self).board@, old(self).active),
                self@ == (GameView { active: self.active, ..old(self)@ }),
            ensures
                self@.wf(),
                !self.over,
                !self.quit,
                self.board@ == old(self).board@,
                dropped(self.board@, self.active) == dropped(old(self).board@, old(self).active),
                self@ == (GameView { active: self.active, ..old(self)@ }),
                collides(self.board@, self.active.moved(0, 1)),
            decreases BOARD_H - self.active.y,
        {
            proof { lemma_shape_offsets(self.active.kind as int, self.active.rot as int, 0); }
            if !self.try_move(0, 1) {
                break;
            }
        }
        assert(self@ == (GameView { active: dropped(old(self).board@, old(self).active), ..old(self)@ }));
        self.lock_and_advance();
    }

    /// One step of gravity: the piece falls one row, or locks when it cannot.
    pub fn tick_drop(&mut self)
        requires
            old(self)@.wf(),
            old(self)@.tick_fits(),
        ensures
            final(self)@ == old(self)@.ticked(),
            final(self)@.wf(),
    {
        if self.over || self.quit {
            return;
        }
        proof { lemma_shape_offsets(self.active.kind as int, self.active.rot as int, 0); }
        if !self.try_move(0, 1) {
            self.lock_and_advance();
        }
    }
}

/// Applies one key to the game; tells whether the screen needs redrawing.
pub fn handle_key(game: &mut Game, key: u8) -> (dirty: bool)
    requires
        old(game)@.wf(),
        key == 0x20 ==> old(game)@.hard_drop_fits(),
    ensures
        (dirty, final(game)@) == key_effect(old(game)@, key),
        final(game)@.wf(),
{
    if game.over || game.quit {
        if key == 0x71 || key == 0x51 {
            game.quit = true;
            return true;
        }
        return false;
    }
    proof { lemma_shape_offsets(game.active.kind as int, game.active.rot as int, 0); }
    match key {
        0x61 | 0x41 => game.try_move(-1, 0),
        0x64 | 0x44 => game.try_move(1, 0),
        0x73 | 0x53 => game.try_move(0, 1),
        0x77 | 0x57 => {
            game.try_rotate();
            true
        },
        0x20 => {
            game.hard_drop();
            true
        },
        0x71 | 0x51 => {
            game.quit = true;
            true
        },
        _ => false,
    }
}

pub const COLOR_BG: u32 = 0xff11151a;
pub const COLOR_BOARD_BG: u32 = 0xff1b2026;
pub const COLOR_BORDER: u32 = 0xff3a424d;
pub const COLOR_OVERLAY: u32 = 0xffd32f2f;
pub const COLOR_SCORE: u32 = 0xffab47bc;
pub const COLOR_LEVEL: u32 = 0xff66bb6a;

/// The colour of each board value: 0 the empty board, 1 to 7 the kinds.
pub const CELL_COLORS: [u32; 8] = [
    COLOR_BOARD_BG,
    0xff26c6da,
    0xff42a5f5,
    0xffffca28,
    0xffab47bc,
    0xff66bb6a,
    0xffef5350,
    0xffff7043,
];

/// Where the board is drawn, in pixels.
#[derive(Clone, Copy, Debug, PartialEq, Eq)]
pub struct Layout {
    pub width: usize,
    pub height: usize,
    pub cell_px: usize,
    pub board_w_px: usize,
    pub board_h_px: usize,
    pub origin_x: usize,
    pub origin_y: usize,
}

/// The layout of a `width` by `height` screen: square cells as large as
/// leave room for eight more cells each way (at least eight pixels), and
/// the board centred.
#[verifier::opaque]
pub open spec fn layout_of(width: usize, height: usize) -> Layout {
    let a = width / 18;
    let b = height / 28;
    let m = if a <= b { a } else { b };
    let cell_px = if 8 >= m { 8 } else { m };
    Layout {
        width,
        height,
        cell_px,
        board_w_px: (10 * cell_px) as usize,
        board_h_px: (20 * cell_px) as usize,
        origin_x: sat_sub_spec(width, (10 * cell_px) as usize) / 2,
        origin_y: sat_sub_spec(height, (20 * cell_px) as usize) / 2,
    }
}

impl Layout {
    /// The layout of a screen, on which the lowest bar (24 pixels below the
    /// board) still has a row number within a `usize`.
    pub open spec fn wf(self) -> bool {
        &&& self == layout_of(self.width, self.height)
        &&& self.origin_y + self.board_h_px + 24 <= usize::MAX
    }
}

pub fn build_layout(width: usize, height: usize) -> (l: Layout)
    ensures
        l == layout_of(width, height),
        l.width == width,
        l.height == height,
{
    proof { reveal(layout_of); }
    // Room for eight more cells each way: 18 columns and 28 rows.
    let a = width / 18;
    let b = height / 28;
    let m = if a <= b { a } else { b };
    let cell_px = if 8 >= m { 8 } else { m };
    assert(10 * a <= width && 20 * b <= height);
    assert(cell_px == 8 || (cell_px <= a && cell_px <= b));
    let board_w_px = 10 * cell_px;
    let board_h_px = 20 * cell_px;
    let origin_x = (width.saturating_sub(board_w_px)) / 2;
    let origin_y = (height.saturating_sub(board_h_px)) / 2;
    Layout { width, height, cell_px, board_w_px, board_h_px, origin_x, origin_y }
}

pub proof fn lemma_layout_bounds(l: Layout)
    requires
        l.wf(),
    ensures
        8 <= l.cell_px,
        l.board_w_px == 10 * l.cell_px,
        l.board_h_px == 20 * l.cell_px,
        l.origin_x + l.board_w_px + 8 <= usize::MAX,
        l.origin_y + l.board_h_px + 24 <= usize::MAX,
{
    reveal(layout_of);
}

/// Every screen at most `usize::MAX - 24` pixels tall has a layout that can
/// be drawn.
pub proof fn lemma_layout_wf(width: usize, height: usize)
    requires
        height + 24 <= usize::MAX,
    ensures
        layout_of(width, height).wf(),
{
    reveal(layout_of);
}

/// The cells the screen shows: the board, with the falling piece on it
/// while the game runs.
pub open spec fn composed(g: GameView) -> Seq<u8> {
    if g.over {
        g.board
    } else {
        stamp(g.board, g.active, (g.active.kind + 1) as u8)
    }
}

/// Writes the cells the screen shows into `out`.
pub fn compose_cells(game: &Game, out: &mut [u8; BOARD_CELLS])
    requires
        game@.wf(),
    ensures
        final(out)@ == composed(game@),
{
    *out = game.board;
    if game.over {
        return;
    }
    proof {
        lemma_shape_offsets(game.active.kind as int, game.active.rot as int, 0);
        lemma_shape_offsets(game.active.kind as int, game.active.rot as int, 1);
        lemma_shape_offsets(game.active.kind as int, game.active.rot as int, 2);
        lemma_shape_offsets(game.active.kind as int, game.active.rot as int, 3);
    }
    lock_piece(out, &game.active);
}

/// The square of cell `(x, y)` in the colour of `value`, one pixel smaller
/// than the grid so that cells stay apart.
pub open spec fn cell_rect(l: Layout, x: int, y: int, value: u8) -> Rect {
    Rect {
        x: (l.origin_x + x * l.cell_px) as usize,
        y: (l.origin_y + y * l.cell_px) as usize,
        w: sat_sub_spec(l.cell_px, 1),
        h: sat_sub_spec(l.cell_px, 1),
        color: CELL_COLORS[value as int],
    }
}

fn make_cell_rect(layout: &Layout, x: i16, y: i16, value: u8) -> (r: Rect)
    requires
        layout.wf(),
        in_board(x as int, y as int),
        value < 8,
    ensures
        r == cell_rect(*layout, x as int, y as int, value),
{
    proof {
        lemma_layout_bounds(*layout);
        assert(x * layout.cell_px <= 9 * layout.cell_px) by (nonlinear_arith)
            requires 0 <= x < 10, 0 <= layout.cell_px;
        assert(y * layout.cell_px <= 19 * layout.cell_px) by (nonlinear_arith)
            requires 0 <= y < 20, 0 <= layout.cell_px;
    }
    Rect {
        x: layout.origin_x + x as usize * layout.cell_px,
        y: layout.origin_y + y as usize * layout.cell_px,
        w: layout.cell_px.saturating_sub(1),
        h: layout.cell_px.saturating_sub(1),
        color: CELL_COLORS[value as usize],
    }
}

/// Draws cell `(x, y)` of the board in the colour of `value`.
pub fn draw_cell(framebuffer: &mut [u8], layout: &Layout, x: i16, y: i16, value: u8)
    requires
        layout.wf(),
        in_board(x as int, y as int),
        value < 8,
        ({
            let r = cell_rect(*layout, x as int, y as int, value);
            fill_rect_fits(layout.width as int, r.x as int, r.y as int, r.w as int, r.h as int)
        }),
    ensures
        ({
            let r = cell_rect(*layout, x as int, y as int, value);
            final(framebuffer)@ == fill_rect_spec(
                old(framebuffer)@,
                layout.width as int,
                r.x as int,
                r.y as int,
                r.w as int,
                r.h as int,
                r.color,
            )
        }),
{
    let r = make_cell_rect(layout, x, y, value);
    fill_rect(framebuffer, layout.width, r.x, r.y, r.w, r.h, r.color);
}

/// What the screen showed when it was last drawn.
#[derive(Clone, Copy, Debug)]
pub struct RenderState {
    pub initialized: bool,
    pub prev_cells: [u8; BOARD_CELLS],
    pub prev_mode: u8,
    pub prev_score: usize,
    pub prev_level: usize,
    pub prev_over: bool,
}

impl RenderState {
    /// Nothing drawn yet.
    pub fn new() -> (st: Self)
        ensures
            !st.initialized,
            st.prev_cells@ == Seq::new(BOARD_CELLS as nat, |i: int| 0u8),
            st.prev_mode == 0,
            st.prev_score == 0,
            st.prev_level == 0,
            !st.prev_over,
    {
        let st = Self {
            initialized: false,
            prev_cells: [0; BOARD_CELLS],
            prev_mode: 0,
            prev_score: 0,
            prev_level: 0,
            prev_over: false,
        };
        assert(st.prev_cells@ =~= Seq::new(BOARD_CELLS as nat, |i: int| 0u8));
        st
    }
}

/// The cells before `n` that need drawing: all of them on the first frame,
/// afterwards those that changed.
pub open spec fn cells_rects(l: Layout, cur: Seq<u8>, prev: Seq<u8>, init: bool, n: int) -> Seq<Rect>
    decreases n,
{
    if n <= 0 {
        seq![]
    } else {
        let k = n - 1;
        let rest = cells_rects(l, cur, prev, init, k);
        if !init || prev[k] != cur[k] {
            rest.push(cell_rect(l, k % 10, k / 10, cur[k]))
        } else {
            rest
        }
    }
}

pub open spec fn min_of(a: int, b: int) -> int {
    if a <= b {
        a
    } else {
        b
    }
}

/// A bar that only grows: drawn whole on the first frame, afterwards only
/// the part that is new.
pub open spec fn bar_rects(x: int, y: int, bar: int, prev_bar: int, init: bool, color: u32) -> Seq<Rect> {
    if !init {
        if bar > 0 {
            seq![Rect { x: x as usize, y: y as usize, w: bar as usize, h: 8, color }]
        } else {
            seq![]
        }
    } else if bar > prev_bar {
        seq![Rect { x: (x + prev_bar) as usize, y: y as usize, w: (bar - prev_bar) as usize, h: 8, color }]
    } else {
        seq![]
    }
}

/// The background, the border and the empty board, on the first frame.
pub open spec fn frame_part(l: Layout, init: bool) -> Seq<Rect> {
    if !init {
        seq![
            Rect { x: 0, y: 0, w: l.width, h: l.height, color: COLOR_BG },
            Rect { x: sat_sub_spec(l.origin_x, 4), y: sat_sub_spec(l.origin_y, 4), w: (l.board_w_px + 8) as usize, h: (l.board_h_px + 8) as usize, color: COLOR_BORDER },
            Rect { x: l.origin_x, y: l.origin_y, w: l.board_w_px, h: l.board_h_px, color: COLOR_BOARD_BG },
        ]
    } else {
        seq![]
    }
}

/// The bar that shows the input mode, when it changed.
#[verifier::opaque]
pub open spec fn mode_part(mode: InputMode, st: RenderState, l: Layout) -> Seq<Rect> {
    if !st.initialized || st.prev_mode != spec_mode_id(mode) {
        seq![Rect { x: l.origin_x, y: sat_sub_spec(l.origin_y, 24), w: l.board_w_px, h: 10, color: spec_mode_color(mode) }]
    } else {
        seq![]
    }
}

/// The score bar: a pixel per twenty points, at most as wide as the board.
#[verifier::opaque]
pub open spec fn score_part(g: GameView, st: RenderState, l: Layout) -> Seq<Rect> {
    let bw = l.board_w_px as int;
    bar_rects(
        l.origin_x as int,
        l.origin_y + l.board_h_px + 12,
        min_of(bw, (g.score / 20) as int),
        min_of(bw, (st.prev_score / 20) as int),
        st.initialized,
        COLOR_SCORE,
    )
}

/// The level bar: a cell per level, at most as wide as the board.
#[verifier::opaque]
pub open spec fn level_part(g: GameView, st: RenderState, l: Layout) -> Seq<Rect> {
    let bw = l.board_w_px as int;
    bar_rects(
        l.origin_x as int,
        l.origin_y + l.board_h_px + 24,
        min_of(bw, sat_mul_spec(g.level, l.cell_px) as int),
        min_of(bw, sat_mul_spec(st.prev_level, l.cell_px) as int),
        st.initialized,
        COLOR_LEVEL,
    )
}

/// The band across the board while the game is over, erased after.
#[verifier::opaque]
pub open spec fn over_part(g: GameView, st: RenderState, l: Layout) -> Seq<Rect> {
    let y = (l.origin_y + l.board_h_px / 2 - 6) as usize;
    if g.over || g.quit {
        seq![Rect { x: l.origin_x, y, w: l.board_w_px, h: 12, color: COLOR_OVERLAY }]
    } else if st.prev_over {
        seq![Rect { x: l.origin_x, y, w: l.board_w_px, h: 12, color: COLOR_BOARD_BG }]
    } else {
        seq![]
    }
}

/// The mode bar, the score and level bars and the game-over band.
pub open spec fn status_part(g: GameView, mode: InputMode, st: RenderState, l: Layout) -> Seq<Rect> {
    mode_part(mode, st, l) + score_part(g, st, l) + level_part(g, st, l) + over_part(g, st, l)
}

/// Everything a frame draws, in order.
pub open spec fn render_rects(g: GameView, mode: InputMode, st: RenderState, l: Layout) -> Seq<Rect> {
    frame_part(l, st.initialized) + cells_rects(l, composed(g), st.prev_cells@, st.initialized, BOARD_CELLS as int)
        + status_part(g, mode, st, l)
}

fn push_cells_rects(plan: &mut Vec<Rect>, layout: &Layout, cur: &[u8; BOARD_CELLS], state: &RenderState)
    requires
        layout.wf(),
        forall|j: int| 0 <= j < BOARD_CELLS ==> #[trigger] cur@[j] <= 7,
    ensures
        final(plan)@ == old(plan)@ + cells_rects(*layout, cur@, state.prev_cells@, state.initialized, BOARD_CELLS as int),
{
    let ghost start = plan@;
    let mut idx: usize = 0;
    while idx < BOARD_CELLS
        invariant
            0 <= idx <= BOARD_CELLS,
            layout.wf(),
            forall|j: int| 0 <= j < BOARD_CELLS ==> #[trigger] cur@[j] <= 7,
            plan@ == start + cells_rects(*layout, cur@, state.prev_cells@, state.initialized, idx as int),
        decreases BOARD_CELLS - idx,
    {
        let value = cur[idx];
        if !state.initialized || state.prev_cells[idx] != value {
            let x = (idx % 10) as i16;
            let y = (idx / 10) as i16;
            let r = make_cell_rect(layout, x, y, value);
            plan.push(r);
        }
        assert(plan@ =~= start + cells_rects(*layout, cur@, state.prev_cells@, state.initialized, idx + 1));
        idx += 1;
    }
}

fn push_bar(plan: &mut Vec<Rect>, x: usize, y: usize, bar: usize, prev_bar: usize, init: bool, color: u32)
    requires
        x + bar <= usize::MAX,
    ensures
        final(plan)@ == old(plan)@ + bar_rects(x as int, y as int, bar as int, prev_bar as int, init, color),
{
    if !init {
        if bar > 0 {
            plan.push(Rect { x, y, w: bar, h: 8, color });
        }
    } else if bar > prev_bar {
        plan.push(Rect { x: x + prev_bar, y, w: bar - prev_bar, h: 8, color });
    }
    assert(plan@ =~= old(plan)@ + bar_rects(x as int, y as int, bar as int, prev_bar as int, init, color));
}

fn push_frame_part(plan: &mut Vec<Rect>, layout: &Layout, init: bool)
    requires
        layout.wf(),
    ensures
        final(plan)@ == old(plan)@ + frame_part(*layout, init),
{
    proof { lemma_layout_bounds(*layout); }
    let ox = layout.origin_x;
    let oy = layout.origin_y;
    let bw = layout.board_w_px;
    let bh = layout.board_h_px;
    if !init {
        plan.push(Rect { x: 0, y: 0, w: layout.width, h: layout.height, color: COLOR_BG });
        plan.push(Rect { x: ox.saturating_sub(4), y: oy.saturating_sub(4), w: bw + 8, h: bh + 8, color: COLOR_BORDER });
        plan.push(Rect { x: ox, y: oy, w: bw, h: bh, color: COLOR_BOARD_BG });
    }
    assert(plan@ =~= old(plan)@ + frame_part(*layout, init));
}

fn push_status_part(plan: &mut Vec<Rect>, game: &Game, mode: InputMode, state: &RenderState, layout: &Layout)
    requires
        layout.wf(),
    ensures
        final(plan)@ == old(plan)@ + status_part(game@, mode, *state, *layout),
{
    let ghost p0 = plan@;
    push_mode_part(plan, mode, state, layout);
    let ghost p1 = plan@;
    push_score_part(plan, game, state, layout);
    let ghost p2 = plan@;
    push_level_part(plan, game, state, layout);
    let ghost p3 = plan@;
    push_over_part(plan, game, state, layout);
    let ghost m = mode_part(mode, *state, *layout);
    let ghost sc = score_part(game@, *state, *layout);
    let ghost lv = level_part(game@, *state, *layout);
    let ghost ov = over_part(game@, *state, *layout);
    assert(plan@ =~= p0 + (m + sc + lv + ov));
}

fn push_mode_part(plan: &mut Vec<Rect>, mode: InputMode, state: &RenderState, layout: &Layout)
    requires
        layout.wf(),
    ensures
        final(plan)@ == old(plan)@ + mode_part(mode, *state, *layout),
{
    proof { reveal(mode_part); }
    proof { lemma_layout_bounds(*layout); }
    if !state.initialized || state.prev_mode != mode_id(mode) {
        plan.push(Rect { x: layout.origin_x, y: layout.origin_y.saturating_sub(24), w: layout.board_w_px, h: 10, color: mode_color(mode) });
    }
    assert(plan@ =~= old(plan)@ + mode_part(mode, *state, *layout));
}

fn push_score_part(plan: &mut Vec<Rect>, game: &Game, state: &RenderState, layout: &Layout)
    requires
        layout.wf(),
    ensures
        final(plan)@ == old(plan)@ + score_part(game@, *state, *layout),
{
    proof { reveal(score_part); }
    proof { lemma_layout_bounds(*layout); }
    let bw = layout.board_w_px;
    let score_bar = if bw <= game.score / 20 { bw } else { game.score / 20 };
    let prev_score_bar = if bw <= state.prev_score / 20 { bw } else { state.prev_score / 20 };
    push_bar(plan, layout.origin_x, layout.origin_y + layout.board_h_px + 12, score_bar, prev_score_bar, state.initialized, COLOR_SCORE);
}

fn push_level_part(plan: &mut Vec<Rect>, game: &Game, state: &RenderState, layout: &Layout)
    requires
        layout.wf(),
    ensures
        final(plan)@ == old(plan)@ + level_part(game@, *state, *layout),
{
    proof { reveal(level_part); }
    proof { lemma_layout_bounds(*layout); }
    let bw = layout.board_w_px;
    let lv = saturating_mul(game.level, layout.cell_px);
    let plv = saturating_mul(state.prev_level, layout.cell_px);
    let level_bar = if bw <= lv { bw } else { lv };
    let prev_level_bar = if bw <= plv { bw } else { plv };
    push_bar(plan, layout.origin_x, layout.origin_y + layout.board_h_px + 24, level_bar, prev_level_bar, state.initialized, COLOR_LEVEL);
}

fn push_over_part(plan: &mut Vec<Rect>, game: &Game, state: &RenderState, layout: &Layout)
    requires
        layout.wf(),
    ensures
        final(plan)@ == old(plan)@ + over_part(game@, *state, *layout),
{
    proof { reveal(over_part); }
    proof { lemma_layout_bounds(*layout); }
    let y = layout.origin_y + layout.board_h_px / 2 - 6;
    if game.over || game.quit {
        plan.push(Rect { x: layout.origin_x, y, w: layout.board_w_px, h: 12, color: COLOR_OVERLAY });
    } else if state.prev_over {
        plan.push(Rect { x: layout.origin_x, y, w: layout.board_w_px, h: 12, color: COLOR_BOARD_BG });
    }
    assert(plan@ =~= old(plan)@ + over_part(game@, *state, *layout));
}

/// The rectangles of one frame and the cells it shows.
pub fn render_plan(game: &Game, mode: InputMode, state: &RenderState, layout: &Layout) -> (res: (Vec<Rect>, [u8; BOARD_CELLS]))
    requires
        game@.wf(),
        layout.wf(),
    ensures
        res.0@ == render_rects(game@, mode, *state, *layout),
        res.1@ == composed(game@),
{
    let mut plan: Vec<Rect> = Vec::new();
    push_frame_part(&mut plan, layout, state.initialized);
    assert(plan@ =~= frame_part(*layout, state.initialized));
    let mut cur_cells = [0u8; BOARD_CELLS];
    compose_cells(game, &mut cur_cells);
    proof {
        let stamped = stamp(game@.board, game@.active, (game@.active.kind + 1) as u8);
        assert forall|j: int| 0 <= j < BOARD_CELLS implies #[trigger] cur_cells@[j] <= 7 by {
            if !game.over {
                assert(cur_cells@[j] == stamped[j]);
            }
        }
    }
    push_cells_rects(&mut plan, layout, &cur_cells, state);
    push_status_part(&mut plan, game, mode, state, layout);
    (plan, cur_cells)
}

/// What a frame remembers of the game it drew.
pub open spec fn rendered_state(g: GameView, mode: InputMode, st: RenderState) -> bool {
    &&& st.initialized
    &&& st.prev_cells@ == composed(g)
    &&& st.prev_mode == spec_mode_id(mode)
    &&& st.prev_score == g.score
    &&& st.prev_level == g.level
    &&& st.prev_over == (g.over || g.quit)
}

proof fn lemma_small_layout(l: Layout)
    requires
        l.wf(),
        l.width <= SMALL_SIDE,
        l.height <= SMALL_SIDE,
    ensures
        8 <= l.cell_px <= 73,
        l.board_w_px == 10 * l.cell_px,
        l.board_h_px == 20 * l.cell_px,
        l.origin_x <= 1024,
        l.origin_y <= 1024,
{
    reveal(layout_of);
}

proof fn lemma_cells_rects_small(l: Layout, cur: Seq<u8>, prev: Seq<u8>, init: bool, n: int)
    requires
        l.wf(),
        l.width <= SMALL_SIDE,
        l.height <= SMALL_SIDE,
        n <= BOARD_CELLS,
    ensures
        rects_small(cells_rects(l, cur, prev, init, n)),
    decreases n,
{
    if n > 0 {
        let k = n - 1;
        lemma_cells_rects_small(l, cur, prev, init, k);
        lemma_small_layout(l);
        assert((k % 10) * l.cell_px <= 9 * 73) by (nonlinear_arith)
            requires 0 <= k % 10 <= 9, l.cell_px <= 73;
        assert((k / 10) * l.cell_px <= 19 * 73) by (nonlinear_arith)
            requires 0 <= k / 10 <= 19, l.cell_px <= 73;
        assert(rect_small(cell_rect(l, k % 10, k / 10, cur[k])));
    }
}

/// On a screen no larger than `SMALL_SIDE` a side, every frame can be
/// drawn within machine integers, so `render_gui` can always be called.
pub proof fn lemma_render_fits(g: GameView, mode: InputMode, st: RenderState, width: usize, height: usize)
    requires
        width <= SMALL_SIDE,
        height <= SMALL_SIDE,
    ensures
        rects_fit(width as int, render_rects(g, mode, st, layout_of(width, height))),
{
    let l = layout_of(width, height);
    reveal(layout_of);
    assert(l.wf());
    lemma_small_layout(l);
    reveal(mode_part);
    reveal(score_part);
    reveal(level_part);
    reveal(over_part);
    let frame = frame_part(l, st.initialized);
    let cells = cells_rects(l, composed(g), st.prev_cells@, st.initialized, BOARD_CELLS as int);
    lemma_cells_rects_small(l, composed(g), st.prev_cells@, st.initialized, BOARD_CELLS as int);
    assert(rects_small(frame));
    assert(rects_small(mode_part(mode, st, l)));
    assert(rects_small(score_part(g, st, l)));
    assert(rects_small(level_part(g, st, l)));
    assert(rects_small(over_part(g, st, l)));
    lemma_rects_small_concat(mode_part(mode, st, l), score_part(g, st, l));
    lemma_rects_small_concat(mode_part(mode, st, l) + score_part(g, st, l), level_part(g, st, l));
    lemma_rects_small_concat(
        mode_part(mode, st, l) + score_part(g, st, l) + level_part(g, st, l),
        over_part(g, st, l),
    );
    lemma_rects_small_concat(frame, cells);
    lemma_rects_small_concat(frame + cells, status_part(g, mode, st, l));
    lemma_small_rects_fit(width as int, render_rects(g, mode, st, l));
}

/// Draws one frame into a `width` by `height` framebuffer, redrawing only
/// what changed since the last frame, and remembers what it drew.
pub fn render_gui(
    game: &Game,
    mode: InputMode,
    state: &mut RenderState,
    framebuffer: &mut [u8],
    width: usize,
    height: usize,
)
    requires
        game@.wf(),
        layout_of(width, height).wf(),
        rects_fit(width as int, render_rects(game@, mode, *old(state), layout_of(width, height))),
    ensures
        final(framebuffer)@ == paint_spec(
            old(framebuffer)@,
            width as int,
            render_rects(game@, mode, *old(state), layout_of(width, height)),
        ),
        rendered_state(game@, mode, *final(state)),
{
    let layout = build_layout(width, height);
    assert(*state == *old(state));
    let (plan, cur_cells) = render_plan(game, mode, state, &layout);
    paint(framebuffer, layout.width, &plan);
    state.prev_cells = cur_cells;
    state.prev_mode = mode_id(mode);
    state.prev_score = game.score;
    state.prev_level = game.level;
    state.prev_over = game.over || game.quit;
    state.initialized = true;
}

} // verus!
