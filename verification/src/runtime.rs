//! The decisions of the user runtime that sit between system calls: the
//! clock arithmetic of `sleep` and `get_time`, the framebuffer registers,
//! path and flag handling for `open`, the bump allocator's step, trace
//! results and the loops of the pipe transfers. Issuing the calls is left
//! to the caller.
use vstd::prelude::*;

verus! {

/// One billion: nanoseconds in a second.
pub const NANOS_PER_SEC: usize = 1_000_000_000;

/// A time of the kernel's monotonic clock: seconds and nanoseconds.
#[derive(Clone, Copy, Debug, PartialEq, Eq)]
pub struct ClockTime {
    pub tv_sec: usize,
    pub tv_nsec: usize,
}

/// `ms` milliseconds as seconds and nanoseconds.
pub open spec fn millis_spec(ms: usize) -> ClockTime {
    ClockTime { tv_sec: (ms / 1000) as usize, tv_nsec: ((ms % 1000) * 1_000_000) as usize }
}

/// Whether `a + b` can be computed: neither field overflows, counting the
/// carry of one second.
pub open spec fn sum_fits(a: ClockTime, b: ClockTime) -> bool {
    &&& a.tv_sec + b.tv_sec <= usize::MAX
    &&& a.tv_nsec + b.tv_nsec <= usize::MAX
    &&& a.tv_nsec + b.tv_nsec > NANOS_PER_SEC ==> a.tv_sec + b.tv_sec + 1 <= usize::MAX
}

/// The sum of two times: fields added, and one second carried when the
/// nanoseconds exceed a second.
pub open spec fn sum_spec(a: ClockTime, b: ClockTime) -> ClockTime {
    if a.tv_nsec + b.tv_nsec > NANOS_PER_SEC {
        ClockTime {
            tv_sec: (a.tv_sec + b.tv_sec + 1) as usize,
            tv_nsec: (a.tv_nsec + b.tv_nsec - NANOS_PER_SEC) as usize,
        }
    } else {
        ClockTime { tv_sec: (a.tv_sec + b.tv_sec) as usize, tv_nsec: (a.tv_nsec + b.tv_nsec) as usize }
    }
}

/// Whether `a` comes after `b`: seconds first, then nanoseconds.
pub open spec fn later_spec(a: ClockTime, b: ClockTime) -> bool {
    a.tv_sec > b.tv_sec || (a.tv_sec == b.tv_sec && a.tv_nsec > b.tv_nsec)
}

/// `tg_syscall::TimeSpec::from_millsecond`: its source divides the
/// milliseconds by 1000 for the seconds and turns the remainder into
/// nanoseconds.
#[verifier::external_body]
fn timespec_from_millis(ms: usize) -> (t: ClockTime)
    ensures
        t == millis_spec(ms),
{
    let t = tg_syscall::TimeSpec::from_millsecond(ms);
    ClockTime { tv_sec: t.tv_sec, tv_nsec: t.tv_nsec }
}

/// `Add` of `tg_syscall::TimeSpec`: its source adds the fields and, when the
/// nanoseconds exceed one second, carries one second. Inputs on which a
/// field would overflow are left out.
#[verifier::external_body]
fn timespec_add(a: ClockTime, b: ClockTime) -> (t: ClockTime)
    requires
        sum_fits(a, b),
    ensures
        t == sum_spec(a, b),
{
    let x = tg_syscall::TimeSpec { tv_sec: a.tv_sec, tv_nsec: a.tv_nsec };
    let y = tg_syscall::TimeSpec { tv_sec: b.tv_sec, tv_nsec: b.tv_nsec };
    let t = x + y;
    ClockTime { tv_sec: t.tv_sec, tv_nsec: t.tv_nsec }
}

/// `>` of `tg_syscall::TimeSpec`, whose `PartialOrd` is derived: the
/// documented derived order compares the fields in declaration order,
/// seconds before nanoseconds.
#[verifier::external_body]
fn timespec_later(a: ClockTime, b: ClockTime) -> (r: bool)
    ensures
        r == later_spec(a, b),
{
    let x = tg_syscall::TimeSpec { tv_sec: a.tv_sec, tv_nsec: a.tv_nsec };
    let y = tg_syscall::TimeSpec { tv_sec: b.tv_sec, tv_nsec: b.tv_nsec };
    x > y
}

/// The time at which a sleep of `period_ms` milliseconds begun at `now`
/// ends.
pub fn sleep_deadline(now: ClockTime, period_ms: usize) -> (d: ClockTime)
    requires
        sum_fits(now, millis_spec(period_ms)),
    ensures
        d == sum_spec(now, millis_spec(period_ms)),
{
    let period = timespec_from_millis(period_ms);
    timespec_add(now, period)
}

/// Whether a sleep that ends at `deadline` is over at `now`: only once the
/// clock has passed the deadline.
pub fn sleep_finished(now: ClockTime, deadline: ClockTime) -> (done: bool)
    ensures
        done == later_spec(now, deadline),
{
    timespec_later(now, deadline)
}

/// A sleep of a positive period is never over at the time it begins.
pub proof fn lemma_sleep_waits(now: ClockTime, period_ms: usize)
    requires
        period_ms > 0,
        sum_fits(now, millis_spec(period_ms)),
    ensures
        later_spec(sum_spec(now, millis_spec(period_ms)), now),
        !later_spec(now, sum_spec(now, millis_spec(period_ms))),
{
}

/// The clock reading in milliseconds, as `get_time` reports it (the cast
/// to `isize` wraps as Rust's `as` does).
pub fn clock_millis(t: ClockTime) -> (ms: isize)
    requires
        t.tv_sec * 1000 + t.tv_nsec / 1_000_000 <= usize::MAX,
    ensures
        ms == (t.tv_sec * 1000 + t.tv_nsec / 1_000_000) as isize,
{
    (t.tv_sec * 1000 + t.tv_nsec / 1_000_000) as isize
}

/// The framebuffer as the kernel describes it in registers: its address,
/// its length in bytes and its size in pixels; `None` when the address is
/// not positive or any of the three others is zero.
pub fn framebuffer_info(ptr: isize, len: usize, width: usize, height: usize) -> (info: Option<(usize, usize, usize, usize)>)
    ensures
        info == if ptr <= 0 || len == 0 || width == 0 || height == 0 {
            None::<(usize, usize, usize, usize)>
        } else {
            Some((ptr as usize, len, width, height))
        },
{
    if ptr <= 0 || len == 0 || width == 0 || height == 0 {
        None
    } else {
        Some((ptr as usize, len, width, height))
    }
}

/// The byte that one non-blocking read of the console gave: a byte only
/// when the read returned 1.
pub fn poll_result(ret: isize, byte: u8) -> (c: Option<u8>)
    ensures
        c == if ret == 1 { Some(byte) } else { None::<u8> },
{
    if ret == 1 {
        Some(byte)
    } else {
        None
    }
}

/// A path separator: `/` or `\`.
pub open spec fn is_sep(b: u8) -> bool {
    b == 0x2f || b == 0x5c
}

/// Where a path starts once its leading `./` pairs are skipped, counted
/// from `i`.
pub open spec fn skip_dot_slash(raw: Seq<u8>, i: int) -> int
    decreases raw.len() - i,
{
    if 0 <= i && i + 1 < raw.len() && raw[i] == 0x2e && raw[i + 1] == 0x2f {
        skip_dot_slash(raw, i + 2)
    } else {
        i
    }
}

/// Where a path starts once its leading separators are skipped, counted
/// from `i`.
pub open spec fn skip_seps(raw: Seq<u8>, i: int) -> int
    decreases raw.len() - i,
{
    if 0 <= i && i < raw.len() && is_sep(raw[i]) {
        skip_seps(raw, i + 1)
    } else {
        i
    }
}

/// Where the last path component starts at or after `start`: just after
/// the last separator, or at `start` when there is none.
pub open spec fn name_start(raw: Seq<u8>, start: int) -> int {
    if exists|k: int| start <= k < raw.len() && is_sep(#[trigger] raw[k]) {
        let k = choose|k: int| start <= k < raw.len() && is_sep(#[trigger] raw[k])
            && forall|j: int| k < j < raw.len() ==> !is_sep(#[trigger] raw[j]);
        k + 1
    } else {
        start
    }
}

/// The offset in `raw` of the file name that `open` and `unlink` pass to
/// the kernel: leading `./` pairs and then leading separators are skipped,
/// and only what follows the last separator is kept; `None` when that is
/// empty.
pub open spec fn file_name_start(raw: Seq<u8>) -> Option<usize> {
    let s = name_start(raw, skip_seps(raw, skip_dot_slash(raw, 0)));
    if s >= raw.len() {
        None
    } else {
        Some(s as usize)
    }
}

proof fn lemma_skip_dot_slash_range(raw: Seq<u8>, i: int)
    requires
        0 <= i <= raw.len(),
    ensures
        i <= skip_dot_slash(raw, i) <= raw.len(),
    decreases raw.len() - i,
{
    if i + 1 < raw.len() && raw[i] == 0x2e && raw[i + 1] == 0x2f {
        lemma_skip_dot_slash_range(raw, i + 2);
    }
}

proof fn lemma_skip_seps_range(raw: Seq<u8>, i: int)
    requires
        0 <= i <= raw.len(),
    ensures
        i <= skip_seps(raw, i) <= raw.len(),
    decreases raw.len() - i,
{
    if i < raw.len() && is_sep(raw[i]) {
        lemma_skip_seps_range(raw, i + 1);
    }
}

proof fn lemma_last_sep(raw: Seq<u8>, start: int, hi: int)
    requires
        0 <= start <= hi <= raw.len(),
        exists|k: int| start <= k < hi && is_sep(#[trigger] raw[k]),
    ensures
        exists|k: int| start <= k < hi && is_sep(#[trigger] raw[k])
            && forall|j: int| k < j < hi ==> !is_sep(#[trigger] raw[j]),
    decreases hi,
{
    if is_sep(raw[hi - 1]) {
        assert(start <= hi - 1 < hi && is_sep(raw[hi - 1]) && forall|j: int| hi - 1 < j < hi ==> !is_sep(#[trigger] raw[j]));
    } else {
        let k = choose|k: int| start <= k < hi && is_sep(#[trigger] raw[k]);
        assert(k < hi - 1);
        lemma_last_sep(raw, start, hi - 1);
        let w = choose|w: int| start <= w < hi - 1 && is_sep(#[trigger] raw[w])
            && forall|j: int| w < j < hi - 1 ==> !is_sep(#[trigger] raw[j]);
        assert(forall|j: int| w < j < hi ==> !is_sep(#[trigger] raw[j]));
    }
}

proof fn lemma_name_start_plain(raw: Seq<u8>, st: int)
    requires
        0 <= st <= raw.len(),
    ensures
        st <= name_start(raw, st) <= raw.len(),
        forall|k: int| name_start(raw, st) <= k < raw.len() ==> !is_sep(#[trigger] raw[k]),
{
    if exists|k: int| st <= k < raw.len() && is_sep(#[trigger] raw[k]) {
        lemma_last_sep(raw, st, raw.len() as int);
        let c = choose|k: int| st <= k < raw.len() && is_sep(#[trigger] raw[k])
            && forall|j: int| k < j < raw.len() ==> !is_sep(#[trigger] raw[j]);
        assert(name_start(raw, st) == c + 1);
    }
}

/// The file name handed to the kernel is never empty and holds no
/// separator.
pub proof fn lemma_file_name_plain(raw: Seq<u8>)
    requires
        raw.len() <= usize::MAX,
        file_name_start(raw) is Some,
    ensures
        file_name_start(raw)->0 < raw.len(),
        forall|k: int| file_name_start(raw)->0 <= k < raw.len() ==> !is_sep(#[trigger] raw[k]),
{
    let s1 = skip_dot_slash(raw, 0);
    lemma_skip_dot_slash_range(raw, 0);
    let st = skip_seps(raw, s1);
    lemma_skip_seps_range(raw, s1);
    lemma_name_start_plain(raw, st);
    assert(file_name_start(raw)->0 == name_start(raw, st));
}

/// Finds where the file name of the path `raw` starts; see
/// `file_name_start`.
pub fn path_file_name(raw: &[u8]) -> (r: Option<usize>)
    ensures
        r == file_name_start(raw@),
{
    let n = raw.len();
    let mut start: usize = 0;
    while n - start > 1 && raw[start] == 0x2e && raw[start + 1] == 0x2f
        invariant
            n == raw@.len(),
            start <= n,
            skip_dot_slash(raw@, start as int) == skip_dot_slash(raw@, 0),
        decreases n - start,
    {
        start = start + 2;
    }
    let ghost s1 = start as int;
    while start < n && (raw[start] == 0x2f || raw[start] == 0x5c)
        invariant
            n == raw@.len(),
            s1 <= start <= n,
            s1 == skip_dot_slash(raw@, 0),
            skip_seps(raw@, start as int) == skip_seps(raw@, s1),
        decreases n - start,
    {
        start = start + 1;
    }
    let ghost s2 = start as int;
    assert(s2 == skip_seps(raw@, skip_dot_slash(raw@, 0)));
    // Search backwards for the last separator at or after `start`.
    let mut i: usize = n;
    let mut found = false;
    while i > start && !found
        invariant
            n == raw@.len(),
            start == s2,
            start <= i <= n,
            found ==> i > start && is_sep(raw@[i - 1]),
            forall|j: int| i <= j < n ==> !is_sep(#[trigger] raw@[j]),
        decreases i, if found { 0int } else { 1int },
    {
        if raw[i - 1] == 0x2f || raw[i - 1] == 0x5c {
            found = true;
        } else {
            i = i - 1;
        }
    }
    let name = if found { i } else { start };
    proof {
        if found {
            let k = (i - 1) as int;
            assert(is_sep(raw@[k]));
            assert(start <= k < raw@.len());
            let c = choose|k: int| start <= k < raw@.len() && is_sep(#[trigger] raw@[k])
                && forall|j: int| k < j < raw@.len() ==> !is_sep(#[trigger] raw@[j]);
            assert(start <= k < raw@.len() && is_sep(raw@[k])
                && forall|j: int| k < j < raw@.len() ==> !is_sep(#[trigger] raw@[j]));
            if c < k {
                assert(!is_sep(raw@[k]));
            }
            if c > k {
                assert(!is_sep(raw@[c]));
            }
            assert(name_start(raw@, s2) == k + 1);
        } else {
            assert(i == start);
            assert(!exists|k: int| start <= k < raw@.len() && is_sep(#[trigger] raw@[k]));
            assert(name_start(raw@, s2) == s2);
        }
    }
    if name >= n {
        None
    } else {
        Some(name)
    }
}

/// The bits of every flag that `tg_syscall::OpenFlags` defines: write-only,
/// read-write, create and truncate (read-only is no bit).
pub const OPEN_FLAGS_ALL: u32 = 0x603;

/// `tg_syscall::OpenFlags::from_bits` (bitflags): its source accepts the
/// bits exactly when none lies outside the defined flags, and keeps them
/// as they are.
#[verifier::external_body]
fn open_flags_from_bits(bits: u32) -> (flags: Option<u32>)
    ensures
        flags == if bits & !OPEN_FLAGS_ALL == 0 { Some(bits) } else { None::<u32> },
{
    match tg_syscall::OpenFlags::from_bits(bits) {
        Some(f) => Some(f.bits()),
        None => None,
    }
}

/// The flags that `open` passes on for the C-style `flags`: the same bits
/// when they are all known flags, read-only (no bit) otherwise.
pub fn open_flags(flags: i32) -> (bits: u32)
    ensures
        bits == if (flags as u32) & !OPEN_FLAGS_ALL == 0 { flags as u32 } else { 0u32 },
{
    match open_flags_from_bits(flags as u32) {
        Some(b) => b,
        None => 0,
    }
}

/// A C-style file descriptor as the kernel takes it: `None` (the call
/// answers -1) when it is negative.
pub fn descriptor(fd: i32) -> (r: Option<usize>)
    ensures
        r == if fd < 0 { None::<usize> } else { Some(fd as usize) },
{
    if fd < 0 {
        None
    } else {
        Some(fd as usize)
    }
}

/// The size of the bump allocator's arena: 16 MiB.
pub const ALLOC_ARENA_SIZE: usize = 0x100_0000;
/// The alignment of every block it hands out.
pub const ALLOC_ALIGN: usize = 8;

/// `offset` rounded up to a multiple of the alignment.
pub open spec fn align_up(offset: int) -> int {
    (offset + 7) / 8 * 8
}

/// One allocation of `size` bytes (at least one) from an arena whose first
/// `offset` bytes are taken: the block's start, aligned, and the new
/// offset just past it; `None` when the arena has no room.
pub open spec fn alloc_spec(offset: usize, size: usize) -> Option<(usize, usize)> {
    let req = if size == 0 { 1 } else { size as int };
    let start = align_up(offset as int);
    if start + req > ALLOC_ARENA_SIZE {
        None
    } else {
        Some((start as usize, (start + req) as usize))
    }
}

/// The allocator's step for a request of `size` bytes at arena offset
/// `offset` (which never exceeds the arena): where the block starts and
/// what the offset becomes, or `None` (a null pointer) when it does not fit.
pub fn alloc_step(offset: usize, size: usize) -> (r: Option<(usize, usize)>)
    requires
        offset <= ALLOC_ARENA_SIZE,
    ensures
        r == alloc_spec(offset, size),
{
    let req = if size > 1 { size } else { 1 };
    let mask: usize = ALLOC_ALIGN - 1;
    let sum: usize = offset + mask;
    let aligned = sum & !mask;
    assert(aligned == (sum + 0) / 8 * 8) by (bit_vector)
        requires
            mask == 7,
            aligned == sum & !mask,
    ;
    match aligned.checked_add(req) {
        None => None,
        Some(next) => {
            if next > ALLOC_ARENA_SIZE {
                None
            } else {
                Some((aligned, next))
            }
        },
    }
}

/// Every block the allocator hands out is aligned, lies inside the arena
/// past what was taken before, and the next block starts no earlier than
/// where this one ends: blocks handed out one after another never overlap.
pub proof fn lemma_alloc_disjoint(offset: usize, size1: usize, size2: usize)
    requires
        offset <= ALLOC_ARENA_SIZE,
        alloc_spec(offset, size1) is Some,
    ensures
        ({
            let (start1, end1) = alloc_spec(offset, size1)->0;
            &&& start1 % 8 == 0
            &&& offset <= start1 < end1 <= ALLOC_ARENA_SIZE
            &&& end1 - start1 >= size1
            &&& (alloc_spec(end1, size2) matches Some((start2, end2)) ==> end1 <= start2 < end2)
        }),
{
    let (start1, end1) = alloc_spec(offset, size1)->0;
    assert(align_up(offset as int) % 8 == 0 && align_up(offset as int) >= offset) by (nonlinear_arith)
        requires
            offset >= 0,
    ;
    assert(align_up(end1 as int) >= end1) by (nonlinear_arith)
        requires
            end1 >= 0,
    ;
}

/// The byte that a trace read returned: only a result from 0 to 255 is one.
pub fn trace_read_result(ret: isize) -> (b: Option<u8>)
    ensures
        b == if 0 <= ret <= 255 { Some(ret as u8) } else { None::<u8> },
{
    if ret >= 0 && ret <= 255 {
        Some(ret as u8)
    } else {
        None
    }
}

/// What a pipe transfer does next: issue the call again on the buffer from
/// the given offset, first give up the processor and then do so, or stop
/// with the given result.
#[derive(Clone, Copy, Debug, PartialEq, Eq)]
pub enum PipeStep {
    Next(usize),
    Wait(usize),
    Finish(isize),
}

/// The first step of a transfer of `len` bytes: nothing to do when `len`
/// is zero.
pub fn pipe_begin(len: usize) -> (step: PipeStep)
    ensures
        step == if len == 0 { PipeStep::Finish(0) } else { PipeStep::Next(0) },
{
    if len == 0 {
        PipeStep::Finish(0)
    } else {
        PipeStep::Next(0)
    }
}

/// After `done` of `len` bytes were moved, a call returned `ret`: the count
/// it adds, or `done` ends the transfer once it reaches `len`.
pub open spec fn pipe_advance(done: usize, len: usize, ret: isize) -> PipeStep {
    let d = done + ret;
    if d >= len {
        PipeStep::Finish(d as isize)
    } else {
        PipeStep::Next(d as usize)
    }
}

/// The next step of `pipe_read` after a read returned `ret`: -2 (no data
/// yet) waits, 0 (the writer closed) stops with what was read, another
/// negative result stops with that error, and a count goes on.
pub fn pipe_read_step(done: usize, len: usize, ret: isize) -> (step: PipeStep)
    requires
        done < len <= isize::MAX,
    ensures
        step == if ret == -2 {
            PipeStep::Wait(done)
        } else if ret == 0 {
            PipeStep::Finish(done as isize)
        } else if ret < 0 {
            PipeStep::Finish(ret)
        } else {
            pipe_advance(done, len, ret)
        },
{
    if ret == -2 {
        PipeStep::Wait(done)
    } else if ret == 0 {
        PipeStep::Finish(done as isize)
    } else if ret < 0 {
        PipeStep::Finish(ret)
    } else {
        let d = done + ret as usize;
        if d >= len {
            PipeStep::Finish(d as isize)
        } else {
            PipeStep::Next(d)
        }
    }
}

/// The next step of `pipe_write` after a write returned `ret`: -2 (the pipe
/// is full) waits, 0 (nothing more is taken) stops with what was written,
/// another negative result stops with that error, and a count goes on.
pub fn pipe_write_step(done: usize, len: usize, ret: isize) -> (step: PipeStep)
    requires
        done < len <= isize::MAX,
    ensures
        step == if ret == -2 {
            PipeStep::Wait(done)
        } else if ret == 0 {
            PipeStep::Finish(done as isize)
        } else if ret < 0 {
            PipeStep::Finish(ret)
        } else {
            pipe_advance(done, len, ret)
        },
{
    if ret == -2 {
        PipeStep::Wait(done)
    } else if ret == 0 {
        PipeStep::Finish(done as isize)
    } else if ret < 0 {
        PipeStep::Finish(ret)
    } else {
        let d = done + ret as usize;
        if d >= len {
            PipeStep::Finish(d as isize)
        } else {
            PipeStep::Next(d)
        }
    }
}

} // verus!
