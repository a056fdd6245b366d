use user_lib::runtime::{
    alloc_step, clock_millis, descriptor, framebuffer_info, open_flags, path_file_name, pipe_begin,
    pipe_read_step, pipe_write_step, poll_result, sleep_deadline, sleep_finished, trace_read_result,
    ClockTime, PipeStep, ALLOC_ARENA_SIZE,
};

fn t(sec: usize, nsec: usize) -> ClockTime {
    ClockTime { tv_sec: sec, tv_nsec: nsec }
}

#[test]
fn deadline_adds_milliseconds() {
    assert_eq!(sleep_deadline(t(5, 100), 2500), t(7, 500_000_100));
}

#[test]
fn deadline_carries_a_second() {
    // 0.9 s + 0.2 s: the nanoseconds pass one second and carry.
    assert_eq!(sleep_deadline(t(1, 900_000_000), 200), t(2, 100_000_000));
}

#[test]
fn deadline_does_not_carry_exactly_one_second() {
    // The carry happens only above one second, as TimeSpec's Add does.
    assert_eq!(sleep_deadline(t(1, 500_000_000), 500), t(1, 1_000_000_000));
}

#[test]
fn zero_sleep_ends_at_the_start() {
    assert_eq!(sleep_deadline(t(3, 42), 0), t(3, 42));
}

#[test]
fn sleep_is_over_only_after_the_deadline() {
    let d = sleep_deadline(t(10, 0), 30);
    assert!(!sleep_finished(t(10, 0), d));
    assert!(!sleep_finished(d, d));
    assert!(sleep_finished(t(10, 30_000_001), d));
    assert!(sleep_finished(t(11, 0), d));
    assert!(!sleep_finished(t(9, 999_999_999), d));
}

#[test]
fn clock_reads_in_milliseconds() {
    assert_eq!(clock_millis(t(2, 345_678_901)), 2345);
    assert_eq!(clock_millis(t(0, 999_999)), 0);
}

#[test]
fn framebuffer_registers() {
    assert_eq!(framebuffer_info(0x8000, 4096, 32, 32), Some((0x8000, 4096, 32, 32)));
    assert_eq!(framebuffer_info(0, 4096, 32, 32), None);
    assert_eq!(framebuffer_info(-4, 4096, 32, 32), None);
    assert_eq!(framebuffer_info(0x8000, 0, 32, 32), None);
    assert_eq!(framebuffer_info(0x8000, 4096, 0, 32), None);
    assert_eq!(framebuffer_info(0x8000, 4096, 32, 0), None);
}

#[test]
fn console_poll() {
    assert_eq!(poll_result(1, b'x'), Some(b'x'));
    assert_eq!(poll_result(0, b'x'), None);
    assert_eq!(poll_result(-1, b'x'), None);
    assert_eq!(poll_result(2, b'x'), None);
}

fn name(path: &str) -> Option<&str> {
    path_file_name(path.as_bytes()).map(|s| &path[s..])
}

#[test]
fn file_name_of_paths() {
    assert_eq!(name("breakout.sav"), Some("breakout.sav"));
    assert_eq!(name("./breakout.sav"), Some("breakout.sav"));
    assert_eq!(name("././doom1.wad"), Some("doom1.wad"));
    assert_eq!(name("/data/saves/game.bin"), Some("game.bin"));
    assert_eq!(name("\\\\dir\\file.txt"), Some("file.txt"));
    assert_eq!(name("a/b\\c"), Some("c"));
    assert_eq!(name("./"), None);
    assert_eq!(name("dir/"), None);
    assert_eq!(name("///"), None);
    assert_eq!(name(""), None);
    assert_eq!(name("."), Some("."));
    assert_eq!(name("../x"), Some("x"));
}

#[test]
fn open_flags_known_and_unknown() {
    assert_eq!(open_flags(0), 0);
    assert_eq!(open_flags(1), 1);
    assert_eq!(open_flags(0x201), 0x201);
    assert_eq!(open_flags(0x603), 0x603);
    // An unknown bit makes the whole set read-only.
    assert_eq!(open_flags(0x4), 0);
    assert_eq!(open_flags(0x201 | 0x1000), 0);
    assert_eq!(open_flags(-1), 0);
}

#[test]
fn descriptors() {
    assert_eq!(descriptor(-1), None);
    assert_eq!(descriptor(0), Some(0));
    assert_eq!(descriptor(7), Some(7));
}

#[test]
fn allocator_aligns_and_advances() {
    assert_eq!(alloc_step(0, 0), Some((0, 1)));
    assert_eq!(alloc_step(1, 10), Some((8, 18)));
    assert_eq!(alloc_step(18, 3), Some((24, 27)));
    assert_eq!(alloc_step(16, 8), Some((16, 24)));
}

#[test]
fn allocator_blocks_do_not_overlap() {
    let (a1, n1) = alloc_step(0, 5).unwrap();
    let (a2, n2) = alloc_step(n1, 5).unwrap();
    assert_eq!((a1, n1), (0, 5));
    assert_eq!((a2, n2), (8, 13));
    assert!(n1 <= a2);
}

#[test]
fn allocator_runs_out() {
    assert_eq!(alloc_step(ALLOC_ARENA_SIZE - 8, 8), Some((ALLOC_ARENA_SIZE - 8, ALLOC_ARENA_SIZE)));
    assert_eq!(alloc_step(ALLOC_ARENA_SIZE - 8, 9), None);
    assert_eq!(alloc_step(ALLOC_ARENA_SIZE, 1), None);
    assert_eq!(alloc_step(0, usize::MAX), None);
}

#[test]
fn trace_results() {
    assert_eq!(trace_read_result(0), Some(0));
    assert_eq!(trace_read_result(255), Some(255));
    assert_eq!(trace_read_result(256), None);
    assert_eq!(trace_read_result(-1), None);
}

#[test]
fn pipe_read_steps() {
    assert_eq!(pipe_begin(0), PipeStep::Finish(0));
    assert_eq!(pipe_begin(10), PipeStep::Next(0));
    assert_eq!(pipe_read_step(0, 10, 4), PipeStep::Next(4));
    assert_eq!(pipe_read_step(4, 10, -2), PipeStep::Wait(4));
    assert_eq!(pipe_read_step(4, 10, 0), PipeStep::Finish(4));
    assert_eq!(pipe_read_step(4, 10, -1), PipeStep::Finish(-1));
    assert_eq!(pipe_read_step(4, 10, 6), PipeStep::Finish(10));
}

#[test]
fn pipe_write_steps() {
    assert_eq!(pipe_write_step(0, 8, 3), PipeStep::Next(3));
    // A write that takes nothing ends the transfer with the count written.
    assert_eq!(pipe_write_step(3, 8, 0), PipeStep::Finish(3));
    assert_eq!(pipe_write_step(3, 8, -2), PipeStep::Wait(3));
    assert_eq!(pipe_write_step(3, 8, -5), PipeStep::Finish(-5));
    assert_eq!(pipe_write_step(3, 8, 5), PipeStep::Finish(8));
}

#[test]
fn a_pipe_that_takes_nothing_ends_the_write() {
    assert_eq!(pipe_write_step(0, 4, 0), PipeStep::Finish(0));
}
