use task_core::config::PAGE_SIZE;
use task_core::config::MAX_SYSCALL_NUM;
use task_core::config::SYSCALL_MMAP;
use task_core::config::SYSCALL_TASK_INFO;
use task_core::config::SYSCALL_YIELD;
use task_core::mem::MemorySet;
use task_core::mem::PhysMem;
use task_core::mem::translated_physical_address;
use task_core::processor::current_task;
use task_core::processor::current_user_token;
use task_core::processor::dispatch;
use task_core::processor::Processor;
use task_core::syscall::sys_exit;
use task_core::syscall::sys_get_time;
use task_core::syscall::sys_mmap;
use task_core::syscall::sys_munmap;
use task_core::syscall::sys_sbrk;
use task_core::syscall::sys_task_info;
use task_core::syscall::sys_yield;
use task_core::syscall::task_info_of;
use task_core::syscall::TimeVal;
use task_core::task::TaskControlBlock;
use task_core::task::TaskStatus;

const FRAMES: usize = 64;

fn running_processor() -> Processor {
    let ms = MemorySet::new(0x8000_0000, FRAMES);
    let task = TaskControlBlock::new(ms, 7, 0x1_0000, 0x2_0000);
    let mut p = Processor::new();
    let _cx = dispatch(&mut p, task, 100);
    p
}

fn region_count(p: &Processor) -> usize {
    current_task(p).unwrap().memory_set.regions.len()
}

fn frames_in_use(p: &Processor) -> usize {
    current_task(p).unwrap().memory_set.allocator.in_use
}

fn counter_total(p: &Processor) -> u64 {
    let mut total: u64 = 0;
    for c in &current_task(p).unwrap().syscalls_time {
        total += u64::from(*c);
    }
    total
}

#[test]
fn mmap_then_munmap_restores_the_manager() {
    let mut p = running_processor();
    assert_eq!(region_count(&p), 0);
    assert_eq!(frames_in_use(&p), 0);
    let r = sys_mmap(&mut p, 0x1000_0000, 3 * PAGE_SIZE, 3);
    assert_eq!(r, 0);
    assert_eq!(region_count(&p), 1);
    assert_eq!(frames_in_use(&p), 3);
    let r = sys_munmap(&mut p, 0x1000_0000, 3 * PAGE_SIZE);
    assert_eq!(r, 0);
    assert_eq!(region_count(&p), 0);
    assert_eq!(frames_in_use(&p), 0);
}

#[test]
fn overlapping_mmap_fails_and_changes_nothing() {
    let mut p = running_processor();
    assert_eq!(sys_mmap(&mut p, 0x1000_0000, 4 * PAGE_SIZE, 3), 0);
    let frames_before = frames_in_use(&p);
    // intersects the last page of the first mapping
    assert_eq!(sys_mmap(&mut p, 0x1000_0000 + 3 * PAGE_SIZE, 2 * PAGE_SIZE, 3), -1);
    assert_eq!(region_count(&p), 1);
    assert_eq!(frames_in_use(&p), frames_before);
}

#[test]
fn unaligned_mmap_is_rejected() {
    let mut p = running_processor();
    assert_eq!(sys_mmap(&mut p, 1, 4096, 1), -1);
    assert_eq!(region_count(&p), 0);
}

#[test]
fn permission_bits_are_validated() {
    let mut p = running_processor();
    // no permission bits at all
    assert_eq!(sys_mmap(&mut p, 0x1000, 4096, 0), -1);
    // a bit outside the low three
    assert_eq!(sys_mmap(&mut p, 0x1000, 4096, 0x8), -1);
    assert_eq!(region_count(&p), 0);
}

#[test]
fn degenerate_mmap_succeeds_without_a_region() {
    let mut p = running_processor();
    assert_eq!(sys_mmap(&mut p, 0x1000_0000, 0, 3), 0);
    assert_eq!(region_count(&p), 0);
    assert_eq!(frames_in_use(&p), 0);
}

#[test]
fn accounting_counts_attempts_not_successes() {
    let mut p = running_processor();
    let mut mem = PhysMem::new(FRAMES);
    assert_eq!(counter_total(&p), 0);
    assert_eq!(sys_mmap(&mut p, 0x1000_0000, PAGE_SIZE, 3), 0); // success
    assert_eq!(sys_mmap(&mut p, 1, PAGE_SIZE, 3), -1); // failure
    assert_eq!(sys_munmap(&mut p, 0x2000_0000, PAGE_SIZE), -1); // failure
    assert!(sys_sbrk(&mut p, 16) >= 0); // success
    assert_eq!(sys_get_time(&mut p, &mut mem, 0x3000_0000, 0, 55), -1); // failure
    assert_eq!(counter_total(&p), 5);
}

#[test]
fn exhausting_the_frame_pool_fails_cleanly() {
    let mut p = running_processor();
    assert_eq!(sys_mmap(&mut p, 0x1000_0000, (FRAMES + 1) * PAGE_SIZE, 3), -1);
    assert_eq!(region_count(&p), 0);
    assert_eq!(frames_in_use(&p), 0);
}

#[test]
fn munmap_requires_alignment_and_full_coverage() {
    let mut p = running_processor();
    assert_eq!(sys_mmap(&mut p, 0x1000_0000, 2 * PAGE_SIZE, 3), 0);
    assert_eq!(sys_munmap(&mut p, 0x1000_0001, PAGE_SIZE), -1);
    // range extends one page past the mapping
    assert_eq!(sys_munmap(&mut p, 0x1000_0000, 3 * PAGE_SIZE), -1);
    assert_eq!(region_count(&p), 1);
}

#[test]
fn munmap_can_split_a_region() {
    let mut p = running_processor();
    assert_eq!(sys_mmap(&mut p, 0x1000_0000, 3 * PAGE_SIZE, 3), 0);
    // drop only the middle page
    assert_eq!(sys_munmap(&mut p, 0x1000_0000 + PAGE_SIZE, PAGE_SIZE), 0);
    assert_eq!(region_count(&p), 2);
    assert_eq!(frames_in_use(&p), 2);
    let t = current_task(&p).unwrap();
    assert!(translated_physical_address(&t.memory_set, 0x1000_0000).is_some());
    assert!(translated_physical_address(&t.memory_set, 0x1000_0000 + PAGE_SIZE).is_none());
    assert!(translated_physical_address(&t.memory_set, 0x1000_0000 + 2 * PAGE_SIZE).is_some());
}

#[test]
fn yield_clears_the_core_and_the_task_can_run_again() {
    let mut p = running_processor();
    let (r, task, _idle_cx) = sys_yield(&mut p);
    assert_eq!(r, 0);
    assert!(current_task(&p).is_none());
    assert_eq!(task.status, TaskStatus::Ready);
    // the loop can dispatch the same task again at once: no guard is held
    let _cx = dispatch(&mut p, task, 200);
    let t = current_task(&p).unwrap();
    assert_eq!(t.status, TaskStatus::Running);
    // the start time was stamped at the first dispatch, not the second
    assert_eq!(t.start_time, 100);
}

#[test]
fn exit_detaches_the_current_task() {
    let mut p = running_processor();
    let t = sys_exit(&mut p, 3);
    assert!(current_task(&p).is_none());
    assert_eq!(t.status, TaskStatus::Running);
}

#[test]
fn sbrk_moves_the_break_and_reports_the_old_one() {
    let mut p = running_processor();
    assert_eq!(sys_sbrk(&mut p, 0x100), 0x1_0000);
    assert_eq!(sys_sbrk(&mut p, -0x80), 0x1_0100);
    assert_eq!(current_task(&p).unwrap().program_brk, 0x1_0080);
    // shrinking below the segment floor fails and moves nothing
    assert_eq!(sys_sbrk(&mut p, -0x100), -1);
    assert_eq!(current_task(&p).unwrap().program_brk, 0x1_0080);
    // growing past the segment limit fails too
    assert_eq!(sys_sbrk(&mut p, i32::MAX), -1);
}

#[test]
fn time_val_splits_microseconds() {
    let tv = TimeVal::from_micros(3_500_000);
    assert_eq!(tv.sec, 3);
    assert_eq!(tv.usec, 500_000);
}

#[test]
fn get_time_writes_through_translation() {
    let mut p = running_processor();
    let mut mem = PhysMem::new(FRAMES);
    let va = 0x1000_0000;
    assert_eq!(sys_mmap(&mut p, va, PAGE_SIZE, 3), 0);
    // 3 s and 7 us
    assert_eq!(sys_get_time(&mut p, &mut mem, va + 16, 0, 3_000_007), 0);
    let t = current_task(&p).unwrap();
    let pa = translated_physical_address(&t.memory_set, va + 16).unwrap();
    assert_eq!(mem.read_byte(pa), 3); // sec, low byte
    for k in 1..8 {
        assert_eq!(mem.read_byte(pa + k), 0);
    }
    // usec = 7 little-endian
    assert_eq!(mem.read_byte(pa + 8), 7);
    for k in 9..16 {
        assert_eq!(mem.read_byte(pa + k), 0);
    }
}

#[test]
fn get_time_to_an_unmapped_pointer_fails() {
    let mut p = running_processor();
    let mut mem = PhysMem::new(FRAMES);
    assert_eq!(sys_get_time(&mut p, &mut mem, 0x4000_0000, 0, 123), -1);
    // nothing was written anywhere
    for pa in 0..64 {
        assert_eq!(mem.read_byte(pa), 0);
    }
}

#[test]
fn a_record_straddling_two_pages_lands_on_both_frames() {
    let mut p = running_processor();
    let mut mem = PhysMem::new(FRAMES);
    let va = 0x1000_0000;
    // map and unmap once first, so the next mapping draws recycled frames in
    // stack order and its two pages sit on non-contiguous frames
    assert_eq!(sys_mmap(&mut p, va, 2 * PAGE_SIZE, 3), 0);
    assert_eq!(sys_munmap(&mut p, va, 2 * PAGE_SIZE), 0);
    assert_eq!(sys_mmap(&mut p, va, 2 * PAGE_SIZE, 3), 0);
    // the sixteen-byte record starts eight bytes before the page boundary
    let ts_va = va + PAGE_SIZE - 8;
    assert_eq!(sys_get_time(&mut p, &mut mem, ts_va, 0, 0x0102), 0);
    let t = current_task(&p).unwrap();
    let pa_first = translated_physical_address(&t.memory_set, ts_va).unwrap();
    let pa_second = translated_physical_address(&t.memory_set, va + PAGE_SIZE).unwrap();
    // translation is per page: the halves sit on different frames
    assert_ne!(pa_second, pa_first + 8);
    // sec = 0, written into the first page
    for k in 0..8 {
        assert_eq!(mem.read_byte(pa_first + k), 0);
    }
    // usec = 0x0102 little-endian, written into the second page
    assert_eq!(mem.read_byte(pa_second), 0x02);
    assert_eq!(mem.read_byte(pa_second + 1), 0x01);
    for k in 2..8 {
        assert_eq!(mem.read_byte(pa_second + k), 0);
    }
}

#[test]
fn task_info_reports_elapsed_time_and_counters() {
    let mut p = running_processor();
    let mut mem = PhysMem::new(FRAMES);
    let va = 0x1000_0000;
    assert_eq!(sys_mmap(&mut p, va, PAGE_SIZE, 3), 0);
    // dispatch stamped start_time = 100
    let info = task_info_of(&p, 150);
    assert_eq!(info.time, 50);
    assert_eq!(info.status, TaskStatus::Running);
    assert_eq!(info.syscall_times[SYSCALL_MMAP], 1);
    assert_eq!(info.syscall_times[SYSCALL_YIELD], 0);
    let info_later = task_info_of(&p, 220);
    assert!(info_later.time >= info.time);

    // the written record carries the status code, counters, and elapsed time
    assert_eq!(sys_task_info(&mut p, &mut mem, va, 160), 0);
    let t = current_task(&p).unwrap();
    let pa = translated_physical_address(&t.memory_set, va).unwrap();
    assert_eq!(mem.read_byte(pa), 1); // Running
    // four counter bytes per syscall identifier, little-endian
    assert_eq!(mem.read_byte(pa + 1 + 4 * SYSCALL_MMAP), 1);
    // the record counts the task_info call itself
    assert_eq!(mem.read_byte(pa + 1 + 4 * SYSCALL_TASK_INFO), 1);
    // elapsed 60 ms, little-endian, after the counter table
    assert_eq!(mem.read_byte(pa + 1 + 4 * MAX_SYSCALL_NUM), 60);
    assert_eq!(mem.read_byte(pa + 1 + 4 * MAX_SYSCALL_NUM + 1), 0);
}

#[test]
fn get_time_then_task_info_reports_nonnegative_nondecreasing_time() {
    let mut p = running_processor();
    let mut mem = PhysMem::new(FRAMES);
    let va = 0x1000_0000;
    assert_eq!(sys_mmap(&mut p, va, PAGE_SIZE, 3), 0);
    assert_eq!(sys_get_time(&mut p, &mut mem, va, 0, 130_000), 0);
    let first = task_info_of(&p, 130);
    let second = task_info_of(&p, 145);
    // elapsed time is unsigned, so never negative; and it never decreases
    assert!(second.time >= first.time);
}

#[test]
fn the_token_of_the_current_task_is_exposed() {
    let p = running_processor();
    assert_eq!(current_user_token(&p), 0x8000_0000);
}

#[test]
fn munmap_of_an_empty_range_is_a_noop_success() {
    let mut p = running_processor();
    assert_eq!(sys_munmap(&mut p, 0x1000_0000, 0), 0);
    assert_eq!(region_count(&p), 0);
}
