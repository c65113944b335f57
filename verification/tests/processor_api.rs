use task_core::config::SYSCALL_YIELD;
use task_core::mem::MemorySet;
use task_core::processor::add_syscalls_times;
use task_core::processor::current_task;
use task_core::processor::current_trap_cx;
use task_core::processor::dispatch;
use task_core::processor::get_task_start_time;
use task_core::processor::get_task_status;
use task_core::processor::get_task_syscalls_time;
use task_core::processor::schedule;
use task_core::processor::suspend_current;
use task_core::processor::set_task_priority;
use task_core::processor::take_current_task;
use task_core::processor::Processor;
use task_core::task::TaskControlBlock;
use task_core::task::TaskStatus;

fn fresh_task() -> TaskControlBlock {
    let ms = MemorySet::new(0x8000_0000, 8);
    TaskControlBlock::new(ms, 9, 0x1_0000, 0x2_0000)
}

#[test]
fn dispatch_marks_the_task_running_and_stamps_its_start() {
    let mut p = Processor::new();
    assert!(current_task(&p).is_none());
    let task = fresh_task();
    let restore = dispatch(&mut p, task, 42);
    // the context to restore is the task's own saved context
    assert_eq!(restore.ra, 0);
    assert_eq!(get_task_status(&p), TaskStatus::Running);
    assert_eq!(get_task_start_time(&p), 42);
}

#[test]
fn suspend_returns_the_task_ready_and_the_idle_context() {
    let mut p = Processor::new();
    let _ = dispatch(&mut p, fresh_task(), 5);
    let (task, idle_cx) = suspend_current(&mut p);
    assert_eq!(task.status, TaskStatus::Ready);
    assert!(current_task(&p).is_none());
    assert_eq!(idle_cx.ra, schedule(&p).ra);
}

#[test]
fn take_current_task_detaches_ownership() {
    let mut p = Processor::new();
    assert!(take_current_task(&mut p).is_none());
    let _ = dispatch(&mut p, fresh_task(), 5);
    let taken = take_current_task(&mut p);
    assert!(taken.is_some());
    assert!(current_task(&p).is_none());
}

#[test]
fn accounting_and_priority_accessors_reach_the_current_task() {
    let mut p = Processor::new();
    let _ = dispatch(&mut p, fresh_task(), 5);
    add_syscalls_times(&mut p, SYSCALL_YIELD);
    add_syscalls_times(&mut p, SYSCALL_YIELD);
    let counters = get_task_syscalls_time(&p);
    assert_eq!(counters[SYSCALL_YIELD], 2);
    set_task_priority(&mut p, 3);
    assert_eq!(current_task(&p).unwrap().task_priority, 3);
}

#[test]
fn the_trap_context_address_is_page_aligned_at_its_frame() {
    let mut p = Processor::new();
    let _ = dispatch(&mut p, fresh_task(), 5);
    assert_eq!(current_trap_cx(&p), 9 * 4096);
}
