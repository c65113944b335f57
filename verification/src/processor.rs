//! The per-core `Processor`: ownership of the task currently executing and
//! the decision steps of the scheduling loop.
//!
//! The context switch itself — loading and storing callee-saved registers —
//! is platform assembly outside this crate.  These functions make every
//! decision around it and return by value the context the switch must
//! restore, so the caller performs the switch only after all borrows here
//! have ended: no access guard is ever held across a switch.

use vstd::prelude::*;
use vstd::pervasive::unreached;

use crate::config::MAX_SYSCALL_NUM;
use crate::config::PAGE_SIZE;
use crate::mem::spec_mmap;
use crate::mem::spec_munmap;
use crate::task::same_task_but_counters;
use crate::task::same_task_but_memory;
use crate::task::spec_count_syscall;
use crate::task::task_wf;
use crate::task::TaskContext;
use crate::task::TaskControlBlock;
use crate::task::TaskStatus;

verus! {

/// Per-core management structure: the task currently executing on this
/// core, if any, and the scheduling loop's own saved control flow.
pub struct Processor {
    pub current: Option<TaskControlBlock>,
    pub idle_task_cx: TaskContext,
}

impl Processor {
    /// An empty `Processor`: no current task, a zeroed idle context.
    pub fn new() -> (p: Processor)
        ensures
            p.current is None,
    {
        Processor { current: None, idle_task_cx: TaskContext::zero_init() }
    }

    /// Remove and return ownership of the current task, leaving none — used
    /// when a task must be fully detached from the core.
    pub fn take_current(&mut self) -> (t: Option<TaskControlBlock>)
        ensures
            final(self).current is None,
            final(self).idle_task_cx == old(self).idle_task_cx,
            t == old(self).current,
    {
        self.current.take()
    }

    /// Borrow the current task without transferring ownership; empty only
    /// while the core is idle.
    pub fn current(&self) -> (t: Option<&TaskControlBlock>)
        ensures
            (match t {
                Some(tr) => self.current == Some(*tr),
                None => self.current is None,
            }),
    {
        self.current.as_ref()
    }
}

/// What one dispatch of the scheduling loop promises: the core now owns the
/// task, marked `Running`, its start time stamped at its first dispatch,
/// every other field kept, and `cx` is the saved context the switch must
/// restore.
pub open spec fn dispatch_rel(
    p0: Processor,
    task: TaskControlBlock,
    now_ms: usize,
    p1: Processor,
    cx: TaskContext,
) -> bool {
    &&& p1.idle_task_cx == p0.idle_task_cx
    &&& cx == task.task_cx
    &&& (match p1.current {
        Some(t) => {
            &&& t.status == TaskStatus::Running
            &&& t.started
            &&& t.start_time == (if task.started {
                task.start_time
            } else {
                now_ms
            })
            &&& t.task_cx == task.task_cx
            &&& t.memory_set == task.memory_set
            &&& t.trap_cx_ppn == task.trap_cx_ppn
            &&& t.syscalls_time == task.syscalls_time
            &&& t.task_priority == task.task_priority
            &&& t.heap_bottom == task.heap_bottom
            &&& t.program_brk == task.program_brk
            &&& t.heap_limit == task.heap_limit
        },
        None => false,
    })
}

/// What suspending the current task promises: the core is idle again, the
/// departing task is `Ready` with everything else kept, and the switch
/// target is the scheduling loop's own context.
pub open spec fn suspend_rel(
    p0: Processor,
    p1: Processor,
    t: TaskControlBlock,
    cx: TaskContext,
) -> bool {
    &&& (match p0.current {
        Some(c) => t == TaskControlBlock { status: TaskStatus::Ready, ..c },
        None => false,
    })
    &&& p1.current is None
    &&& p1.idle_task_cx == p0.idle_task_cx
    &&& cx == p0.idle_task_cx
}

/// One decision step of the scheduling loop `run_tasks`: mark the task the
/// ready-queue collaborator fetched as `Running`, stamp its first start
/// time, store it as current, and hand back the context the switch must
/// restore.  The caller performs the switch from the idle context only
/// after this returns, so no access guard is held across the switch.
pub fn dispatch(p: &mut Processor, task: TaskControlBlock, now_ms: usize) -> (cx: TaskContext)
    requires
        old(p).current is None,
        task_wf(task),
    ensures
        dispatch_rel(*old(p), task, now_ms, *final(p), cx),
        (match final(p).current {
            Some(t) => task_wf(t),
            None => false,
        }),
{
    let cx = task.task_cx;
    let mut task = task;
    task.status = TaskStatus::Running;
    if !task.started {
        task.started = true;
        task.start_time = now_ms;
    }
    p.current = Some(task);
    cx
}

/// Take the current task off the core and mark it `Ready` for the ready
/// queue; returns the task together with the idle context the switch must
/// restore.  The caller requeues the task and performs the switch, holding
/// no guard.
pub fn suspend_current(p: &mut Processor) -> (out: (TaskControlBlock, TaskContext))
    requires
        old(p).current is Some,
        (match old(p).current {
            Some(t) => task_wf(t),
            None => false,
        }),
    ensures
        suspend_rel(*old(p), *final(p), out.0, out.1),
        task_wf(out.0),
{
    let taken = p.take_current();
    match taken {
        Some(mut t) => {
            t.status = TaskStatus::Ready;
            let cx = schedule(p);
            (t, cx)
        },
        None => unreached(),
    }
}

/// Switch safety: after the scheduling loop dispatches a task and that task
/// leaves the core again, the core holds no task, the departed task is
/// `Ready` to requeue with its state kept, control returns to the idle
/// flow, and the loop may dispatch again at once — nothing is left held.
pub proof fn lemma_switch_round_trip(
    p0: Processor,
    task: TaskControlBlock,
    now_ms: usize,
    p1: Processor,
    cx1: TaskContext,
    p2: Processor,
    t2: TaskControlBlock,
    cx2: TaskContext,
)
    requires
        p0.current is None,
        dispatch_rel(p0, task, now_ms, p1, cx1),
        suspend_rel(p1, p2, t2, cx2),
    ensures
        p2.current is None,
        t2.status == TaskStatus::Ready,
        cx2 == p0.idle_task_cx,
        p2.idle_task_cx == p0.idle_task_cx,
        t2.memory_set == task.memory_set,
        t2.syscalls_time == task.syscalls_time,
        t2.task_cx == task.task_cx,
        t2.started,
{
}

/// The switch target for cooperative code leaving the core: the scheduling
/// loop's own saved context.  The caller saves the departing task's context
/// into its control block and performs the switch, holding no guard.
pub fn schedule(p: &Processor) -> (cx: TaskContext)
    ensures
        cx == p.idle_task_cx,
{
    p.idle_task_cx
}

/// Remove the current task from the core, leaving none in its place.
pub fn take_current_task(p: &mut Processor) -> (t: Option<TaskControlBlock>)
    ensures
        final(p).current is None,
        final(p).idle_task_cx == old(p).idle_task_cx,
        t == old(p).current,
{
    p.take_current()
}

/// Borrow the current task.
pub fn current_task(p: &Processor) -> (t: Option<&TaskControlBlock>)
    ensures
        (match t {
            Some(tr) => p.current == Some(*tr),
            None => p.current is None,
        }),
{
    p.current()
}

/// Page-table token of the current task's address space; syscall plumbing
/// never calls this while the core is idle.
pub fn current_user_token(p: &Processor) -> (tok: usize)
    requires
        p.current is Some,
    ensures
        (match p.current {
            Some(t) => tok == t.memory_set.token,
            None => false,
        }),
{
    match p.current() {
        Some(t) => t.get_user_token(),
        None => unreached(),
    }
}

/// Physical address of the page holding the current task's trap context,
/// where the handler writes the values user code reads after the trap.
pub fn current_trap_cx(p: &Processor) -> (pa: usize)
    requires
        p.current is Some,
        (match p.current {
            Some(t) => t.trap_cx_ppn <= usize::MAX / PAGE_SIZE,
            None => false,
        }),
    ensures
        (match p.current {
            Some(t) => pa == t.trap_cx_ppn * PAGE_SIZE,
            None => false,
        }),
{
    match p.current() {
        Some(t) => {
            proof {
                assert(t.trap_cx_ppn * PAGE_SIZE <= usize::MAX) by (nonlinear_arith)
                    requires
                        t.trap_cx_ppn <= usize::MAX / PAGE_SIZE,
                        PAGE_SIZE == 4096,
                ;
            }
            t.trap_cx_ppn * PAGE_SIZE
        },
        None => unreached(),
    }
}

/// Status of the current task.
pub fn get_task_status(p: &Processor) -> (st: TaskStatus)
    requires
        p.current is Some,
    ensures
        (match p.current {
            Some(t) => st == t.status,
            None => false,
        }),
{
    match p.current() {
        Some(t) => t.get_status(),
        None => unreached(),
    }
}

/// Timestamp of the current task's first dispatch.
pub fn get_task_start_time(p: &Processor) -> (st: usize)
    requires
        p.current is Some,
    ensures
        (match p.current {
            Some(t) => st == t.start_time,
            None => false,
        }),
{
    match p.current() {
        Some(t) => t.get_start_time(),
        None => unreached(),
    }
}

/// A copy of the current task's per-syscall counter table.
pub fn get_task_syscalls_time(p: &Processor) -> (out: Vec<u32>)
    requires
        p.current is Some,
    ensures
        (match p.current {
            Some(t) => out@ == t.syscalls_time@,
            None => false,
        }),
{
    match p.current() {
        Some(t) => t.get_syscalls_time(),
        None => unreached(),
    }
}

/// Map `[start_vpn, end_vpn)` into the current task's address space.
pub fn mmap(p: &mut Processor, start_vpn: usize, end_vpn: usize, port: usize) -> (r: isize)
    requires
        old(p).current is Some,
        (match old(p).current {
            Some(t) => task_wf(t),
            None => false,
        }),
        start_vpn < end_vpn,
        0 < port < 8,
    ensures
        final(p).idle_task_cx == old(p).idle_task_cx,
        (match (old(p).current, final(p).current) {
            (Some(t0), Some(t1)) => {
                &&& task_wf(t1)
                &&& same_task_but_memory(t0, t1)
                &&& (t1.memory_set@, r as int) == spec_mmap(
                    t0.memory_set@,
                    start_vpn as int,
                    end_vpn as int,
                    port as int,
                )
            },
            _ => false,
        }),
{
    match &mut p.current {
        Some(t) => t.memory_set.mmap(start_vpn, end_vpn, port),
        None => unreached(),
    }
}

/// Unmap `[start_vpn, end_vpn)` from the current task's address space.
pub fn unmap(p: &mut Processor, start_vpn: usize, end_vpn: usize) -> (r: isize)
    requires
        old(p).current is Some,
        (match old(p).current {
            Some(t) => task_wf(t),
            None => false,
        }),
    ensures
        final(p).idle_task_cx == old(p).idle_task_cx,
        (match (old(p).current, final(p).current) {
            (Some(t0), Some(t1)) => {
                &&& task_wf(t1)
                &&& same_task_but_memory(t0, t1)
                &&& (t1.memory_set@, r as int) == spec_munmap(
                    t0.memory_set@,
                    start_vpn as int,
                    end_vpn as int,
                )
            },
            _ => false,
        }),
{
    match &mut p.current {
        Some(t) => t.memory_set.unmap(start_vpn, end_vpn),
        None => unreached(),
    }
}

/// Record one attempted syscall on the current task's counter table.
pub fn add_syscalls_times(p: &mut Processor, syscall_id: usize)
    requires
        old(p).current is Some,
        (match old(p).current {
            Some(t) => task_wf(t) && t.syscalls_time@[syscall_id as int] < u32::MAX,
            None => false,
        }),
        syscall_id < MAX_SYSCALL_NUM,
    ensures
        final(p).idle_task_cx == old(p).idle_task_cx,
        (match (old(p).current, final(p).current) {
            (Some(t0), Some(t1)) => {
                &&& task_wf(t1)
                &&& same_task_but_counters(t0, t1)
                &&& t1.syscalls_time@ == spec_count_syscall(t0.syscalls_time@, syscall_id as int)
            },
            _ => false,
        }),
{
    match &mut p.current {
        Some(t) => t.count_syscall(syscall_id),
        None => unreached(),
    }
}

/// Overwrite the current task's stored scheduling priority.
pub fn set_task_priority(p: &mut Processor, prio: usize)
    requires
        old(p).current is Some,
        (match old(p).current {
            Some(t) => task_wf(t),
            None => false,
        }),
        prio >= 1,
    ensures
        final(p).idle_task_cx == old(p).idle_task_cx,
        (match (old(p).current, final(p).current) {
            (Some(t0), Some(t1)) => {
                &&& task_wf(t1)
                &&& t1.task_priority == prio
                &&& t1.status == t0.status && t1.task_cx == t0.task_cx && t1.memory_set
                    == t0.memory_set && t1.trap_cx_ppn == t0.trap_cx_ppn && t1.started
                    == t0.started && t1.start_time == t0.start_time && t1.syscalls_time
                    == t0.syscalls_time && t1.heap_bottom == t0.heap_bottom && t1.program_brk
                    == t0.program_brk && t1.heap_limit == t0.heap_limit
            },
            _ => false,
        }),
{
    match &mut p.current {
        Some(t) => t.set_priority(prio),
        None => unreached(),
    }
}

} // verus!
