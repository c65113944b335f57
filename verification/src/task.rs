//! Task state: life-cycle status, the saved execution context, the owned
//! address space, and the per-task accounting that the process syscalls
//! report.

use vstd::prelude::*;

use crate::config::MAX_SYSCALL_NUM;
use crate::mem::mem_wf;
use crate::mem::MemorySet;

verus! {

/// Life-cycle state of a task.  This core only moves tasks between `Ready`
/// and `Running`; `Blocked` and `Zombie` transitions belong to the ready
/// queue and exit collaborators.
#[derive(Clone, Copy, PartialEq, Eq, Structural, Debug)]
pub enum TaskStatus {
    Ready,
    Running,
    Blocked,
    Zombie,
}

/// Saved callee-saved execution state, enough to resume a suspended flow:
/// return address, stack pointer, and the callee-saved registers.  The
/// switch primitive that loads and stores these lives outside this crate.
#[derive(Clone, Copy, Debug)]
pub struct TaskContext {
    pub ra: usize,
    pub sp: usize,
    pub s: [usize; 12],
}

impl TaskContext {
    /// The all-zero context a fresh control flow starts from.
    pub fn zero_init() -> (cx: TaskContext)
        ensures
            cx.ra == 0,
            cx.sp == 0,
            forall|i: int| 0 <= i < 12 ==> cx.s@[i] == 0,
    {
        TaskContext { ra: 0, sp: 0, s: [0; 12] }
    }
}

/// The counter table with slot `id` raised by one.
pub open spec fn spec_count_syscall(cs: Seq<u32>, id: int) -> Seq<u32> {
    cs.update(id, (cs[id] + 1) as u32)
}

/// One schedulable unit of execution: status, saved context, the owned
/// address space, the physical page holding the task's trap context, and
/// the accounting and priority fields the syscalls expose.
pub struct TaskControlBlock {
    pub status: TaskStatus,
    pub task_cx: TaskContext,
    pub memory_set: MemorySet,
    pub trap_cx_ppn: usize,
    pub started: bool,
    pub start_time: usize,
    pub syscalls_time: Vec<u32>,
    pub task_priority: usize,
    pub heap_bottom: usize,
    pub program_brk: usize,
    pub heap_limit: usize,
}

/// Well-formedness of a task: a well-formed address space, one counter slot
/// per syscall identifier, a positive priority, and a program break inside
/// its segment.
pub open spec fn task_wf(t: TaskControlBlock) -> bool {
    &&& mem_wf(t.memory_set@)
    &&& t.syscalls_time@.len() == MAX_SYSCALL_NUM
    &&& t.task_priority >= 1
    &&& t.heap_bottom <= t.program_brk <= t.heap_limit
}

/// The fields of a task that no syscall accounting touches.
pub open spec fn same_task_but_counters(a: TaskControlBlock, b: TaskControlBlock) -> bool {
    &&& a.status == b.status
    &&& a.task_cx == b.task_cx
    &&& a.memory_set == b.memory_set
    &&& a.trap_cx_ppn == b.trap_cx_ppn
    &&& a.started == b.started
    &&& a.start_time == b.start_time
    &&& a.task_priority == b.task_priority
    &&& a.heap_bottom == b.heap_bottom
    &&& a.program_brk == b.program_brk
    &&& a.heap_limit == b.heap_limit
}

/// The fields of a task that neither accounting nor a memory operation
/// touches.
pub open spec fn same_task_core(a: TaskControlBlock, b: TaskControlBlock) -> bool {
    &&& a.status == b.status
    &&& a.task_cx == b.task_cx
    &&& a.trap_cx_ppn == b.trap_cx_ppn
    &&& a.started == b.started
    &&& a.start_time == b.start_time
    &&& a.task_priority == b.task_priority
    &&& a.heap_bottom == b.heap_bottom
    &&& a.program_brk == b.program_brk
    &&& a.heap_limit == b.heap_limit
}

/// The fields of a task that a memory-mapping operation never touches.
pub open spec fn same_task_but_memory(a: TaskControlBlock, b: TaskControlBlock) -> bool {
    &&& a.status == b.status
    &&& a.task_cx == b.task_cx
    &&& a.trap_cx_ppn == b.trap_cx_ppn
    &&& a.started == b.started
    &&& a.start_time == b.start_time
    &&& a.syscalls_time == b.syscalls_time
    &&& a.task_priority == b.task_priority
    &&& a.heap_bottom == b.heap_bottom
    &&& a.program_brk == b.program_brk
    &&& a.heap_limit == b.heap_limit
}

impl TaskControlBlock {
    /// A fresh `Ready` task owning `memory_set`, with its break segment
    /// `[heap_bottom, heap_limit]`, zeroed counters and the baseline
    /// priority.
    pub fn new(
        memory_set: MemorySet,
        trap_cx_ppn: usize,
        heap_bottom: usize,
        heap_limit: usize,
    ) -> (t: TaskControlBlock)
        requires
            mem_wf(memory_set@),
            heap_bottom <= heap_limit,
        ensures
            task_wf(t),
            t.status == TaskStatus::Ready,
            t.memory_set == memory_set,
            t.trap_cx_ppn == trap_cx_ppn,
            !t.started,
            t.start_time == 0,
            forall|i: int| 0 <= i < MAX_SYSCALL_NUM ==> t.syscalls_time@[i] == 0,
            t.task_priority == 16,
            t.heap_bottom == heap_bottom,
            t.program_brk == heap_bottom,
            t.heap_limit == heap_limit,
    {
        let syscalls_time = vec![0u32; MAX_SYSCALL_NUM];
        TaskControlBlock {
            status: TaskStatus::Ready,
            task_cx: TaskContext::zero_init(),
            memory_set,
            trap_cx_ppn,
            started: false,
            start_time: 0,
            syscalls_time,
            task_priority: 16,
            heap_bottom,
            program_brk: heap_bottom,
            heap_limit,
        }
    }

    /// Current life-cycle status.
    pub fn get_status(&self) -> (st: TaskStatus)
        ensures
            st == self.status,
    {
        self.status
    }

    /// The timestamp of the task's first dispatch.
    pub fn get_start_time(&self) -> (t: usize)
        ensures
            t == self.start_time,
    {
        self.start_time
    }

    /// The page-table token of the task's address space.
    pub fn get_user_token(&self) -> (tok: usize)
        ensures
            tok == self.memory_set.token,
    {
        self.memory_set.token
    }

    /// A copy of the per-syscall counter table.
    pub fn get_syscalls_time(&self) -> (out: Vec<u32>)
        ensures
            out@ == self.syscalls_time@,
    {
        let mut out: Vec<u32> = Vec::new();
        let mut i: usize = 0;
        proof {
            assert(out@ =~= self.syscalls_time@.take(0));
        }
        while i < self.syscalls_time.len()
            invariant
                i <= self.syscalls_time@.len(),
                out@ == self.syscalls_time@.take(i as int),
            decreases self.syscalls_time@.len() - i,
        {
            out.push(self.syscalls_time[i]);
            i += 1;
            proof {
                assert(self.syscalls_time@.take(i as int) =~= self.syscalls_time@.take(
                    i - 1,
                ).push(self.syscalls_time@[i - 1]));
            }
        }
        proof {
            assert(self.syscalls_time@.take(self.syscalls_time@.len() as int)
                =~= self.syscalls_time@);
        }
        out
    }

    /// Record one attempted syscall of identifier `syscall_id`; accounting
    /// counts attempts, not successes, so this moves by exactly one however
    /// the handler ends.
    pub fn count_syscall(&mut self, syscall_id: usize)
        requires
            task_wf(*old(self)),
            syscall_id < MAX_SYSCALL_NUM,
            old(self).syscalls_time@[syscall_id as int] < u32::MAX,
        ensures
            task_wf(*final(self)),
            final(self).syscalls_time@ == spec_count_syscall(
                old(self).syscalls_time@,
                syscall_id as int,
            ),
            counters_sum(final(self).syscalls_time@) == counters_sum(old(self).syscalls_time@)
                + 1,
            same_task_but_counters(*old(self), *final(self)),
    {
        proof {
            lemma_sum_count_syscall(self.syscalls_time@, syscall_id as int);
        }
        let c = self.syscalls_time[syscall_id];
        self.syscalls_time[syscall_id] = c + 1;
    }

    /// Move the program break by `size` bytes and return the old break;
    /// fails, changing nothing, when the break would leave the segment
    /// `[heap_bottom, heap_limit]`.
    pub fn change_program_brk(&mut self, size: i32) -> (r: Option<usize>)
        requires
            task_wf(*old(self)),
        ensures
            task_wf(*final(self)),
            (match r {
                Some(old_brk) => {
                    &&& old_brk == old(self).program_brk
                    &&& old(self).heap_bottom <= old(self).program_brk + size
                        <= old(self).heap_limit
                    &&& final(self).program_brk == old(self).program_brk + size
                },
                None => {
                    &&& *final(self) == *old(self)
                    &&& !(old(self).heap_bottom <= old(self).program_brk + size
                        <= old(self).heap_limit)
                },
            }),
            final(self).status == old(self).status,
            final(self).task_cx == old(self).task_cx,
            final(self).memory_set == old(self).memory_set,
            final(self).trap_cx_ppn == old(self).trap_cx_ppn,
            final(self).started == old(self).started,
            final(self).start_time == old(self).start_time,
            final(self).syscalls_time == old(self).syscalls_time,
            final(self).task_priority == old(self).task_priority,
            final(self).heap_bottom == old(self).heap_bottom,
            final(self).heap_limit == old(self).heap_limit,
    {
        if size >= 0 {
            let grow = size as usize;
            if grow <= self.heap_limit - self.program_brk {
                let old_brk = self.program_brk;
                self.program_brk = self.program_brk + grow;
                Some(old_brk)
            } else {
                None
            }
        } else {
            let shrink = (-(size as i64)) as usize;
            if shrink <= self.program_brk - self.heap_bottom {
                let old_brk = self.program_brk;
                self.program_brk = self.program_brk - shrink;
                Some(old_brk)
            } else {
                None
            }
        }
    }

    /// Overwrite the stored scheduling priority.
    pub fn set_priority(&mut self, p: usize)
        requires
            task_wf(*old(self)),
            p >= 1,
        ensures
            task_wf(*final(self)),
            final(self).task_priority == p,
            final(self).status == old(self).status,
            final(self).task_cx == old(self).task_cx,
            final(self).memory_set == old(self).memory_set,
            final(self).trap_cx_ppn == old(self).trap_cx_ppn,
            final(self).started == old(self).started,
            final(self).start_time == old(self).start_time,
            final(self).syscalls_time == old(self).syscalls_time,
            final(self).heap_bottom == old(self).heap_bottom,
            final(self).program_brk == old(self).program_brk,
            final(self).heap_limit == old(self).heap_limit,
    {
        self.task_priority = p;
    }
}

// ------------------------------------------------------------------
// Accounting laws
// ------------------------------------------------------------------

/// Total of all counters.
pub open spec fn counters_sum(cs: Seq<u32>) -> int
    decreases cs.len(),
{
    if cs.len() == 0 {
        0
    } else {
        counters_sum(cs.drop_last()) + cs.last()
    }
}

/// The total is never negative.
proof fn lemma_sum_nonneg(cs: Seq<u32>)
    ensures
        counters_sum(cs) >= 0,
    decreases cs.len(),
{
    if cs.len() > 0 {
        lemma_sum_nonneg(cs.drop_last());
    }
}

/// Each slot is at most the total.
proof fn lemma_sum_slot_le(cs: Seq<u32>, id: int)
    requires
        0 <= id < cs.len(),
    ensures
        cs[id] <= counters_sum(cs),
        counters_sum(cs) >= 0,
    decreases cs.len(),
{
    lemma_sum_nonneg(cs);
    if id == cs.len() - 1 {
        lemma_sum_nonneg(cs.drop_last());
    } else {
        lemma_sum_slot_le(cs.drop_last(), id);
    }
}

/// Raising one slot raises the total by exactly one.
pub proof fn lemma_sum_count_syscall(cs: Seq<u32>, id: int)
    requires
        0 <= id < cs.len(),
        cs[id] < u32::MAX,
    ensures
        counters_sum(spec_count_syscall(cs, id)) == counters_sum(cs) + 1,
    decreases cs.len(),
{
    let cs2 = spec_count_syscall(cs, id);
    if id == cs.len() - 1 {
        assert(cs2.drop_last() =~= cs.drop_last());
    } else {
        assert(cs2.drop_last() =~= spec_count_syscall(cs.drop_last(), id));
        assert(cs2.last() == cs.last());
        lemma_sum_count_syscall(cs.drop_last(), id);
    }
}

/// The counter table after a run of syscalls with the given identifiers,
/// counted in order.
pub open spec fn apply_syscall_counts(cs: Seq<u32>, ids: Seq<int>) -> Seq<u32>
    decreases ids.len(),
{
    if ids.len() == 0 {
        cs
    } else {
        spec_count_syscall(apply_syscall_counts(cs, ids.drop_last()), ids.last())
    }
}

/// Accounting monotonicity: a run of syscalls — however many of them failed
/// — raises the total of the per-syscall counters by exactly the number of
/// syscalls issued.
pub proof fn lemma_accounting_monotonic(cs: Seq<u32>, ids: Seq<int>)
    requires
        forall|k: int| 0 <= k < ids.len() ==> 0 <= (#[trigger] ids[k]) < cs.len(),
        counters_sum(cs) + ids.len() < u32::MAX,
    ensures
        apply_syscall_counts(cs, ids).len() == cs.len(),
        counters_sum(apply_syscall_counts(cs, ids)) == counters_sum(cs) + ids.len(),
    decreases ids.len(),
{
    if ids.len() > 0 {
        assert(forall|k: int|
            0 <= k < ids.drop_last().len() ==> 0 <= (#[trigger] ids.drop_last()[k]) < cs.len());
        lemma_accounting_monotonic(cs, ids.drop_last());
        let prev = apply_syscall_counts(cs, ids.drop_last());
        lemma_sum_slot_le(prev, ids.last());
        lemma_sum_count_syscall(prev, ids.last());
    }
}

} // verus!
