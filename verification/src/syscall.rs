//! Process-management syscalls: `exit`, `yield`, `get_time`, `task_info`,
//! `mmap`, `munmap`, `sbrk`.
//!
//! Each handler fetches the current task from the `Processor`, counts the
//! attempt exactly once — success or failure — performs the operation, and
//! returns a POSIX-style signed result: zero or a value on success, negative
//! on error.  Handlers that report to user code write their record through
//! per-page address translation into physical memory.  The clock readings
//! come in as arguments: reading the platform clock is the caller's I/O.

use vstd::pervasive::unreached;
use vstd::prelude::*;

use crate::config::PAGE_SIZE;
use crate::config::SYSCALL_EXIT;
use crate::config::SYSCALL_GET_TIME;
use crate::config::SYSCALL_MMAP;
use crate::config::SYSCALL_MUNMAP;
use crate::config::SYSCALL_SBRK;
use crate::config::SYSCALL_TASK_INFO;
use crate::config::SYSCALL_YIELD;
use crate::mem::page_aligned;
use crate::mem::ceil_vpn;
use crate::mem::floor_vpn;
use crate::mem::spec_aligned;
use crate::mem::spec_ceil_vpn;
use crate::mem::spec_floor_vpn;
use crate::mem::spec_mmap;
use crate::mem::spec_munmap;
use crate::mem::spec_write_user;
use crate::mem::user_range_writable;
use crate::mem::write_user_bytes;
use crate::mem::PhysMem;
use crate::processor::add_syscalls_times;
use crate::processor::mmap;
use crate::processor::suspend_current;
use crate::processor::unmap;
use crate::processor::Processor;
use crate::task::same_task_but_counters;
use crate::task::same_task_core;
use crate::task::spec_count_syscall;
use crate::task::task_wf;
use crate::task::TaskContext;
use crate::task::TaskControlBlock;
use crate::task::TaskStatus;

verus! {

/// Length in bytes of the encoded `task_info` record: one status byte, four
/// bytes per syscall counter, eight bytes of elapsed time.
pub const TASK_INFO_LEN: usize = 2009;

/// Length in bytes of the encoded `TimeVal` record.
pub const TIME_VAL_LEN: usize = 16;

/// Seconds and microseconds of a clock reading, as `get_time` reports it.
#[derive(Clone, Copy, PartialEq, Eq, Structural, Debug)]
pub struct TimeVal {
    pub sec: usize,
    pub usec: usize,
}

impl TimeVal {
    /// Split a microsecond clock reading into whole seconds and the
    /// microsecond remainder.
    pub fn from_micros(us: usize) -> (tv: TimeVal)
        ensures
            tv.sec == us / 1000000,
            tv.usec == us % 1000000,
    {
        TimeVal { sec: us / 1000000, usec: us % 1000000 }
    }
}

/// Task information as `task_info` reports it: life-cycle status, the
/// per-syscall counter table, and elapsed time since first dispatch.
pub struct TaskInfo {
    pub status: TaskStatus,
    pub syscall_times: Vec<u32>,
    pub time: usize,
}

/// Elapsed milliseconds a task has been scheduled: the clock now, less the
/// first-dispatch timestamp.
pub open spec fn spec_elapsed(start: int, now: int) -> int {
    now - start
}

/// `task_info` timing: elapsed time is never negative, and never decreases
/// as the clock moves forward within one run of the same task.
pub proof fn lemma_elapsed_monotonic(start: int, n1: int, n2: int)
    requires
        start <= n1 <= n2,
    ensures
        0 <= spec_elapsed(start, n1) <= spec_elapsed(start, n2),
{
}

// ------------------------------------------------------------------
// Record encodings
// ------------------------------------------------------------------

/// The `n`-byte little-endian encoding of `v`'s low `8 * n` bits.
pub open spec fn le_bytes(v: int, n: nat) -> Seq<u8>
    decreases n,
{
    if n == 0 {
        Seq::<u8>::empty()
    } else {
        seq![(v % 256) as u8] + le_bytes(v / 256, (n - 1) as nat)
    }
}

/// The encoding of `v` in `n` bytes has `n` bytes.
proof fn lemma_le_bytes_len(v: int, n: nat)
    ensures
        le_bytes(v, n).len() == n,
    decreases n,
{
    if n > 0 {
        lemma_le_bytes_len(v / 256, (n - 1) as nat);
    }
}

/// Append the `n`-byte little-endian encoding of `v` to `out`.
fn push_le_bytes(out: &mut Vec<u8>, v: usize, n: usize)
    ensures
        final(out)@ == old(out)@ + le_bytes(v as int, n as nat),
{
    let ghost v0 = v as int;
    let mut v = v;
    let mut k: usize = 0;
    proof {
        assert(out@ + le_bytes(v as int, (n - k) as nat) =~= old(out)@ + le_bytes(
            v0,
            n as nat,
        ));
    }
    while k < n
        invariant
            k <= n,
            out@ + le_bytes(v as int, (n - k) as nat) == old(out)@ + le_bytes(v0, n as nat),
        decreases n - k,
    {
        let b = (v % 256) as u8;
        out.push(b);
        v = v / 256;
        k += 1;
        proof {
            assert(out@ + le_bytes(v as int, (n - k) as nat) =~= old(out)@ + le_bytes(
                v0,
                n as nat,
            ));
        }
    }
    proof {
        assert(le_bytes(v as int, 0) =~= Seq::<u8>::empty());
        assert(out@ =~= out@ + le_bytes(v as int, 0));
    }
}

/// The byte layout of a `TimeVal` record: seconds then microseconds, each
/// eight bytes little-endian.
pub open spec fn time_val_bytes(sec: int, usec: int) -> Seq<u8> {
    le_bytes(sec, 8) + le_bytes(usec, 8)
}

/// One-byte code of a task status in the `task_info` record.
pub open spec fn spec_status_code(st: TaskStatus) -> u8 {
    match st {
        TaskStatus::Ready => 0,
        TaskStatus::Running => 1,
        TaskStatus::Blocked => 2,
        TaskStatus::Zombie => 3,
    }
}

/// One-byte code of a task status.
pub fn status_code(st: TaskStatus) -> (c: u8)
    ensures
        c == spec_status_code(st),
{
    match st {
        TaskStatus::Ready => 0,
        TaskStatus::Running => 1,
        TaskStatus::Blocked => 2,
        TaskStatus::Zombie => 3,
    }
}

/// Little-endian bytes of the counter table, four per counter, in order.
pub open spec fn counters_bytes(cs: Seq<u32>) -> Seq<u8>
    decreases cs.len(),
{
    if cs.len() == 0 {
        Seq::<u8>::empty()
    } else {
        counters_bytes(cs.drop_last()) + le_bytes(cs.last() as int, 4)
    }
}

/// The counter table encodes to four bytes per counter.
proof fn lemma_counters_bytes_len(cs: Seq<u32>)
    ensures
        counters_bytes(cs).len() == 4 * cs.len(),
    decreases cs.len(),
{
    if cs.len() > 0 {
        lemma_counters_bytes_len(cs.drop_last());
        lemma_le_bytes_len(cs.last() as int, 4);
    }
}

/// The byte layout of a `task_info` record: the status code, the counter
/// table, then the elapsed milliseconds in eight bytes little-endian.
pub open spec fn task_info_bytes(st: TaskStatus, cs: Seq<u32>, time: int) -> Seq<u8> {
    seq![spec_status_code(st)] + counters_bytes(cs) + le_bytes(time, 8)
}

/// Encode a `task_info` record for the write into user memory.
fn encode_task_info(st: TaskStatus, cs: &Vec<u32>, time: usize) -> (out: Vec<u8>)
    ensures
        out@ == task_info_bytes(st, cs@, time as int),
{
    let mut out: Vec<u8> = Vec::new();
    out.push(status_code(st));
    proof {
        assert(counters_bytes(cs@.take(0)) =~= Seq::<u8>::empty());
        assert(out@ =~= seq![spec_status_code(st)] + counters_bytes(cs@.take(0)));
    }
    let mut i: usize = 0;
    while i < cs.len()
        invariant
            i <= cs@.len(),
            out@ == seq![spec_status_code(st)] + counters_bytes(cs@.take(i as int)),
        decreases cs@.len() - i,
    {
        let c = cs[i];
        push_le_bytes(&mut out, c as usize, 4);
        i += 1;
        proof {
            assert(cs@.take(i as int).drop_last() =~= cs@.take(i - 1));
            assert(cs@.take(i as int).last() == cs@[i - 1]);
            assert((seq![spec_status_code(st)] + counters_bytes(cs@.take(i - 1))) + le_bytes(
                cs@[i - 1] as int,
                4,
            ) =~= seq![spec_status_code(st)] + counters_bytes(cs@.take(i as int)));
        }
    }
    proof {
        assert(cs@.take(cs@.len() as int) =~= cs@);
    }
    push_le_bytes(&mut out, time, 8);
    proof {
        assert((seq![spec_status_code(st)] + counters_bytes(cs@)) + le_bytes(time as int, 8)
            =~= task_info_bytes(st, cs@, time as int));
    }
    out
}

/// Assemble the `TaskInfo` record of the current task: status, counters,
/// and elapsed time since the task was first dispatched.
pub fn task_info_of(p: &Processor, now_ms: usize) -> (info: TaskInfo)
    requires
        p.current is Some,
        (match p.current {
            Some(t) => t.started && t.start_time <= now_ms,
            None => false,
        }),
    ensures
        (match p.current {
            Some(t) => {
                &&& info.status == t.status
                &&& info.syscall_times@ == t.syscalls_time@
                &&& info.time == spec_elapsed(t.start_time as int, now_ms as int)
            },
            None => false,
        }),
{
    match p.current() {
        Some(t) => TaskInfo {
            status: t.get_status(),
            syscall_times: t.get_syscalls_time(),
            time: now_ms - t.get_start_time(),
        },
        None => unreached(),
    }
}

// ------------------------------------------------------------------
// Handlers
// ------------------------------------------------------------------

/// Handle `exit`: count the attempt and detach the current task for the
/// excluded exit collaborator to reap; the caller switches away and never
/// returns control to the task.
pub fn sys_exit(p: &mut Processor, _exit_code: i32) -> (t: TaskControlBlock)
    requires
        old(p).current is Some,
        (match old(p).current {
            Some(t0) => task_wf(t0) && t0.syscalls_time@[SYSCALL_EXIT as int] < u32::MAX,
            None => false,
        }),
    ensures
        final(p).current is None,
        final(p).idle_task_cx == old(p).idle_task_cx,
        task_wf(t),
        (match old(p).current {
            Some(t0) => same_task_but_counters(t0, t) && t.syscalls_time@ == spec_count_syscall(
                t0.syscalls_time@,
                SYSCALL_EXIT as int,
            ),
            None => false,
        }),
{
    add_syscalls_times(p, SYSCALL_EXIT);
    match p.take_current() {
        Some(t) => t,
        None => unreached(),
    }
}

/// Handle `yield`: count the attempt, mark the current task `Ready`, detach
/// it for requeueing, and return the syscall result together with the task
/// and the idle context the caller switches to.
pub fn sys_yield(p: &mut Processor) -> (out: (isize, TaskControlBlock, TaskContext))
    requires
        old(p).current is Some,
        (match old(p).current {
            Some(t0) => task_wf(t0) && t0.syscalls_time@[SYSCALL_YIELD as int] < u32::MAX,
            None => false,
        }),
    ensures
        out.0 == 0,
        final(p).current is None,
        final(p).idle_task_cx == old(p).idle_task_cx,
        out.2 == old(p).idle_task_cx,
        task_wf(out.1),
        out.1.status == TaskStatus::Ready,
        (match old(p).current {
            Some(t0) => {
                &&& out.1.syscalls_time@ == spec_count_syscall(
                    t0.syscalls_time@,
                    SYSCALL_YIELD as int,
                )
                &&& out.1.task_cx == t0.task_cx
                &&& out.1.memory_set == t0.memory_set
                &&& out.1.trap_cx_ppn == t0.trap_cx_ppn
                &&& out.1.started == t0.started
                &&& out.1.start_time == t0.start_time
                &&& out.1.task_priority == t0.task_priority
                &&& out.1.heap_bottom == t0.heap_bottom
                &&& out.1.program_brk == t0.program_brk
                &&& out.1.heap_limit == t0.heap_limit
            },
            None => false,
        }),
{
    add_syscalls_times(p, SYSCALL_YIELD);
    let (t, cx) = suspend_current(p);
    (0, t, cx)
}

/// Handle `get_time(ts, tz)`: count the attempt, split the clock reading
/// `now_us` into seconds and microseconds, and write the sixteen-byte
/// record into user memory at `ts_va` through per-page translation.  Fails
/// with -1, writing nothing, when a page of the record is unmapped.
pub fn sys_get_time(
    p: &mut Processor,
    mem: &mut PhysMem,
    ts_va: usize,
    _tz: usize,
    now_us: usize,
) -> (r: isize)
    requires
        old(p).current is Some,
        (match old(p).current {
            Some(t0) => {
                &&& task_wf(t0)
                &&& t0.syscalls_time@[SYSCALL_GET_TIME as int] < u32::MAX
                &&& old(mem).bytes@.len() >= t0.memory_set@.alloc.cap * (PAGE_SIZE as int)
            },
            None => false,
        }),
        ts_va + TIME_VAL_LEN <= usize::MAX,
    ensures
        r == 0 || r == -1,
        final(p).idle_task_cx == old(p).idle_task_cx,
        final(mem).bytes@.len() == old(mem).bytes@.len(),
        (match (old(p).current, final(p).current) {
            (Some(t0), Some(t1)) => {
                let ms = t0.memory_set@;
                let data = time_val_bytes((now_us / 1000000) as int, (now_us % 1000000) as int);
                &&& task_wf(t1)
                &&& same_task_but_counters(t0, t1)
                &&& t1.syscalls_time@ == spec_count_syscall(
                    t0.syscalls_time@,
                    SYSCALL_GET_TIME as int,
                )
                &&& (r == 0 <==> user_range_writable(ms, ts_va as int, TIME_VAL_LEN as nat))
                &&& (r == -1 ==> final(mem).bytes@ == old(mem).bytes@)
                &&& (r == 0 ==> final(mem).bytes@ == spec_write_user(
                    old(mem).bytes@,
                    ms,
                    ts_va as int,
                    data,
                    TIME_VAL_LEN as nat,
                ))
            },
            _ => false,
        }),
{
    add_syscalls_times(p, SYSCALL_GET_TIME);
    let tv = TimeVal::from_micros(now_us);
    let mut data: Vec<u8> = Vec::new();
    push_le_bytes(&mut data, tv.sec, 8);
    push_le_bytes(&mut data, tv.usec, 8);
    proof {
        lemma_le_bytes_len(tv.sec as int, 8);
        lemma_le_bytes_len(tv.usec as int, 8);
        assert(data@ =~= time_val_bytes((now_us / 1000000) as int, (now_us % 1000000) as int));
    }
    match &p.current {
        Some(t) => write_user_bytes(&t.memory_set, mem, ts_va, &data),
        None => unreached(),
    }
}

/// Handle `task_info(ti)`: count the attempt first — the record reports the
/// call itself — then write the current task's status, counter table and
/// elapsed milliseconds since first dispatch into user memory at `ti_va`.
/// Fails with -1, writing nothing, when a page of the record is unmapped.
pub fn sys_task_info(p: &mut Processor, mem: &mut PhysMem, ti_va: usize, now_ms: usize) -> (r:
    isize)
    requires
        old(p).current is Some,
        (match old(p).current {
            Some(t0) => {
                &&& task_wf(t0)
                &&& t0.syscalls_time@[SYSCALL_TASK_INFO as int] < u32::MAX
                &&& t0.started
                &&& t0.start_time <= now_ms
                &&& old(mem).bytes@.len() >= t0.memory_set@.alloc.cap * (PAGE_SIZE as int)
            },
            None => false,
        }),
        ti_va + TASK_INFO_LEN <= usize::MAX,
    ensures
        r == 0 || r == -1,
        final(p).idle_task_cx == old(p).idle_task_cx,
        final(mem).bytes@.len() == old(mem).bytes@.len(),
        (match (old(p).current, final(p).current) {
            (Some(t0), Some(t1)) => {
                let ms = t0.memory_set@;
                let counted = spec_count_syscall(t0.syscalls_time@, SYSCALL_TASK_INFO as int);
                let data = task_info_bytes(
                    t0.status,
                    counted,
                    spec_elapsed(t0.start_time as int, now_ms as int),
                );
                &&& task_wf(t1)
                &&& same_task_but_counters(t0, t1)
                &&& t1.syscalls_time@ == counted
                &&& (r == 0 <==> user_range_writable(ms, ti_va as int, TASK_INFO_LEN as nat))
                &&& (r == -1 ==> final(mem).bytes@ == old(mem).bytes@)
                &&& (r == 0 ==> final(mem).bytes@ == spec_write_user(
                    old(mem).bytes@,
                    ms,
                    ti_va as int,
                    data,
                    TASK_INFO_LEN as nat,
                ))
            },
            _ => false,
        }),
{
    add_syscalls_times(p, SYSCALL_TASK_INFO);
    match &p.current {
        Some(t) => {
            let st = t.get_status();
            let cs = t.get_syscalls_time();
            let elapsed = now_ms - t.get_start_time();
            let data = encode_task_info(st, &cs, elapsed);
            proof {
                lemma_counters_bytes_len(cs@);
                lemma_le_bytes_len(elapsed as int, 8);
                assert(data@.len() == TASK_INFO_LEN);
            }
            write_user_bytes(&t.memory_set, mem, ti_va, &data)
        },
        None => unreached(),
    }
}

/// Handle `mmap(start, len, port)`: reject an unaligned `start`; reject a
/// `port` with a bit outside the low three or with none of them set;
/// succeed trivially when `len == 0`; otherwise map the pages of
/// `[start, start + len)`, the end rounded up to a page boundary.  Fails
/// with -1 on overlap or frame exhaustion, leaving the address space
/// unchanged.  The attempt is counted whatever the outcome.
pub fn sys_mmap(p: &mut Processor, start: usize, len: usize, port: usize) -> (r: isize)
    requires
        old(p).current is Some,
        (match old(p).current {
            Some(t0) => task_wf(t0) && t0.syscalls_time@[SYSCALL_MMAP as int] < u32::MAX,
            None => false,
        }),
        start + len <= usize::MAX,
    ensures
        r == 0 || r == -1,
        final(p).idle_task_cx == old(p).idle_task_cx,
        (match (old(p).current, final(p).current) {
            (Some(t0), Some(t1)) => {
                &&& task_wf(t1)
                &&& same_task_core(t0, t1)
                &&& t1.syscalls_time@ == spec_count_syscall(t0.syscalls_time@, SYSCALL_MMAP as int)
                &&& (if !spec_aligned(start as int) {
                    r == -1 && t1.memory_set == t0.memory_set
                } else if port == 0 || port > 7 {
                    r == -1 && t1.memory_set == t0.memory_set
                } else if len == 0 {
                    r == 0 && t1.memory_set == t0.memory_set
                } else {
                    (t1.memory_set@, r as int) == spec_mmap(
                        t0.memory_set@,
                        spec_floor_vpn(start as int),
                        spec_ceil_vpn(start as int + len as int),
                        port as int,
                    )
                })
            },
            _ => false,
        }),
{
    add_syscalls_times(p, SYSCALL_MMAP);
    if !page_aligned(start) {
        return -1;
    }
    // only the low three permission bits exist, and a mapping with none of
    // them set is meaningless
    if port == 0 || port > 7 {
        return -1;
    }
    if len == 0 {
        return 0;
    }
    let start_vpn = floor_vpn(start);
    let end_vpn = ceil_vpn(start + len);
    proof {
        lemma_page_span_nonempty(start as int, len as int);
    }
    mmap(p, start_vpn, end_vpn, port)
}

/// Handle `munmap(start, len)`: reject an unaligned `start`; otherwise
/// remove every mapped page of `[start, start + len)`, the end rounded up
/// to a page boundary — failing with -1 and changing nothing when any page
/// of the range is unmapped.  The attempt is counted whatever the outcome.
pub fn sys_munmap(p: &mut Processor, start: usize, len: usize) -> (r: isize)
    requires
        old(p).current is Some,
        (match old(p).current {
            Some(t0) => task_wf(t0) && t0.syscalls_time@[SYSCALL_MUNMAP as int] < u32::MAX,
            None => false,
        }),
        start + len <= usize::MAX,
    ensures
        r == 0 || r == -1,
        final(p).idle_task_cx == old(p).idle_task_cx,
        (match (old(p).current, final(p).current) {
            (Some(t0), Some(t1)) => {
                &&& task_wf(t1)
                &&& same_task_core(t0, t1)
                &&& t1.syscalls_time@ == spec_count_syscall(
                    t0.syscalls_time@,
                    SYSCALL_MUNMAP as int,
                )
                &&& (if !spec_aligned(start as int) {
                    r == -1 && t1.memory_set == t0.memory_set
                } else {
                    (t1.memory_set@, r as int) == spec_munmap(
                        t0.memory_set@,
                        spec_floor_vpn(start as int),
                        spec_ceil_vpn(start as int + len as int),
                    )
                })
            },
            _ => false,
        }),
{
    add_syscalls_times(p, SYSCALL_MUNMAP);
    if !page_aligned(start) {
        return -1;
    }
    let start_vpn = floor_vpn(start);
    let end_vpn = ceil_vpn(start + len);
    unmap(p, start_vpn, end_vpn)
}

/// Handle `sbrk(size)`: move the current task's program break by `size`
/// bytes and return the break before the change, or -1 when the move would
/// leave the break's segment.  The attempt is counted whatever the outcome.
pub fn sys_sbrk(p: &mut Processor, size: i32) -> (r: isize)
    requires
        old(p).current is Some,
        (match old(p).current {
            Some(t0) => {
                &&& task_wf(t0)
                &&& t0.syscalls_time@[SYSCALL_SBRK as int] < u32::MAX
                &&& t0.heap_limit <= isize::MAX as usize
            },
            None => false,
        }),
    ensures
        final(p).idle_task_cx == old(p).idle_task_cx,
        (match (old(p).current, final(p).current) {
            (Some(t0), Some(t1)) => {
                &&& task_wf(t1)
                &&& t1.status == t0.status && t1.task_cx == t0.task_cx && t1.memory_set
                    == t0.memory_set && t1.trap_cx_ppn == t0.trap_cx_ppn && t1.started
                    == t0.started && t1.start_time == t0.start_time && t1.task_priority
                    == t0.task_priority && t1.heap_bottom == t0.heap_bottom && t1.heap_limit
                    == t0.heap_limit
                &&& t1.syscalls_time@ == spec_count_syscall(t0.syscalls_time@, SYSCALL_SBRK as int)
                &&& (if t0.heap_bottom <= t0.program_brk + size <= t0.heap_limit {
                    r == t0.program_brk && t1.program_brk == t0.program_brk + size
                } else {
                    r == -1 && t1.program_brk == t0.program_brk
                })
            },
            _ => false,
        }),
{
    add_syscalls_times(p, SYSCALL_SBRK);
    match &mut p.current {
        Some(t) => {
            match t.change_program_brk(size) {
                Some(old_brk) => old_brk as isize,
                None => -1,
            }
        },
        None => unreached(),
    }
}

/// An aligned start and a positive length span at least one whole page.
proof fn lemma_page_span_nonempty(start: int, len: int)
    requires
        spec_aligned(start),
        start >= 0,
        len >= 1,
    ensures
        spec_floor_vpn(start) < spec_ceil_vpn(start + len),
{
    let p = PAGE_SIZE as int;
    vstd::arithmetic::div_mod::lemma_div_is_ordered(start, start + len, p);
    if (start + len) % p == 0 {
        assert((start + len) / p > start / p) by (nonlinear_arith)
            requires
                p == 4096,
                start % p == 0,
                (start + len) % p == 0,
                len >= 1,
                start >= 0,
        ;
    }
}

} // verus!
