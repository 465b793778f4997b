//! Processes: the control block, the pid source, the process table, and
//! fork. Fork clones the address space area by area (shared areas keep
//! their frames, the rest are copied eagerly), then builds a child record
//! parented to the caller whose saved register context re-enters the same
//! call site with return value zero, while the parent receives the child
//! pid. Exit marks the record a zombie; a zombie stays in the table until
//! reaped, and reaping re-parents its children to the initial process.

use vstd::prelude::*;
use vstd::arithmetic::div_mod::lemma_fundamental_div_mod;
use crate::area::{flags_from_elf, MapArea, MemFlags};
use crate::elf::{ElfInfo, ElfSegment};
use crate::memory::{MemorySet, covered_by, cloned_area, lemma_split_pos, region_inserted};
use crate::phys::{PhysMemory, PAGE_SIZE};

verus! {

/// The pid of the initial process, which inherits reaped processes'
/// children.
pub const INIT_PID: usize = 1;

/// A captured callee-saved register snapshot handed from the fork
/// trampoline: return address, stack pointer, first argument register and
/// the callee-saved registers.
pub struct UserContext {
    pub ra: usize,
    pub sp: usize,
    pub a0: usize,
    pub s_regs: Vec<usize>,
}

/// The child's entry context: the parent's snapshot with the return value
/// register cleared, so the child returns zero from the same logical call
/// site.
#[verifier::loop_isolation(false)]
pub fn fork_child_context(ctx: &UserContext) -> (r: UserContext)
    ensures
        r.ra == ctx.ra,
        r.sp == ctx.sp,
        r.a0 == 0,
        r.s_regs@ == ctx.s_regs@,
{
    let mut s_regs: Vec<usize> = Vec::new();
    let mut i: usize = 0;
    let n = ctx.s_regs.len();
    while i < n
        invariant
            i <= n,
            s_regs@ =~= ctx.s_regs@.subrange(0, i as int),
        decreases n - i,
    {
        s_regs.push(ctx.s_regs[i]);
        i = i + 1;
        proof {
            assert(s_regs@ =~= ctx.s_regs@.subrange(0, i as int));
        }
    }
    proof {
        assert(ctx.s_regs@.subrange(0, n as int) =~= ctx.s_regs@);
    }
    UserContext { ra: ctx.ra, sp: ctx.sp, a0: 0, s_regs }
}

/// A source of process identifiers: strictly increasing, so a pid is never
/// handed out twice within a process lifetime.
pub struct PidAllocator {
    pub next: usize,
}

impl PidAllocator {
    /// Starts handing out pids from `first`.
    pub fn new(first: usize) -> (r: PidAllocator)
        ensures
            r.next == first,
    {
        PidAllocator { next: first }
    }

    /// Hands out the next pid.
    pub fn next_pid(&mut self) -> (pid: usize)
        requires
            old(self).next < usize::MAX,
        ensures
            pid == old(self).next,
            final(self).next == old(self).next + 1,
    {
        let pid = self.next;
        self.next = self.next + 1;
        pid
    }
}

/// One process control block.
pub struct Process {
    pub pid: usize,
    pub parent: usize,
    pub children: Vec<usize>,
    pub is_zombie: bool,
    pub exit_code: i32,
    pub memory_set: MemorySet,
    pub file_path: Vec<u8>,
}

impl Process {
    /// The first record of a process: alive, childless, owning its address
    /// space.
    pub fn init(pid: usize, parent: usize, file_path: Vec<u8>, memory_set: MemorySet) -> (r:
        Process)
        ensures
            r.pid == pid,
            r.parent == parent,
            r.children@.len() == 0,
            !r.is_zombie,
            r.exit_code == 0,
            r.memory_set == memory_set,
            r.file_path == file_path,
    {
        Process {
            pid,
            parent,
            children: Vec::new(),
            is_zombie: false,
            exit_code: 0,
            memory_set,
            file_path,
        }
    }

    /// Forks this process: the address space is cloned area by area, the
    /// child record is parented to the caller with the child pid appended
    /// to its children, and the child's context returns zero where the
    /// parent's call returned the child pid.
    pub fn fork(&mut self, child_pid: usize, ctx: &UserContext, phys: &mut PhysMemory) -> (r: (
        Process,
        UserContext,
    ))
        requires
            old(self).memory_set.wf(),
            old(self).memory_set.frames_ok(*old(phys)),
            old(phys).wf(),
        ensures
            final(phys).wf(),
            crate::phys::phys_extends(*old(phys), *final(phys)),
            final(self).pid == old(self).pid,
            final(self).parent == old(self).parent,
            final(self).is_zombie == old(self).is_zombie,
            final(self).exit_code == old(self).exit_code,
            final(self).file_path == old(self).file_path,
            final(self).children@ == old(self).children@.push(child_pid),
            final(self).memory_set.wf(),
            final(self).memory_set.frames_ok(*final(phys)),
            ({
                let (child, cctx) = r;
                &&& child.pid == child_pid
                &&& child.parent == old(self).pid
                &&& child.children@.len() == 0
                &&& !child.is_zombie
                &&& child.exit_code == 0
                &&& child.file_path@ == old(self).file_path@
                &&& child.memory_set.wf()
                &&& child.memory_set.frames_ok(*final(phys))
                &&& child.memory_set.areas@.len() == old(self).memory_set.areas@.len()
                &&& final(self).memory_set.areas@.len() == old(self).memory_set.areas@.len()
                &&& (forall|i: int|
                    0 <= i < old(self).memory_set.areas@.len() ==> #[trigger] cloned_area(
                        old(self).memory_set.areas@[i],
                        final(self).memory_set.areas@[i],
                        child.memory_set.areas@[i],
                        *old(phys),
                        *final(phys),
                        old(phys).frames@.len() as int,
                    ))
                &&& (forall|va: int|
                    covered_by(child.memory_set.areas@, va) <==> covered_by(
                        old(self).memory_set.areas@,
                        va,
                    ))
                &&& (forall|va: int|
                    covered_by(final(self).memory_set.areas@, va) <==> covered_by(
                        old(self).memory_set.areas@,
                        va,
                    ))
                &&& cctx.ra == ctx.ra
                &&& cctx.sp == ctx.sp
                &&& cctx.a0 == 0
                &&& cctx.s_regs@ == ctx.s_regs@
            }),
    {
        let child_ms = self.memory_set.clone_all(phys);
        let cctx = fork_child_context(ctx);
        let mut path: Vec<u8> = Vec::new();
        let mut i: usize = 0;
        let n = self.file_path.len();
        while i < n
            invariant
                i <= n,
                n == self.file_path@.len(),
                self.file_path@ == old(self).file_path@,
                path@ =~= self.file_path@.subrange(0, i as int),
            decreases n - i,
        {
            path.push(self.file_path[i]);
            i = i + 1;
            proof {
                assert(path@ =~= self.file_path@.subrange(0, i as int));
            }
        }
        proof {
            assert(self.file_path@.subrange(0, n as int) =~= self.file_path@);
        }
        let child = Process {
            pid: child_pid,
            parent: self.pid,
            children: Vec::new(),
            is_zombie: false,
            exit_code: 0,
            memory_set: child_ms,
            file_path: path,
        };
        self.children.push(child_pid);
        (child, cctx)
    }

    /// Marks the process a zombie carrying `code`; everything else stands.
    /// The record stays registered until its parent reaps it.
    pub fn exit(&mut self, code: i32)
        ensures
            final(self).is_zombie,
            final(self).exit_code == code,
            final(self).pid == old(self).pid,
            final(self).parent == old(self).parent,
            final(self).children == old(self).children,
            final(self).memory_set == old(self).memory_set,
            final(self).file_path == old(self).file_path,
    {
        self.is_zombie = true;
        self.exit_code = code;
    }
}

/// `n` rounded up to whole pages.
pub open spec fn page_round_up(n: int) -> int {
    if n % (PAGE_SIZE as int) == 0 {
        n
    } else {
        (n / (PAGE_SIZE as int)) * (PAGE_SIZE as int) + PAGE_SIZE
    }
}

/// Rounding up lands on the next page boundary at or after `n`.
pub proof fn lemma_page_round_up(n: int)
    requires
        0 <= n,
    ensures
        n <= page_round_up(n) < n + PAGE_SIZE,
        page_round_up(n) % (PAGE_SIZE as int) == 0,
        n > 0 ==> page_round_up(n) > 0,
{
    let p = PAGE_SIZE as int;
    lemma_fundamental_div_mod(n, p);
    if n % p != 0 {
        let q = n / p;
        assert(n == p * q + n % p);
        assert(q * p == p * q) by (nonlinear_arith);
        assert((q * p + p) % p == 0) by {
            vstd::arithmetic::div_mod::lemma_mod_multiples_basic(q + 1, p);
            assert((q + 1) * p == q * p + p) by (nonlinear_arith);
        }
    }
}

/// One past the last page the segment occupies once placed.
pub open spec fn seg_span_end(seg: ElfSegment) -> int {
    seg.vaddr + page_round_up(seg.data@.len() as int)
}

/// The area shows exactly the segment's bytes over the segment's range.
pub open spec fn placed_at(a: MapArea, phys: PhysMemory, seg: ElfSegment) -> bool {
    &&& a.vaddr == seg.vaddr
    &&& a.frames_ok(phys)
    &&& a.flags == flags_spec(seg.flags)
    &&& forall|va: int|
        seg.vaddr <= va < seg.vaddr + seg.data@.len() ==> (#[trigger] a.backed(va)) && a.byte_at(
            phys,
            va,
        ) == seg.data@[va - seg.vaddr]
}

/// The permissions a loadable segment's flag word grants.
pub open spec fn flags_spec(p_flags: u32) -> MemFlags {
    MemFlags {
        read: p_flags & 4 != 0,
        write: p_flags & 2 != 0,
        execute: p_flags & 1 != 0,
    }
}

/// Placing one more segment keeps every earlier placement and adds the new
/// one.
proof fn lemma_place_step(
    pre: Seq<MapArea>,
    post: Seq<MapArea>,
    p_old: PhysMemory,
    p_new: PhysMemory,
    segs: Seq<ElfSegment>,
    i: int,
    size: int,
    flags: MemFlags,
)
    requires
        0 <= i < segs.len(),
        pre.len() == i,
        region_inserted(
            pre,
            post,
            p_new,
            i,
            segs[i].vaddr as int,
            size,
            flags,
            false,
            Some(segs[i].data@),
        ),
        segs[i].data@.len() <= size,
        flags == flags_spec(segs[i].flags),
        forall|j: int| 0 <= j < i ==> placed_at(#[trigger] pre[j], p_old, segs[j]),
        p_old.frames@.len() <= p_new.frames@.len(),
        forall|f: int|
            0 <= f < p_old.frames@.len() ==> #[trigger] p_new.frame_bytes(f) == p_old.frame_bytes(
                f,
            ),
        forall|j: int| 0 <= j < post.len() ==> (#[trigger] post[j]).frames_ok(p_new),
    ensures
        forall|j: int| 0 <= j < i + 1 ==> placed_at(#[trigger] post[j], p_new, segs[j]),
{
    assert forall|j: int| 0 <= j < i + 1 implies placed_at(#[trigger] post[j], p_new, segs[j]) by {
        crate::memory::lemma_insert_index(pre, i, post[i], j);
        assert(post[j].frames_ok(p_new));
        if j < i {
            assert(post[j] == pre[j]);
            assert(placed_at(pre[j], p_old, segs[j]));
            crate::area::lemma_fork_isolation(pre[j], p_old, p_new, 0);
            assert forall|va: int|
                segs[j].vaddr <= va < segs[j].vaddr + segs[j].data@.len() implies (
            #[trigger] post[j].backed(va)) && post[j].byte_at(p_new, va) == segs[j].data@[va
                - segs[j].vaddr] by {
                assert(pre[j].backed(va));
                assert(post[j].byte_at(p_new, va) == pre[j].byte_at(p_old, va));
            }
        } else {
            let a = post[i];
            assert forall|va: int|
                segs[j].vaddr <= va < segs[j].vaddr + segs[j].data@.len() implies (
            #[trigger] a.backed(va)) && a.byte_at(p_new, va) == segs[j].data@[va - segs[j].vaddr] by {
                assert(segs[i].vaddr <= va < segs[i].vaddr as int + size);
                assert(a.backed(va) && a.byte_at(p_new, va) == (if va - segs[i].vaddr
                    < segs[i].data@.len() {
                    segs[i].data@[va - segs[i].vaddr]
                } else {
                    0
                }));
            }
        }
    }
}

/// Builds the address space of a fresh process from a loaded image: every
/// loadable segment is placed eagerly at its address — the memory at
/// `[vaddr, vaddr + memsz)` holds the segment's file bytes and then zero
/// fill — and a lazy stack of `stack_size` bytes ends at `stack_vaddr +
/// stack_size`, where the stack pointer starts. Returns the space, the
/// entry point and the initial stack pointer.
#[verifier::loop_isolation(false)]
#[verifier::rlimit(100)]
#[verifier::spinoff_prover]
pub fn build_address_space(
    info: &ElfInfo,
    stack_vaddr: usize,
    stack_size: usize,
    phys: &mut PhysMemory,
) -> (r: (MemorySet, usize, usize))
    requires
        old(phys).wf(),
        forall|j: int|
            0 <= j < info.segments@.len() ==> (#[trigger] info.segments@[j]).vaddr as int % (
            PAGE_SIZE as int) == 0,
        forall|j: int| 0 <= j < info.segments@.len() ==> (#[trigger] info.segments@[j]).data@.len() > 0,
        forall|j: int|
            0 <= j < info.segments@.len() ==> seg_span_end(#[trigger] info.segments@[j])
                <= usize::MAX,
        forall|a: int, b: int|
            0 <= a < b < info.segments@.len() ==> seg_span_end(#[trigger] info.segments@[a]) <= (
            #[trigger] info.segments@[b]).vaddr,
        forall|j: int|
            0 <= j < info.segments@.len() ==> seg_span_end(#[trigger] info.segments@[j])
                <= stack_vaddr,
        stack_vaddr as int % (PAGE_SIZE as int) == 0,
        stack_size as int % (PAGE_SIZE as int) == 0,
        stack_size > 0,
        stack_vaddr + stack_size <= usize::MAX,
    ensures
        final(phys).wf(),
        crate::phys::phys_extends(*old(phys), *final(phys)),
        ({
            let (ms, entry, sp) = r;
            &&& ms.wf()
            &&& ms.frames_ok(*final(phys))
            &&& entry == info.entry
            &&& sp == stack_vaddr + stack_size
            &&& ms.areas@.len() == info.segments@.len() + 1
            &&& (forall|j: int|
                0 <= j < info.segments@.len() ==> placed_at(
                    #[trigger] ms.areas@[j],
                    *final(phys),
                    info.segments@[j],
                ))
            &&& ms.areas@[info.segments@.len() as int].vaddr == stack_vaddr
            &&& (forall|va: int|
                stack_vaddr <= va < stack_vaddr + stack_size
                    ==> !(#[trigger] ms.areas@[info.segments@.len() as int].backed(va)))
        }),
{
    let mut ms = MemorySet::new();
    let n = info.segments.len();
    let mut i: usize = 0;
    while i < n
        invariant
            phys.wf(),
            crate::phys::phys_extends(*old(phys), *phys),
            n == info.segments@.len(),
            i <= n,
            ms.wf(),
            ms.frames_ok(*phys),
            ms.areas@.len() == i,
            forall|j: int|
                0 <= j < i ==> placed_at(#[trigger] ms.areas@[j], *phys, info.segments@[j]),
            forall|j: int|
                0 <= j < i ==> (#[trigger] ms.areas@[j]).vaddr == info.segments@[j].vaddr
                    && ms.areas@[j].end() == seg_span_end(info.segments@[j]),
        decreases n - i,
    {
        let seg = &info.segments[i];
        let len = seg.data.len();
        proof {
            lemma_page_round_up(len as int);
        }
        let size = if len % PAGE_SIZE == 0 {
            len
        } else {
            (len / PAGE_SIZE) * PAGE_SIZE + PAGE_SIZE
        };
        proof {
            assert(size == page_round_up(len as int));
            assert(ms.range_free(seg.vaddr as int, seg.vaddr + size)) by {
                assert forall|j: int|
                    0 <= j < ms.areas@.len() implies (#[trigger] ms.areas@[j]).end()
                    <= seg.vaddr as int || seg.vaddr + size <= ms.areas@[j].vaddr by {
                    assert(seg_span_end(info.segments@[j]) <= info.segments@[i as int].vaddr);
                }
            }
            lemma_split_pos(ms.areas@, seg.vaddr as int, i as int);
        }
        let ghost prev_ms = ms;
        let ghost prev_phys = *phys;
        let flags = flags_from_elf(seg.flags);
        ms.new_region(seg.vaddr, size, flags, false, Some(&seg.data), phys);
        proof {
            let segs = info.segments@;
            assert(region_inserted(
                prev_ms.areas@,
                ms.areas@,
                *phys,
                i as int,
                seg.vaddr as int,
                size as int,
                flags,
                false,
                Some(seg.data@),
            ));
            crate::memory::lemma_insert_index(prev_ms.areas@, i as int, ms.areas@[i as int], i as int);
            assert(flags == flags_spec(segs[i as int].flags));
            lemma_place_step(
                prev_ms.areas@,
                ms.areas@,
                prev_phys,
                *phys,
                segs,
                i as int,
                size as int,
                flags,
            );
            assert forall|j: int|
                0 <= j < i + 1 implies (#[trigger] ms.areas@[j]).vaddr == segs[j].vaddr
                && ms.areas@[j].end() == seg_span_end(segs[j]) by {
                crate::memory::lemma_insert_index(prev_ms.areas@, i as int, ms.areas@[i as int], j);
            }
        }
        i = i + 1;
    }
    let stack_flags = MemFlags { read: true, write: true, execute: false };
    proof {
        assert(ms.range_free(stack_vaddr as int, stack_vaddr + stack_size)) by {
            assert forall|j: int|
                0 <= j < ms.areas@.len() implies (#[trigger] ms.areas@[j]).end()
                <= stack_vaddr as int || stack_vaddr + stack_size <= ms.areas@[j].vaddr by {
                assert(seg_span_end(info.segments@[j]) <= stack_vaddr as int);
            }
        }
        lemma_split_pos(ms.areas@, stack_vaddr as int, n as int);
    }
    let ghost prev_ms = ms;
    let ghost prev_phys = *phys;
    ms.new_region(stack_vaddr, stack_size, stack_flags, false, None, phys);
    let sp = stack_vaddr + stack_size;
    proof {
        let segs = info.segments@;
        assert(region_inserted(
            prev_ms.areas@,
            ms.areas@,
            *phys,
            n as int,
            stack_vaddr as int,
            stack_size as int,
            stack_flags,
            false,
            None,
        ));
        crate::memory::lemma_insert_index(prev_ms.areas@, n as int, ms.areas@[n as int], n as int);
        assert forall|j: int| 0 <= j < n implies placed_at(
            #[trigger] ms.areas@[j],
            *phys,
            segs[j],
        ) by {
            crate::memory::lemma_insert_index(prev_ms.areas@, n as int, ms.areas@[n as int], j);
            assert(ms.areas@[j] == prev_ms.areas@[j]);
            assert(placed_at(prev_ms.areas@[j], prev_phys, segs[j]));
            crate::area::lemma_fork_isolation(prev_ms.areas@[j], prev_phys, *phys, 0);
        }
    }
    (ms, info.entry, sp)
}

/// Decrements the live-process counter as one fetch-and-check step and
/// reports whether the last process just left (the main waiter is woken
/// exactly then).
pub fn dec_live(count: &mut usize) -> (zero: bool)
    requires
        *old(count) > 0,
    ensures
        *final(count) == *old(count) - 1,
        zero <==> *final(count) == 0,
{
    *count = *count - 1;
    *count == 0
}

/// Whom an exiting process's last breath notifies: a child wakes the
/// parent waiting on it; the top-level process (the one no other process
/// spawned) wakes the main waiter once the live count reaches zero.
#[derive(Clone, Copy, Debug, PartialEq, Eq, Structural)]
pub enum ExitNotice {
    /// Notify the waiting parent.
    Parent,
    /// Wake the main waiter.
    MainWaiter,
}

/// Decides by tree position whom an exit notifies.
pub fn exit_notice(parent_pid: usize) -> (r: ExitNotice)
    ensures
        r == (if parent_pid == 0 {
            ExitNotice::MainWaiter
        } else {
            ExitNotice::Parent
        }),
{
    if parent_pid == 0 {
        ExitNotice::MainWaiter
    } else {
        ExitNotice::Parent
    }
}

/// No two registered processes share a pid.
pub open spec fn pids_distinct(ps: Seq<Process>) -> bool {
    forall|i: int, j: int| 0 <= i < j < ps.len() ==> (#[trigger] ps[i]).pid != (#[trigger] ps[j]).pid
}

/// Some registered process carries the pid.
pub open spec fn has_pid(ps: Seq<Process>, pid: int) -> bool {
    exists|i: int| 0 <= i < ps.len() && (#[trigger] ps[i]).pid == pid
}

/// `a` is `b` after a reap of `dead`: the same record, except that a child
/// of the dead process now belongs to the initial process.
pub open spec fn reparented(a: Process, b: Process, dead: int) -> bool {
    &&& a.pid == b.pid
    &&& a.children == b.children
    &&& a.is_zombie == b.is_zombie
    &&& a.exit_code == b.exit_code
    &&& a.memory_set == b.memory_set
    &&& a.file_path == b.file_path
    &&& a.parent == (if b.parent == dead {
        INIT_PID as int
    } else {
        b.parent as int
    })
}

/// The pid-to-process table, guarded by its own lock in the surrounding
/// system; here the contents under that lock.
pub struct ProcessTable {
    pub procs: Vec<Process>,
}

impl ProcessTable {
    /// Pids are unique while registered.
    pub open spec fn wf(self) -> bool {
        pids_distinct(self.procs@)
    }

    /// An empty table.
    pub fn new() -> (r: ProcessTable)
        ensures
            r.wf(),
            r.procs@.len() == 0,
    {
        ProcessTable { procs: Vec::new() }
    }

    /// Finds the slot registered under `pid`.
    #[verifier::loop_isolation(false)]
    pub fn find(&self, pid: usize) -> (r: Option<usize>)
        ensures
            ({
                match r {
                    Some(u) => u < self.procs@.len() && self.procs@[u as int].pid == pid,
                    None => !has_pid(self.procs@, pid as int),
                }
            }),
    {
        let n = self.procs.len();
        let mut i: usize = 0;
        while i < n
            invariant
                i <= n,
                forall|k: int| 0 <= k < i ==> (#[trigger] self.procs@[k]).pid != pid,
            decreases n - i,
        {
            if self.procs[i].pid == pid {
                return Some(i);
            }
            i = i + 1;
        }
        None
    }

    /// Reaps the zombie registered under `pid`: the record leaves the
    /// table with its exit code, and its children are re-parented to the
    /// initial process. A live process, or an unknown pid, reaps nothing.
    #[verifier::loop_isolation(false)]
    pub fn reap(&mut self, pid: usize) -> (r: Option<i32>)
        requires
            old(self).wf(),
        ensures
            final(self).wf(),
            r is None ==> final(self).procs@ == old(self).procs@,
            !has_pid(old(self).procs@, pid as int) ==> r is None,
            forall|i: int|
                0 <= i < old(self).procs@.len() && (#[trigger] old(self).procs@[i]).pid == pid
                    ==> ({
                    let victim = old(self).procs@[i];
                    &&& (!victim.is_zombie ==> r is None)
                    &&& (victim.is_zombie ==> r == Some(victim.exit_code)
                        && final(self).procs@.len() == old(self).procs@.len() - 1 && (forall|j: int|
                        0 <= j < final(self).procs@.len() ==> reparented(
                            #[trigger] final(self).procs@[j],
                            old(self).procs@.remove(i)[j],
                            pid as int,
                        )))
                }),
    {
        let idx = match self.find(pid) {
            None => {
                return None;
            },
            Some(i) => i,
        };
        proof {
            assert forall|i: int|
                0 <= i < self.procs@.len() && (#[trigger] self.procs@[i]).pid == pid implies i
                == idx as int by {
                if i != idx as int {
                    assert(self.procs@[i].pid != self.procs@[idx as int].pid);
                }
            }
        }
        if !self.procs[idx].is_zombie {
            return None;
        }
        let ghost orig = self.procs@;
        let victim = self.procs.remove(idx);
        let code = victim.exit_code;
        let ghost mid = self.procs@;
        proof {
            assert(mid == orig.remove(idx as int));
            assert forall|a: int, b: int|
                0 <= a < b < mid.len() implies (#[trigger] mid[a]).pid != (#[trigger] mid[b]).pid by {
                let a0 = if a < idx as int {
                    a
                } else {
                    a + 1
                };
                let b0 = if b < idx as int {
                    b
                } else {
                    b + 1
                };
                assert(mid[a] == orig[a0]);
                assert(mid[b] == orig[b0]);
            }
        }
        let n = self.procs.len();
        let mut j: usize = 0;
        while j < n
            invariant
                n == self.procs@.len(),
                self.procs@.len() == mid.len(),
                j <= n,
                forall|k: int|
                    0 <= k < j ==> reparented(#[trigger] self.procs@[k], mid[k], pid as int),
                forall|k: int| j <= k < n ==> #[trigger] self.procs@[k] == mid[k],
            decreases n - j,
        {
            if self.procs[j].parent == pid {
                let ghost before = self.procs@;
                let mut p = self.procs.remove(j);
                p.parent = INIT_PID;
                self.procs.insert(j, p);
                proof {
                    assert(self.procs@ =~= before.update(j as int, self.procs@[j as int]));
                }
            }
            j = j + 1;
        }
        proof {
            assert forall|a: int, b: int|
                0 <= a < b < self.procs@.len() implies (#[trigger] self.procs@[a]).pid != (
                #[trigger] self.procs@[b]).pid by {
                assert(reparented(self.procs@[a], mid[a], pid as int));
                assert(reparented(self.procs@[b], mid[b], pid as int));
            }
        }
        Some(code)
    }

    /// Registers a process; its pid must be fresh.
    pub fn register(&mut self, p: Process) -> (ok: bool)
        requires
            old(self).wf(),
        ensures
            final(self).wf(),
            ok <==> !has_pid(old(self).procs@, p.pid as int),
            !ok ==> final(self).procs@ == old(self).procs@,
            ok ==> final(self).procs@ == old(self).procs@.push(p),
    {
        match self.find(p.pid) {
            Some(_) => false,
            None => {
                let ghost olds = self.procs@;
                self.procs.push(p);
                proof {
                    assert forall|i: int, j: int|
                        0 <= i < j < self.procs@.len() implies (#[trigger] self.procs@[i]).pid != (
                        #[trigger] self.procs@[j]).pid by {
                        if j == self.procs@.len() - 1 {
                            assert(self.procs@[i] == olds[i]);
                            assert(olds[i].pid == self.procs@[i].pid);
                        }
                    }
                }
                true
            },
        }
    }
}

} // verus!
