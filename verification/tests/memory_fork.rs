//! The address-space model: regions, page faults, range carving, fork.

use axloader::area::{MapArea, MemFlags};
use axloader::memory::{FaultOutcome, MemFault, MemorySet};
use axloader::phys::{PhysMemory, PAGE_SIZE};
use axloader::process::{
    build_address_space, dec_live, exit_notice, fork_child_context, ExitNotice, PidAllocator,
    Process, ProcessTable, UserContext,
};

fn rw() -> MemFlags {
    MemFlags { read: true, write: true, execute: false }
}

fn ro() -> MemFlags {
    MemFlags { read: true, write: false, execute: false }
}

#[test]
fn lazy_region_faults_exactly_once_per_page() {
    let mut phys = PhysMemory::new();
    let mut ms = MemorySet::new();
    ms.new_region(0x10000, 4 * PAGE_SIZE, rw(), false, None, &mut phys);

    // in range, compatible access: first fault allocates
    let first = ms.handle_page_fault(0x10004, ro(), &mut phys);
    assert_eq!(first, Ok(FaultOutcome::Allocated));
    // repeat on the same page: idempotent, observed as already loaded
    let again = ms.handle_page_fault(0x10ff0, ro(), &mut phys);
    assert_eq!(again, Ok(FaultOutcome::AlreadyBacked));
    // another page of the region faults on its own
    assert_eq!(ms.handle_page_fault(0x10000 + 3 * PAGE_SIZE, rw(), &mut phys), Ok(FaultOutcome::Allocated));

    // an incompatible access is a protection fault
    let exec = MemFlags { read: false, write: false, execute: true };
    assert_eq!(ms.handle_page_fault(0x10004, exec, &mut phys), Err(MemFault::Protection));
    // an unmapped address is its own fault
    assert_eq!(ms.handle_page_fault(0x4000, ro(), &mut phys), Err(MemFault::Unmapped));

    // a freshly faulted page reads as zero
    let i = ms.find_area(0x10004).unwrap();
    assert_eq!(ms.areas[i].read_byte_at(&phys, 0x10004), Some(0));
}

#[test]
fn eager_region_holds_its_data_zero_padded() {
    let mut phys = PhysMemory::new();
    let mut ms = MemorySet::new();
    let data: Vec<u8> = (0..=255u8).collect();
    ms.new_region(0x20000, PAGE_SIZE, ro(), false, Some(&data), &mut phys);
    let i = ms.find_area(0x20000).unwrap();
    assert_eq!(ms.areas[i].read_byte_at(&phys, 0x20000), Some(0));
    assert_eq!(ms.areas[i].read_byte_at(&phys, 0x20000 + 255), Some(255));
    assert_eq!(ms.areas[i].read_byte_at(&phys, 0x20000 + 256), Some(0));
    assert_eq!(ms.areas[i].read_byte_at(&phys, 0x20000 + PAGE_SIZE - 1), Some(0));
}

#[test]
fn carving_a_hole_keeps_exactly_the_rest() {
    let mut phys = PhysMemory::new();
    let mut ms = MemorySet::new();
    // three regions: [0x10000, 0x14000), [0x20000, 0x22000), [0x30000, 0x31000)
    ms.new_region(0x10000, 4 * PAGE_SIZE, rw(), false, None, &mut phys);
    ms.new_region(0x20000, 2 * PAGE_SIZE, rw(), false, None, &mut phys);
    ms.new_region(0x30000, PAGE_SIZE, rw(), false, None, &mut phys);

    // the hole swallows the middle region and trims one page off the first
    ms.split_for_area(0x13000, 0x20000 - 0x13000 + 2 * PAGE_SIZE, &mut phys);

    // union of what remains == old coverage minus the hole
    assert!(ms.find_area(0x10000).is_some());
    assert!(ms.find_area(0x12fff).is_some());
    assert!(ms.find_area(0x13000).is_none());
    assert!(ms.find_area(0x20000).is_none());
    assert!(ms.find_area(0x21fff).is_none());
    assert!(ms.find_area(0x30000).is_some());
    assert!(ms.find_area(0x30fff).is_some());
}

#[test]
fn carving_strictly_inside_splits_three_ways() {
    let mut phys = PhysMemory::new();
    let mut ms = MemorySet::new();
    ms.new_region(0x10000, 4 * PAGE_SIZE, rw(), false, None, &mut phys);
    ms.split_for_area(0x11000, PAGE_SIZE, &mut phys);
    assert_eq!(ms.areas.len(), 2);
    assert!(ms.find_area(0x10fff).is_some());
    assert!(ms.find_area(0x11000).is_none());
    assert!(ms.find_area(0x11fff).is_none());
    assert!(ms.find_area(0x12000).is_some());
    assert!(ms.find_area(0x13fff).is_some());
    // non-overlapping remains usable: faulting both rims works
    assert_eq!(ms.handle_page_fault(0x10000, rw(), &mut phys), Ok(FaultOutcome::Allocated));
    assert_eq!(ms.handle_page_fault(0x12000, rw(), &mut phys), Ok(FaultOutcome::Allocated));
}

#[test]
fn forked_child_copies_bytes_and_stays_isolated() {
    let mut phys = PhysMemory::new();
    let data = vec![7u8; 64];
    let mut parent = MapArea::new_eager(0x50000, 1, rw(), false, &data, &mut phys);
    let child = parent.clone_alloc(&mut phys);

    // the child's bytes equal the parent's at call time
    assert_eq!(child.read_byte_at(&phys, 0x50000), Some(7));
    assert_eq!(child.read_byte_at(&phys, 0x5003f), Some(7));
    assert_eq!(child.read_byte_at(&phys, 0x50040), Some(0));

    // a later parent write does not appear in the child, nor the reverse
    parent.write_byte_at(&mut phys, 0x50000, 99);
    assert_eq!(parent.read_byte_at(&phys, 0x50000), Some(99));
    assert_eq!(child.read_byte_at(&phys, 0x50000), Some(7));
    child.write_byte_at(&mut phys, 0x50001, 55);
    assert_eq!(parent.read_byte_at(&phys, 0x50001), Some(7));
    assert_eq!(child.read_byte_at(&phys, 0x50001), Some(55));
}

#[test]
fn shared_areas_see_each_others_writes() {
    let mut phys = PhysMemory::new();
    let data = vec![3u8; 16];
    let mut parent = MapArea::new_eager(0x60000, 2, rw(), true, &data, &mut phys);
    let child = parent.clone_alloc(&mut phys);

    parent.write_byte_at(&mut phys, 0x60008, 42);
    assert_eq!(child.read_byte_at(&phys, 0x60008), Some(42));
    child.write_byte_at(&mut phys, 0x60009, 43);
    assert_eq!(parent.read_byte_at(&phys, 0x60009), Some(43));
}

#[test]
fn shared_clone_force_faults_unbacked_pages() {
    let mut phys = PhysMemory::new();
    let mut parent = MapArea::new_lazy(0x70000, 2, rw(), true);
    let child = parent.clone_alloc(&mut phys);
    // every page of the parent is backed now, and the child holds the same
    // zeroed frames
    assert_eq!(parent.read_byte_at(&phys, 0x70000), Some(0));
    assert_eq!(child.read_byte_at(&phys, 0x70000 + PAGE_SIZE), Some(0));
    parent.write_byte_at(&mut phys, 0x70000, 9);
    assert_eq!(child.read_byte_at(&phys, 0x70000), Some(9));
}

#[test]
fn fork_builds_a_child_returning_zero() {
    let mut phys = PhysMemory::new();
    let mut ms = MemorySet::new();
    let payload = vec![0xaau8; 32];
    ms.new_region(0x80000, PAGE_SIZE, rw(), false, Some(&payload), &mut phys);

    let mut pids = PidAllocator::new(1);
    let first = pids.next_pid();
    let mut parent = Process::init(first, 0, b"/bin/app".to_vec(), ms);
    assert_eq!(parent.pid, 1);

    let ctx = UserContext { ra: 0x1234, sp: 0x9000, a0: 77, s_regs: vec![1, 2, 3] };
    let child_pid = pids.next_pid();
    let (child, cctx) = parent.fork(child_pid, &ctx, &mut phys);

    // the parent's call yields the child pid; the child re-enters the same
    // site with return value zero
    assert_eq!(child.pid, 2);
    assert_eq!(child.parent, 1);
    assert_eq!(parent.children, vec![2]);
    assert_eq!(cctx.a0, 0);
    assert_eq!(cctx.ra, 0x1234);
    assert_eq!(cctx.sp, 0x9000);
    assert_eq!(cctx.s_regs, vec![1, 2, 3]);
    assert_eq!(child.file_path, b"/bin/app".to_vec());

    // the child's address space shows the parent's bytes
    let i = child.memory_set.find_area(0x80000).unwrap();
    assert_eq!(child.memory_set.areas[i].read_byte_at(&phys, 0x80000), Some(0xaa));

    // the context helper alone clears only the return register
    let c2 = fork_child_context(&ctx);
    assert_eq!(c2.a0, 0);
    assert_eq!(c2.s_regs, ctx.s_regs);
}

#[test]
fn a_loaded_image_becomes_an_address_space() {
    // post-load memory equals the segment bytes, zero fill follows, and the
    // stack is reserved but unbacked
    let mut phys = PhysMemory::new();
    let mut file = vec![0u8; 0x200];
    for i in 0..0x200usize {
        file[i] = (i % 256) as u8;
    }
    let seg = axloader::elf::ElfSegment { vaddr: 0x10000, flags: 5, data: file.clone() };
    let info = axloader::elf::ElfInfo { base: 0, entry: 0x10000, segments: vec![seg] };
    let (ms, entry, sp) = build_address_space(&info, 0x40000, 2 * PAGE_SIZE, &mut phys);
    assert_eq!(entry, 0x10000);
    assert_eq!(sp, 0x40000 + 2 * PAGE_SIZE);
    let i = ms.find_area(0x10000).unwrap();
    for off in 0..0x200usize {
        assert_eq!(ms.areas[i].read_byte_at(&phys, 0x10000 + off), Some((off % 256) as u8));
    }
    assert_eq!(ms.areas[i].read_byte_at(&phys, 0x10000 + 0x200), Some(0));
    let s = ms.find_area(0x40000).unwrap();
    assert_eq!(ms.areas[s].read_byte_at(&phys, 0x40000), None);
}

#[test]
fn a_reaped_zombie_leaves_the_table_and_its_children_move() {
    let mut table = ProcessTable::new();
    let mut dying = Process::init(2, 1, b"b".to_vec(), MemorySet::new());
    dying.exit(7);
    let orphan = Process::init(3, 2, b"c".to_vec(), MemorySet::new());
    let live = Process::init(4, 1, b"d".to_vec(), MemorySet::new());
    assert!(table.register(dying));
    assert!(table.register(orphan));
    assert!(table.register(live));

    // a live process reaps nothing; an unknown pid reaps nothing
    assert_eq!(table.reap(4), None);
    assert_eq!(table.reap(9), None);

    // the zombie leaves with its code, and its child now belongs to the
    // initial process
    assert_eq!(table.reap(2), Some(7));
    assert!(table.find(2).is_none());
    let o = table.find(3).unwrap();
    assert_eq!(table.procs[o].parent, 1);
    let l = table.find(4).unwrap();
    assert_eq!(table.procs[l].parent, 1);
}

#[test]
fn exit_marks_a_zombie_and_the_counter_wakes_the_last_waiter() {
    let mut p = Process::init(5, 1, b"/bin/app".to_vec(), MemorySet::new());
    p.exit(17);
    assert!(p.is_zombie);
    assert_eq!(p.exit_code, 17);

    let mut live: usize = 2;
    assert!(!dec_live(&mut live));
    assert!(dec_live(&mut live));
    assert_eq!(live, 0);

    // a child's exit notifies its parent; the top-level process wakes the
    // main waiter
    assert_eq!(exit_notice(1), ExitNotice::Parent);
    assert_eq!(exit_notice(0), ExitNotice::MainWaiter);
}

#[test]
fn the_table_keeps_pids_unique() {
    let mut table = ProcessTable::new();
    let a = Process::init(1, 0, b"a".to_vec(), MemorySet::new());
    let b = Process::init(2, 1, b"b".to_vec(), MemorySet::new());
    let dup = Process::init(1, 1, b"c".to_vec(), MemorySet::new());
    assert!(table.register(a));
    assert!(table.register(b));
    assert!(!table.register(dup));
    assert_eq!(table.find(2).map(|i| table.procs[i].parent), Some(1));
    assert!(table.find(9).is_none());
}
