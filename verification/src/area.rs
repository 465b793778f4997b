//! Map areas: one contiguous virtual address range with uniform
//! permissions, backed page by page. An area is created lazily (no pages:
//! the table points at a sentinel until a fault) or eagerly (pages
//! allocated and filled); it is mutated by the page-fault handler, by the
//! range surgery of region carving, and by the fork-time clone.

use vstd::prelude::*;
use vstd::arithmetic::div_mod::{
    lemma_fundamental_div_mod,
    lemma_mod_multiples_vanish,
    lemma_small_mod,
};
use crate::phys::{PAGE_SIZE, PhysMemory, page_from, page_byte, phys_extends, zero_page};

verus! {

/// Access permissions of a region, uniform across it.
#[derive(Clone, Copy, Debug, PartialEq, Eq, Structural)]
pub struct MemFlags {
    pub read: bool,
    pub write: bool,
    pub execute: bool,
}

/// Every access `need` asks for, `have` grants.
pub open spec fn flags_allow(have: MemFlags, need: MemFlags) -> bool {
    &&& (need.read ==> have.read)
    &&& (need.write ==> have.write)
    &&& (need.execute ==> have.execute)
}

/// Whether the permissions of a region cover a requested access.
pub fn flags_contain(have: MemFlags, need: MemFlags) -> (r: bool)
    ensures
        r == flags_allow(have, need),
{
    (!need.read || have.read) && (!need.write || have.write) && (!need.execute || have.execute)
}

/// Permissions of a loadable ELF segment, read out of its flag word.
pub fn flags_from_elf(p_flags: u32) -> (r: MemFlags)
    ensures
        r.execute == (p_flags & 1 != 0),
        r.write == (p_flags & 2 != 0),
        r.read == (p_flags & 4 != 0),
{
    MemFlags { read: p_flags & 4 != 0, write: p_flags & 2 != 0, execute: p_flags & 1 != 0 }
}

/// A contiguous virtual address range backed by zero or more page frames.
/// `pages[i]` backs `[vaddr + i * PAGE_SIZE, vaddr + (i+1) * PAGE_SIZE)`;
/// `None` is an unbacked (lazy) page. A shared area holds its frames
/// jointly with the areas it was cloned from or into.
pub struct MapArea {
    pub vaddr: usize,
    pub pages: Vec<Option<usize>>,
    pub flags: MemFlags,
    pub shared: bool,
}

/// An address inside an area decomposes into a page slot in range and an
/// offset inside the page.
pub proof fn lemma_index_bounds(a: MapArea, va: int)
    requires
        a.contains(va),
    ensures
        0 <= a.page_index(va) < a.pages@.len(),
        0 <= a.page_off(va) < PAGE_SIZE,
        a.page_index(va) * (PAGE_SIZE as int) + a.page_off(va) == va - a.vaddr,
{
    let p = PAGE_SIZE as int;
    let d = va - a.vaddr;
    let pi = d / p;
    let po = d % p;
    lemma_fundamental_div_mod(d, p);
    assert(0 <= po < p);
    assert(0 <= pi && pi < a.pages@.len()) by (nonlinear_arith)
        requires
            0 <= d < a.pages@.len() * p,
            p > 0,
            d == p * pi + po,
            0 <= po < p,
    ;
    assert(pi * p + po == d) by (nonlinear_arith)
        requires
            d == p * pi + po,
    ;
}

/// Fork law, isolation half: all of an area's frames sit at or above
/// `boundary`, and memory changed only below it (as a parent's write after
/// a non-shared clone does) — then every byte the area shows stands.
pub proof fn lemma_fork_isolation(
    a: MapArea,
    p1: PhysMemory,
    p2: PhysMemory,
    boundary: int,
)
    requires
        a.frames_ok(p1),
        forall|i: int|
            0 <= i < a.pages@.len() && a.pages@[i] is Some ==> (#[trigger] a.pages@[i])->Some_0
                >= boundary,
        p1.frames@.len() <= p2.frames@.len(),
        forall|f: int|
            boundary <= f < p1.frames@.len() ==> #[trigger] p2.frame_bytes(f) == p1.frame_bytes(f),
    ensures
        forall|va: int| #[trigger] a.backed(va) ==> a.byte_at(p2, va) == a.byte_at(p1, va),
{
    assert forall|va: int| #[trigger] a.backed(va) implies a.byte_at(p2, va) == a.byte_at(
        p1,
        va,
    ) by {
        lemma_index_bounds(a, va);
        let pi = a.page_index(va);
        let f = a.pages@[pi]->Some_0 as int;
        assert(boundary <= f < p1.frames@.len());
    }
}

/// Fork law, sharing half: two areas over the same range holding the very
/// same frames (a shared area and its clone) show the same bytes in every
/// memory — writes through one are visible through the other.
pub proof fn lemma_shared_views_equal(a: MapArea, b: MapArea, phys: PhysMemory)
    requires
        a.vaddr == b.vaddr,
        a.pages@ == b.pages@,
    ensures
        forall|va: int| a.backed(va) <==> b.backed(va),
        forall|va: int| #[trigger] a.backed(va) ==> a.byte_at(phys, va) == b.byte_at(phys, va),
{
}

impl MapArea {
    /// The byte size of the area.
    pub open spec fn size(self) -> int {
        self.pages@.len() * (PAGE_SIZE as int)
    }

    /// One past the last address of the area.
    pub open spec fn end(self) -> int {
        self.vaddr + self.size()
    }

    /// Page-aligned, nonempty, and inside the address space.
    pub open spec fn wf(self) -> bool {
        &&& self.vaddr as int % (PAGE_SIZE as int) == 0
        &&& self.pages@.len() > 0
        &&& self.end() <= usize::MAX as int + 1
    }

    /// Every backed page names a frame that exists.
    pub open spec fn frames_ok(self, phys: PhysMemory) -> bool {
        forall|i: int|
            0 <= i < self.pages@.len() && self.pages@[i] is Some ==> (#[trigger] self.pages@[i])->Some_0
                < phys.frames@.len()
    }

    /// Whether `va` lies inside the area.
    pub open spec fn contains(self, va: int) -> bool {
        self.vaddr <= va < self.end()
    }

    /// The page slot holding `va`.
    pub open spec fn page_index(self, va: int) -> int {
        (va - self.vaddr) / (PAGE_SIZE as int)
    }

    /// The offset of `va` inside its page.
    pub open spec fn page_off(self, va: int) -> int {
        (va - self.vaddr) % (PAGE_SIZE as int)
    }

    /// Whether the page holding `va` is backed by a frame.
    pub open spec fn backed(self, va: int) -> bool {
        self.contains(va) && self.pages@[self.page_index(va)] is Some
    }

    /// The byte the area shows at `va` (meaningful when backed).
    pub open spec fn byte_at(self, phys: PhysMemory, va: int) -> u8 {
        phys.frame_bytes(self.pages@[self.page_index(va)]->Some_0 as int)[self.page_off(va)]
    }

    /// A lazy area: the range is reserved, no page is backed yet.
    #[verifier::loop_isolation(false)]
    pub fn new_lazy(vaddr: usize, npages: usize, flags: MemFlags, shared: bool) -> (r: MapArea)
        requires
            vaddr as int % (PAGE_SIZE as int) == 0,
            npages > 0,
            vaddr + npages * (PAGE_SIZE as int) <= usize::MAX as int + 1,
        ensures
            r.wf(),
            r.vaddr == vaddr,
            r.pages@.len() == npages,
            r.flags == flags,
            r.shared == shared,
            forall|i: int| 0 <= i < npages ==> r.pages@[i] is None,
    {
        let mut pages: Vec<Option<usize>> = Vec::new();
        let mut i: usize = 0;
        while i < npages
            invariant
                i <= npages,
                pages@.len() == i,
                forall|k: int| 0 <= k < i ==> pages@[k] is None,
            decreases npages - i,
        {
            pages.push(None);
            i = i + 1;
        }
        MapArea { vaddr, pages, flags, shared }
    }

    /// An eager area: every page allocated now and filled from `data`
    /// (zero-padded past its end).
    #[verifier::loop_isolation(false)]
    pub fn new_eager(
        vaddr: usize,
        npages: usize,
        flags: MemFlags,
        shared: bool,
        data: &Vec<u8>,
        phys: &mut PhysMemory,
    ) -> (r: MapArea)
        requires
            old(phys).wf(),
            vaddr as int % (PAGE_SIZE as int) == 0,
            npages > 0,
            vaddr + npages * (PAGE_SIZE as int) <= usize::MAX as int + 1,
            data@.len() <= npages * (PAGE_SIZE as int),
        ensures
            final(phys).wf(),
            phys_extends(*old(phys), *final(phys)),
            final(phys).frames@.len() == old(phys).frames@.len() + npages,
            forall|i: int|
                0 <= i < old(phys).frames@.len() ==> #[trigger] final(phys).frames@[i] == old(
                    phys,
                ).frames@[i],
            r.wf(),
            r.frames_ok(*final(phys)),
            r.vaddr == vaddr,
            r.pages@.len() == npages,
            r.flags == flags,
            r.shared == shared,
            forall|i: int|
                0 <= i < npages ==> (#[trigger] r.pages@[i]) == Some(
                    (old(phys).frames@.len() + i) as usize,
                ),
            forall|va: int|
                vaddr <= va < r.end() ==> r.backed(va) && r.byte_at(*final(phys), va) == (if va
                    - vaddr < data@.len() {
                    data@[va - vaddr]
                } else {
                    0
                }),
    {
        let ghost base_frame = phys.frames@.len();
        let mut pages: Vec<Option<usize>> = Vec::new();
        let mut i: usize = 0;
        while i < npages
            invariant
                old(phys).wf(),
                phys.wf(),
                phys_extends(*old(phys), *phys),
                phys.frames@.len() == base_frame + i,
                forall|k: int|
                    0 <= k < old(phys).frames@.len() ==> #[trigger] phys.frames@[k] == old(
                        phys,
                    ).frames@[k],
                i <= npages,
                pages@.len() == i,
                forall|k: int|
                    0 <= k < i ==> (#[trigger] pages@[k]) == Some((base_frame + k) as usize),
                forall|k: int|
                    0 <= k < i ==> #[trigger] phys.frame_bytes(base_frame + k) == page_from(
                        data@,
                        k * (PAGE_SIZE as int),
                    ),
            decreases npages - i,
        {
            proof {
                assert((i as int) * (PAGE_SIZE as int) + PAGE_SIZE <= npages * (PAGE_SIZE as int))
                    by (nonlinear_arith)
                    requires
                        i < npages,
                ;
            }
            let ghost prev = *phys;
            let f = phys.alloc_from(data, i * PAGE_SIZE);
            pages.push(Some(f));
            proof {
                assert forall|k: int|
                    0 <= k < i + 1 implies #[trigger] phys.frame_bytes(base_frame + k)
                    == page_from(data@, k * (PAGE_SIZE as int)) by {
                    if k < i {
                        assert(phys.frames@[base_frame + k] == prev.frames@[base_frame + k]);
                        assert(prev.frame_bytes(base_frame + k) == page_from(
                            data@,
                            k * (PAGE_SIZE as int),
                        ));
                    } else {
                        assert(f as int == base_frame + i);
                        assert(phys.frame_bytes(f as int) == page_from(
                            data@,
                            (i * PAGE_SIZE) as int,
                        ));
                    }
                }
            }
            i = i + 1;
        }
        let frame_count = phys.frames.len();
        let r = MapArea { vaddr, pages, flags, shared };
        proof {
            assert(frame_count == base_frame + npages);
            assert forall|va: int| vaddr <= va < r.end() implies r.backed(va) && r.byte_at(
                *phys,
                va,
            ) == (if va - vaddr < data@.len() {
                data@[va - vaddr]
            } else {
                0
            }) by {
                let p = PAGE_SIZE as int;
                let d = va - vaddr;
                let pi = d / p;
                let po = d % p;
                lemma_fundamental_div_mod(d, p);
                assert(0 <= po < p);
                assert(d == p * pi + po);
                assert(0 <= pi) by (nonlinear_arith)
                    requires
                        d >= 0,
                        p > 0,
                        d == p * pi + po,
                        0 <= po < p,
                ;
                assert(pi < npages) by (nonlinear_arith)
                    requires
                        d < npages * p,
                        p > 0,
                        d == p * pi + po,
                        0 <= po < p,
                ;
                assert(base_frame + pi < usize::MAX as int + 1);
                assert(r.pages@[pi] == Some((base_frame + pi) as usize));
                assert(((base_frame + pi) as usize) as int == base_frame + pi);
                assert(phys.frame_bytes(base_frame + pi) == page_from(data@, pi * p));
                assert(page_from(data@, pi * p)[po] == page_byte(data@, pi * p, po));
                assert(pi * p + po == d) by (nonlinear_arith)
                    requires
                        d == p * pi + po,
                ;
                assert(r.page_index(va) == pi && r.page_off(va) == po);
                assert(r.byte_at(*phys, va) == page_byte(data@, pi * p, po));
            }
        }
        r
    }

    /// Backs the page holding slot `pi` if it is still unbacked (with a
    /// fresh zeroed frame), and reports whether it was: faulting twice on
    /// one page is idempotent, the second fault sees it already loaded.
    pub fn fault_page(&mut self, pi: usize, phys: &mut PhysMemory) -> (newly: bool)
        requires
            old(phys).wf(),
            pi < old(self).pages@.len(),
        ensures
            final(phys).wf(),
            phys_extends(*old(phys), *final(phys)),
            forall|k: int|
                0 <= k < old(phys).frames@.len() ==> #[trigger] final(phys).frames@[k] == old(
                    phys,
                ).frames@[k],
            final(self).vaddr == old(self).vaddr,
            final(self).flags == old(self).flags,
            final(self).shared == old(self).shared,
            final(self).pages@.len() == old(self).pages@.len(),
            newly == (old(self).pages@[pi as int] is None),
            !newly ==> final(self).pages@ == old(self).pages@ && *final(phys) == *old(phys),
            newly ==> final(self).pages@ == old(self).pages@.update(
                pi as int,
                Some(old(phys).frames@.len() as usize),
            ) && final(phys).frames@.len() == old(phys).frames@.len() + 1
                && final(phys).frame_bytes(old(phys).frames@.len() as int) == zero_page()
                && old(phys).frames@.len() <= usize::MAX,
    {
        if self.pages[pi].is_some() {
            return false;
        }
        let f = phys.alloc_zeroed();
        self.pages.set(pi, Some(f));
        true
    }

    /// Reads the byte at `va`, if its page is backed.
    pub fn read_byte_at(&self, phys: &PhysMemory, va: usize) -> (r: Option<u8>)
        requires
            phys.wf(),
            self.wf(),
            self.frames_ok(*phys),
            self.contains(va as int),
        ensures
            r is Some <==> self.backed(va as int),
            r matches Some(b) ==> b == self.byte_at(*phys, va as int),
    {
        let off = va - self.vaddr;
        let pi = off / PAGE_SIZE;
        let po = off % PAGE_SIZE;
        proof {
            lemma_fundamental_div_mod(off as int, PAGE_SIZE as int);
            assert(pi < self.pages@.len()) by (nonlinear_arith)
                requires
                    (off as int) < self.pages@.len() * (PAGE_SIZE as int),
                    (PAGE_SIZE as int) > 0,
                    off as int == (PAGE_SIZE as int) * (pi as int) + (po as int),
                    0 <= (po as int) < (PAGE_SIZE as int),
            ;
        }
        match self.pages[pi] {
            Some(f) => Some(phys.read_byte(f, po)),
            None => None,
        }
    }

    /// Writes the byte at `va` of a backed page; only that byte of that
    /// frame changes.
    pub fn write_byte_at(&self, phys: &mut PhysMemory, va: usize, b: u8)
        requires
            old(phys).wf(),
            self.wf(),
            self.frames_ok(*old(phys)),
            self.backed(va as int),
        ensures
            final(phys).wf(),
            final(phys).frames@.len() == old(phys).frames@.len(),
            final(phys).frame_bytes(self.pages@[self.page_index(va as int)]->Some_0 as int)
                == old(phys).frame_bytes(self.pages@[self.page_index(va as int)]->Some_0 as int).update(
                self.page_off(va as int),
                b,
            ),
            forall|k: int|
                0 <= k < old(phys).frames@.len() && k != self.pages@[self.page_index(va as int)]->Some_0 as int ==> #[trigger] final(phys).frames@[k] == old(phys).frames@[k],
            self.byte_at(*final(phys), va as int) == b,
    {
        let off = va - self.vaddr;
        let pi = off / PAGE_SIZE;
        let po = off % PAGE_SIZE;
        proof {
            lemma_fundamental_div_mod(off as int, PAGE_SIZE as int);
            assert(pi < self.pages@.len()) by (nonlinear_arith)
                requires
                    (off as int) < self.pages@.len() * (PAGE_SIZE as int),
                    (PAGE_SIZE as int) > 0,
                    off as int == (PAGE_SIZE as int) * (pi as int) + (po as int),
                    0 <= (po as int) < (PAGE_SIZE as int),
            ;
        }
        let f = match self.pages[pi] {
            Some(f) => f,
            None => 0,
        };
        phys.write_byte(f, po, b);
    }

    /// Drops every page from slot `keep_pages` on and gives up their
    /// frames; the area keeps `[vaddr, vaddr + keep_pages * PAGE_SIZE)`.
    #[verifier::loop_isolation(false)]
    pub fn shrink_right(&mut self, keep_pages: usize, phys: &mut PhysMemory)
        requires
            old(phys).wf(),
            old(self).frames_ok(*old(phys)),
            0 < keep_pages < old(self).pages@.len(),
        ensures
            final(phys).wf(),
            phys_extends(*old(phys), *final(phys)),
            final(phys).frames@.len() == old(phys).frames@.len(),
            final(self).vaddr == old(self).vaddr,
            final(self).flags == old(self).flags,
            final(self).shared == old(self).shared,
            final(self).pages@ == old(self).pages@.subrange(0, keep_pages as int),
            final(self).frames_ok(*final(phys)),
    {
        let ghost old_pages = self.pages@;
        proof {
            assert(old_pages.subrange(0, old_pages.len() as int) =~= old_pages);
        }
        while self.pages.len() > keep_pages
            invariant
                phys.wf(),
                phys_extends(*old(phys), *phys),
                phys.frames@.len() == old(phys).frames@.len(),
                keep_pages <= self.pages@.len(),
                self.pages@.len() <= old_pages.len(),
                self.pages@ == old_pages.subrange(0, self.pages@.len() as int),
                self.vaddr == old(self).vaddr,
                self.flags == old(self).flags,
                self.shared == old(self).shared,
            decreases self.pages@.len(),
        {
            let ghost before = self.pages@;
            let slot = self.pages.pop();
            proof {
                assert(self.pages@ =~= old_pages.subrange(0, self.pages@.len() as int));
            }
            match slot {
                Some(Some(f)) => {
                    proof {
                        assert(before[before.len() - 1] == Some(f));
                        assert(old_pages[before.len() - 1] == Some(f));
                    }
                    phys.dec_ref(f);
                },
                _ => {},
            }
        }
    }

    /// Drops the first `drop_pages` pages and gives up their frames; the
    /// area keeps its tail, now starting `drop_pages` pages higher.
    #[verifier::loop_isolation(false)]
    pub fn shrink_left(&mut self, drop_pages: usize, phys: &mut PhysMemory)
        requires
            old(phys).wf(),
            old(self).wf(),
            old(self).frames_ok(*old(phys)),
            0 < drop_pages < old(self).pages@.len(),
        ensures
            final(phys).wf(),
            phys_extends(*old(phys), *final(phys)),
            final(phys).frames@.len() == old(phys).frames@.len(),
            final(self).vaddr == old(self).vaddr + drop_pages * (PAGE_SIZE as int),
            final(self).flags == old(self).flags,
            final(self).shared == old(self).shared,
            final(self).pages@ == old(self).pages@.subrange(
                drop_pages as int,
                old(self).pages@.len() as int,
            ),
            final(self).frames_ok(*final(phys)),
            final(self).wf(),
    {
        proof {
            assert((drop_pages as int) * (PAGE_SIZE as int) + PAGE_SIZE <= self.pages@.len() * (
            PAGE_SIZE as int)) by (nonlinear_arith)
                requires
                    drop_pages < self.pages@.len(),
            ;
        }
        let tail = self.pages.split_off(drop_pages);
        let mut i: usize = 0;
        while i < drop_pages
            invariant
                phys.wf(),
                phys_extends(*old(phys), *phys),
                phys.frames@.len() == old(phys).frames@.len(),
                i <= drop_pages,
                self.pages@ == old(self).pages@.subrange(0, drop_pages as int),
            decreases drop_pages - i,
        {
            match self.pages[i] {
                Some(f) => {
                    proof {
                        assert(old(self).pages@[i as int] == Some(f));
                    }
                    phys.dec_ref(f);
                },
                None => {},
            }
            i = i + 1;
        }
        self.pages = tail;
        self.vaddr = self.vaddr + drop_pages * PAGE_SIZE;
        proof {
            let v0 = old(self).vaddr as int;
            let n0 = old(self).pages@.len() as int;
            let v1 = self.vaddr as int;
            let n1 = self.pages@.len() as int;
            let k = drop_pages as int;
            let p = PAGE_SIZE as int;
            assert(v1 == v0 + k * p);
            assert(k * p == p * k) by (nonlinear_arith);
            lemma_mod_multiples_vanish(k, v0, p);
            lemma_small_mod(0nat, p as nat);
            assert(v1 % p == 0);
            assert(v1 + n1 * p == v0 + n0 * p) by (nonlinear_arith)
                requires
                    v1 == v0 + k * p,
                    n1 == n0 - k,
            ;
        }
    }

    /// Splits the area at page slot `at_pages`: the area keeps the left
    /// part, the right part comes back as a new area with the same
    /// permissions.
    pub fn split(&mut self, at_pages: usize) -> (right: MapArea)
        requires
            old(self).wf(),
            0 < at_pages < old(self).pages@.len(),
        ensures
            final(self).vaddr == old(self).vaddr,
            final(self).flags == old(self).flags,
            final(self).shared == old(self).shared,
            final(self).pages@ == old(self).pages@.subrange(0, at_pages as int),
            final(self).wf(),
            right.vaddr == old(self).vaddr + at_pages * (PAGE_SIZE as int),
            right.flags == old(self).flags,
            right.shared == old(self).shared,
            right.pages@ == old(self).pages@.subrange(
                at_pages as int,
                old(self).pages@.len() as int,
            ),
            right.wf(),
            right.end() == old(self).end(),
    {
        proof {
            assert((at_pages as int) * (PAGE_SIZE as int) + PAGE_SIZE <= self.pages@.len() * (
            PAGE_SIZE as int)) by (nonlinear_arith)
                requires
                    at_pages < self.pages@.len(),
            ;
        }
        let tail = self.pages.split_off(at_pages);
        let right_vaddr = self.vaddr + at_pages * PAGE_SIZE;
        let right = MapArea {
            vaddr: right_vaddr,
            pages: tail,
            flags: self.flags,
            shared: self.shared,
        };
        proof {
            let v0 = old(self).vaddr as int;
            let n0 = old(self).pages@.len() as int;
            let vr = right.vaddr as int;
            let nr = right.pages@.len() as int;
            let nl = self.pages@.len() as int;
            let k = at_pages as int;
            let p = PAGE_SIZE as int;
            assert(vr == v0 + k * p);
            assert(k * p == p * k) by (nonlinear_arith);
            lemma_mod_multiples_vanish(k, v0, p);
            lemma_small_mod(0nat, p as nat);
            assert(vr % p == 0);
            assert(vr + nr * p == v0 + n0 * p) by (nonlinear_arith)
                requires
                    vr == v0 + k * p,
                    nr == n0 - k,
            ;
            assert(nl * p <= n0 * p) by (nonlinear_arith)
                requires
                    nl == k,
                    0 <= k < n0,
                    p > 0,
            ;
        }
        right
    }

    /// Cuts the pages `[s_pages, e_pages)` out of the area, giving up their
    /// frames: the area keeps the left rim, the right rim comes back as a
    /// new area.
    pub fn remove_mid(&mut self, s_pages: usize, e_pages: usize, phys: &mut PhysMemory) -> (right:
        MapArea)
        requires
            old(phys).wf(),
            old(self).wf(),
            old(self).frames_ok(*old(phys)),
            0 < s_pages < e_pages < old(self).pages@.len(),
        ensures
            final(phys).wf(),
            phys_extends(*old(phys), *final(phys)),
            final(phys).frames@.len() == old(phys).frames@.len(),
            final(self).vaddr == old(self).vaddr,
            final(self).flags == old(self).flags,
            final(self).shared == old(self).shared,
            final(self).pages@ == old(self).pages@.subrange(0, s_pages as int),
            final(self).wf(),
            final(self).frames_ok(*final(phys)),
            right.vaddr == old(self).vaddr + e_pages * (PAGE_SIZE as int),
            right.flags == old(self).flags,
            right.shared == old(self).shared,
            right.pages@ == old(self).pages@.subrange(
                e_pages as int,
                old(self).pages@.len() as int,
            ),
            right.wf(),
            right.frames_ok(*final(phys)),
            right.end() == old(self).end(),
    {
        let mut right = self.split(e_pages);
        self.shrink_right(s_pages, phys);
        proof {
            assert(self.pages@ =~= old(self).pages@.subrange(0, s_pages as int));
            assert(right.pages@ =~= old(self).pages@.subrange(
                e_pages as int,
                old(self).pages@.len() as int,
            ));
        }
        right
    }

    /// Clones the area for a fork.
    ///
    /// A shared area first force-faults its unbacked pages, then hands the
    /// very same frames to the child with one more owner each: parent and
    /// child writes stay mutually visible. A non-shared area gets fresh
    /// frames holding a full copy of the parent's bytes at call time —
    /// eager copy-on-fork — so neither side's later writes reach the other.
    #[verifier::loop_isolation(false)]
    pub fn clone_alloc(&mut self, phys: &mut PhysMemory) -> (child: MapArea)
        requires
            old(phys).wf(),
            old(self).wf(),
            old(self).frames_ok(*old(phys)),
        ensures
            final(phys).wf(),
            phys_extends(*old(phys), *final(phys)),
            final(self).vaddr == old(self).vaddr,
            final(self).flags == old(self).flags,
            final(self).shared == old(self).shared,
            final(self).pages@.len() == old(self).pages@.len(),
            final(self).wf(),
            final(self).frames_ok(*final(phys)),
            child.vaddr == old(self).vaddr,
            child.flags == old(self).flags,
            child.shared == old(self).shared,
            child.pages@.len() == old(self).pages@.len(),
            child.wf(),
            child.frames_ok(*final(phys)),
            !old(self).shared ==> final(self).pages@ == old(self).pages@ && (forall|i: int|
                0 <= i < old(self).pages@.len()
                    ==> ((#[trigger] child.pages@[i]) is Some <==> old(self).pages@[i] is Some))
                && (forall|i: int|
                0 <= i < old(self).pages@.len() && child.pages@[i] is Some
                    ==> (#[trigger] child.pages@[i])->Some_0 >= old(phys).frames@.len()) && (
            forall|va: int|
                #[trigger] old(self).backed(va)
                    ==> child.backed(va) && child.byte_at(*final(phys), va) == old(self).byte_at(
                    *old(phys),
                    va,
                )),
            old(self).shared ==> child.pages@ == final(self).pages@ && (forall|i: int|
                0 <= i < old(self).pages@.len() ==> (#[trigger] final(self).pages@[i]) is Some) && (
            forall|i: int|
                0 <= i < old(self).pages@.len() && old(self).pages@[i] is Some
                    ==> (#[trigger] final(self).pages@[i]) == old(self).pages@[i]) && (forall|va: int|
                #[trigger] old(self).backed(va)
                    ==> final(self).byte_at(*final(phys), va) == old(self).byte_at(*old(phys), va))
                && (forall|va: int|
                old(self).contains(va) && !(#[trigger] old(self).backed(va))
                    ==> final(self).byte_at(*final(phys), va) == 0),
    {
        let n = self.pages.len();
        if self.shared {
            let mut i: usize = 0;
            while i < n
                invariant
                    phys.wf(),
                    phys_extends(*old(phys), *phys),
                    i <= n,
                    self.vaddr == old(self).vaddr,
                    self.flags == old(self).flags,
                    self.shared == old(self).shared,
                    self.pages@.len() == n,
                    self.frames_ok(*phys),
                    forall|k: int| 0 <= k < i ==> (#[trigger] self.pages@[k]) is Some,
                    forall|k: int|
                        0 <= k < n && old(self).pages@[k] is Some ==> (#[trigger] self.pages@[k])
                            == old(self).pages@[k],
                    forall|k: int|
                        0 <= k < n && old(self).pages@[k] is None && self.pages@[k] is Some
                            ==> phys.frame_bytes((#[trigger] self.pages@[k])->Some_0 as int)
                            == zero_page(),
                    forall|k: int|
                        0 <= k < old(phys).frames@.len() ==> #[trigger] phys.frames@[k] == old(
                            phys,
                        ).frames@[k],
                decreases n - i,
            {
                if self.pages[i].is_none() {
                    let ghost prev = *phys;
                    let ghost prev_pages = self.pages@;
                    let f = phys.alloc_zeroed();
                    self.pages.set(i, Some(f));
                    proof {
                        assert forall|k: int|
                            0 <= k < n && old(self).pages@[k] is None && self.pages@[k] is Some
                                implies phys.frame_bytes(
                            (#[trigger] self.pages@[k])->Some_0 as int,
                        ) == zero_page() by {
                            if k != i {
                                assert(self.pages@[k] == prev_pages[k]);
                                assert(prev.frame_bytes(self.pages@[k]->Some_0 as int)
                                    == zero_page());
                            }
                        }
                    }
                }
                i = i + 1;
            }
            let ghost faulted = *self;
            let ghost mid_phys = *phys;
            let mut child_pages: Vec<Option<usize>> = Vec::new();
            let mut j: usize = 0;
            while j < n
                invariant
                    phys.wf(),
                    phys.frames@.len() == mid_phys.frames@.len(),
                    forall|k: int|
                        0 <= k < mid_phys.frames@.len() ==> #[trigger] phys.frame_bytes(k)
                            == mid_phys.frame_bytes(k),
                    j <= n,
                    child_pages@.len() == j,
                    *self == faulted,
                    self.pages@.len() == n,
                    self.frames_ok(mid_phys),
                    forall|k: int| 0 <= k < j ==> #[trigger] child_pages@[k] == self.pages@[k],
                decreases n - j,
            {
                match self.pages[j] {
                    Some(f) => {
                        let ghost prevp = *phys;
                        phys.inc_ref(f);
                        child_pages.push(Some(f));
                        proof {
                            assert forall|k: int|
                                0 <= k < mid_phys.frames@.len() implies #[trigger] phys.frame_bytes(
                                k,
                            ) == mid_phys.frame_bytes(k) by {
                                if k != f {
                                    assert(phys.frames@[k] == prevp.frames@[k]);
                                } else {
                                    assert(phys.frame_bytes(k) == prevp.frame_bytes(k));
                                }
                                assert(prevp.frame_bytes(k) == mid_phys.frame_bytes(k));
                            }
                        }
                    },
                    None => {
                        child_pages.push(None);
                    },
                }
                j = j + 1;
            }
            let child = MapArea {
                vaddr: self.vaddr,
                pages: child_pages,
                flags: self.flags,
                shared: self.shared,
            };
            proof {
                assert forall|k: int|
                    0 <= k < old(phys).frames@.len() implies (#[trigger] phys.frames@[k]).bytes@
                    == old(phys).frames@[k].bytes@ by {
                    assert(phys.frame_bytes(k) == mid_phys.frame_bytes(k));
                    assert(mid_phys.frames@[k] == old(phys).frames@[k]);
                }
                assert(child.pages@ =~= self.pages@);
                assert forall|va: int| #[trigger] old(self).backed(va) implies self.byte_at(
                    *phys,
                    va,
                ) == old(self).byte_at(*old(phys), va) by {
                    lemma_index_bounds(*old(self), va);
                    let pi = old(self).page_index(va);
                    assert(self.pages@[pi] == old(self).pages@[pi]);
                    let f = old(self).pages@[pi]->Some_0 as int;
                    assert(f < old(phys).frames@.len());
                    assert(mid_phys.frames@[f] == old(phys).frames@[f]);
                    assert(phys.frame_bytes(f) == mid_phys.frame_bytes(f));
                }
                assert forall|va: int|
                    old(self).contains(va) && !(#[trigger] old(self).backed(va)) implies self.byte_at(
                    *phys,
                    va,
                ) == 0 by {
                    lemma_index_bounds(*old(self), va);
                    let pi = old(self).page_index(va);
                    assert(old(self).pages@[pi] is None);
                    assert(self.pages@[pi] is Some);
                    assert(phys.frame_bytes(self.pages@[pi]->Some_0 as int) == zero_page());
                }
            }
            child
        } else {
            let mut child_pages: Vec<Option<usize>> = Vec::new();
            let mut i: usize = 0;
            while i < n
                invariant
                    phys.wf(),
                    phys_extends(*old(phys), *phys),
                    i <= n,
                    *self == *old(self),
                    self.pages@.len() == n,
                    child_pages@.len() == i,
                    forall|k: int|
                        0 <= k < i ==> ((#[trigger] child_pages@[k]) is Some <==> old(
                            self,
                        ).pages@[k] is Some),
                    forall|k: int|
                        0 <= k < i && child_pages@[k] is Some ==> old(phys).frames@.len() <= (
                        #[trigger] child_pages@[k])->Some_0 < phys.frames@.len(),
                    forall|k: int|
                        0 <= k < i && child_pages@[k] is Some ==> phys.frame_bytes(
                            (#[trigger] child_pages@[k])->Some_0 as int,
                        ) == old(phys).frame_bytes(old(self).pages@[k]->Some_0 as int),
                    forall|k: int|
                        0 <= k < old(phys).frames@.len() ==> #[trigger] phys.frames@[k] == old(
                            phys,
                        ).frames@[k],
                decreases n - i,
            {
                let ghost prev = *phys;
                let ghost prev_child = child_pages@;
                match self.pages[i] {
                    Some(f) => {
                        let c = phys.alloc_copy_of(f);
                        child_pages.push(Some(c));
                    },
                    None => {
                        child_pages.push(None);
                    },
                }
                proof {
                    assert forall|k: int|
                        0 <= k < i + 1 && child_pages@[k] is Some implies phys.frame_bytes(
                        (#[trigger] child_pages@[k])->Some_0 as int,
                    ) == old(phys).frame_bytes(old(self).pages@[k]->Some_0 as int) by {
                        if k < i {
                            assert(child_pages@[k] == prev_child[k]);
                            assert(prev.frame_bytes(child_pages@[k]->Some_0 as int) == old(
                                phys,
                            ).frame_bytes(old(self).pages@[k]->Some_0 as int));
                            assert(child_pages@[k]->Some_0 < prev.frames@.len());
                        }
                    }
                }
                i = i + 1;
            }
            let child = MapArea {
                vaddr: self.vaddr,
                pages: child_pages,
                flags: self.flags,
                shared: self.shared,
            };
            proof {
                assert forall|va: int| #[trigger] old(self).backed(va) implies child.backed(va)
                    && child.byte_at(*phys, va) == old(self).byte_at(*old(phys), va) by {
                    lemma_index_bounds(*old(self), va);
                    let pi = old(self).page_index(va);
                    assert(child.pages@[pi] is Some);
                    assert(child.byte_at(*phys, va) == phys.frame_bytes(
                        child.pages@[pi]->Some_0 as int,
                    )[old(self).page_off(va)]);
                }
            }
            child
        }
    }

    /// Gives up every frame of the area; the range is gone.
    #[verifier::loop_isolation(false)]
    pub fn dealloc(&mut self, phys: &mut PhysMemory)
        requires
            old(phys).wf(),
            old(self).frames_ok(*old(phys)),
        ensures
            final(phys).wf(),
            phys_extends(*old(phys), *final(phys)),
            final(phys).frames@.len() == old(phys).frames@.len(),
            final(self).pages@.len() == 0,
    {
        while self.pages.len() > 0
            invariant
                phys.wf(),
                phys_extends(*old(phys), *phys),
                phys.frames@.len() == old(phys).frames@.len(),
                self.pages@.len() <= old(self).pages@.len(),
                forall|i: int|
                    0 <= i < self.pages@.len() ==> self.pages@[i] == old(self).pages@[i],
            decreases self.pages@.len(),
        {
            let ghost before = self.pages@;
            let slot = self.pages.pop();
            match slot {
                Some(Some(f)) => {
                    proof {
                        assert(before[before.len() - 1] == Some(f));
                    }
                    phys.dec_ref(f);
                },
                _ => {},
            }
        }
    }
}

} // verus!
