//! The address space of one process: an ordered collection of
//! non-overlapping map areas over the physical frames. Regions are created
//! eagerly (with data) or lazily (faulted in page by page), carved up when
//! a fresh region needs their range, and cloned as a whole by fork.

use vstd::prelude::*;
use vstd::arithmetic::div_mod::lemma_fundamental_div_mod;
use crate::area::{MapArea, MemFlags, flags_allow, flags_contain, lemma_index_bounds};
use crate::phys::{PAGE_SIZE, PhysMemory, phys_extends, zero_page};

verus! {

/// Areas stand in address order and never overlap.
pub open spec fn sorted_disjoint(areas: Seq<MapArea>) -> bool {
    forall|i: int, j: int|
        0 <= i < j < areas.len() ==> (#[trigger] areas[i]).end() <= (#[trigger] areas[j]).vaddr
}

/// Every area is well-formed.
pub open spec fn all_wf(areas: Seq<MapArea>) -> bool {
    forall|i: int| 0 <= i < areas.len() ==> (#[trigger] areas[i]).wf()
}

/// Every area's frames exist.
pub open spec fn all_frames_ok(areas: Seq<MapArea>, phys: PhysMemory) -> bool {
    forall|i: int| 0 <= i < areas.len() ==> (#[trigger] areas[i]).frames_ok(phys)
}

/// Some area holds `va`.
pub open spec fn covered_by(areas: Seq<MapArea>, va: int) -> bool {
    exists|i: int| 0 <= i < areas.len() && (#[trigger] areas[i]).contains(va)
}

/// In a non-overlapping collection at most one area holds an address.
pub proof fn lemma_unique_area(areas: Seq<MapArea>, va: int, i: int, j: int)
    requires
        sorted_disjoint(areas),
        0 <= i < areas.len(),
        0 <= j < areas.len(),
        areas[i].contains(va),
        areas[j].contains(va),
    ensures
        i == j,
{
    if i < j {
        assert(areas[i].end() <= areas[j].vaddr);
    }
    if j < i {
        assert(areas[j].end() <= areas[i].vaddr);
    }
}

/// Appending one area extends the covered addresses by exactly its range.
pub proof fn lemma_covered_push(areas: Seq<MapArea>, a: MapArea, va: int)
    ensures
        covered_by(areas.push(a), va) <==> (covered_by(areas, va) || a.contains(va)),
{
    if covered_by(areas, va) {
        let i = choose|i: int| 0 <= i < areas.len() && (#[trigger] areas[i]).contains(va);
        assert(areas.push(a)[i].contains(va));
    }
    if a.contains(va) {
        assert(areas.push(a)[areas.len() as int].contains(va));
    }
    if covered_by(areas.push(a), va) {
        let i = choose|i: int|
            0 <= i < areas.push(a).len() && (#[trigger] areas.push(a)[i]).contains(va);
        if i < areas.len() {
            assert(areas[i].contains(va));
        } else {
            assert(a.contains(va));
        }
    }
}

/// For an address past the base, lying inside the area is the same as its
/// page slot being in range.
pub proof fn lemma_contains_iff_slot(a: MapArea, va: int)
    requires
        a.vaddr <= va,
    ensures
        a.contains(va) <==> (va - a.vaddr) / (PAGE_SIZE as int) < a.pages@.len(),
{
    let p = PAGE_SIZE as int;
    let d = va - a.vaddr;
    let q = d / p;
    let r = d % p;
    let n = a.pages@.len() as int;
    lemma_fundamental_div_mod(d, p);
    assert(d < n * p ==> q < n) by (nonlinear_arith)
        requires
            d == p * q + r,
            0 <= r < p,
            0 <= d,
    ;
    assert(q < n ==> d < n * p) by (nonlinear_arith)
        requires
            d == p * q + r,
            0 <= r < p,
            0 <= d,
    ;
}

/// How a page fault ended when the address was mapped with fitting
/// permissions.
#[derive(Clone, Copy, Debug, PartialEq, Eq, Structural)]
pub enum FaultOutcome {
    /// The page was unbacked; one fresh zeroed frame now backs it.
    Allocated,
    /// The page was already backed; nothing changed.
    AlreadyBacked,
}

/// Why a page fault failed; the caller terminates the process.
#[derive(Clone, Copy, Debug, PartialEq, Eq, Structural)]
pub enum MemFault {
    /// No area holds the address.
    Unmapped,
    /// The area holding the address does not grant the access.
    Protection,
}

/// The ordered collection of non-overlapping map areas of one process.
pub struct MemorySet {
    pub areas: Vec<MapArea>,
}

impl MemorySet {
    /// Areas well-formed, in address order, non-overlapping.
    pub open spec fn wf(self) -> bool {
        all_wf(self.areas@) && sorted_disjoint(self.areas@)
    }

    /// Every area's frames exist in `phys`.
    pub open spec fn frames_ok(self, phys: PhysMemory) -> bool {
        all_frames_ok(self.areas@, phys)
    }

    /// Some area holds `va`.
    pub open spec fn covered(self, va: int) -> bool {
        covered_by(self.areas@, va)
    }

    /// No area touches `[start, end)`.
    pub open spec fn range_free(self, start: int, end: int) -> bool {
        forall|i: int|
            0 <= i < self.areas@.len() ==> (#[trigger] self.areas@[i]).end() <= start || end
                <= self.areas@[i].vaddr
    }

    /// An empty address space.
    pub fn new() -> (r: MemorySet)
        ensures
            r.wf(),
            r.areas@.len() == 0,
            forall|phys: PhysMemory| r.frames_ok(phys),
    {
        MemorySet { areas: Vec::new() }
    }

    /// Finds the area holding `va`, if one does.
    #[verifier::loop_isolation(false)]
    pub fn find_area(&self, va: usize) -> (r: Option<usize>)
        ensures
            ({
                match r {
                    Some(u) => u < self.areas@.len() && self.areas@[u as int].contains(va as int),
                    None => !self.covered(va as int),
                }
            }),
    {
        let n = self.areas.len();
        let mut i: usize = 0;
        while i < n
            invariant
                i <= n,
                forall|k: int| 0 <= k < i ==> !(#[trigger] self.areas@[k]).contains(va as int),
            decreases n - i,
        {
            let a = &self.areas[i];
            proof {
                if a.vaddr <= va {
                    lemma_contains_iff_slot(self.areas@[i as int], va as int);
                }
            }
            if a.vaddr <= va && (va - a.vaddr) / PAGE_SIZE < a.pages.len() {
                return Some(i);
            }
            i = i + 1;
        }
        None
    }

    /// Reserves or populates the region `[vaddr, vaddr + size)`.
    ///
    /// With data the pages are allocated and filled now (zero-padded past
    /// the data); the region is live immediately. Without, the range is
    /// only reserved: the table points at a sentinel and pages arrive on
    /// first fault. The range must be free of every existing area.
    #[verifier::loop_isolation(false)]
    #[verifier::rlimit(100)]
    #[verifier::spinoff_prover]
    pub fn new_region(
        &mut self,
        vaddr: usize,
        size: usize,
        flags: MemFlags,
        shared: bool,
        data: Option<&Vec<u8>>,
        phys: &mut PhysMemory,
    )
        requires
            old(self).wf(),
            old(self).frames_ok(*old(phys)),
            old(phys).wf(),
            vaddr as int % (PAGE_SIZE as int) == 0,
            size as int % (PAGE_SIZE as int) == 0,
            size > 0,
            vaddr + size <= usize::MAX as int + 1,
            old(self).range_free(vaddr as int, vaddr + size),
            data matches Some(d) ==> d@.len() <= size,
        ensures
            final(self).wf(),
            final(self).frames_ok(*final(phys)),
            final(phys).wf(),
            phys_extends(*old(phys), *final(phys)),
            forall|k: int|
                0 <= k < old(phys).frames@.len() ==> #[trigger] final(phys).frames@[k] == old(
                    phys,
                ).frames@[k],
            forall|va: int|
                covered_by(final(self).areas@, va) <==> (covered_by(old(self).areas@, va) || (
                vaddr <= va < vaddr + size)),
            data matches Some(d) ==> region_inserted(
                old(self).areas@,
                final(self).areas@,
                *final(phys),
                split_pos(old(self).areas@, vaddr as int),
                vaddr as int,
                size as int,
                flags,
                shared,
                Some(d@),
            ),
            data is None ==> region_inserted(
                old(self).areas@,
                final(self).areas@,
                *final(phys),
                split_pos(old(self).areas@, vaddr as int),
                vaddr as int,
                size as int,
                flags,
                shared,
                None,
            ),
    {
        let npages = size / PAGE_SIZE;
        proof {
            lemma_fundamental_div_mod(size as int, PAGE_SIZE as int);
            assert(npages * (PAGE_SIZE as int) == size) by (nonlinear_arith)
                requires
                    size as int == (PAGE_SIZE as int) * (npages as int) + (size as int % (
                    PAGE_SIZE as int)),
                    size as int % (PAGE_SIZE as int) == 0,
            ;
        }
        let area = match data {
            Some(d) => MapArea::new_eager(vaddr, npages, flags, shared, d, phys),
            None => MapArea::new_lazy(vaddr, npages, flags, shared),
        };
        proof {
            if data is None {
                assert forall|va: int| !(#[trigger] area.backed(va)) by {
                    if area.contains(va) {
                        lemma_index_bounds(area, va);
                    }
                }
            }
        }
        let n = self.areas.len();
        let mut k: usize = 0;
        while k < n
            invariant
                n == self.areas@.len(),
                k <= n,
                forall|j: int| 0 <= j < k ==> (#[trigger] self.areas@[j]).vaddr < vaddr,
            decreases n - k,
        {
            if self.areas[k].vaddr >= vaddr {
                break;
            }
            k = k + 1;
        }
        let ghost old_areas = self.areas@;
        proof {
            assert forall|j: int| 0 <= j < old_areas.len() implies ((j < k ==> (
            #[trigger] old_areas[j]).end() <= vaddr) && (j >= k ==> vaddr + size
                <= old_areas[j].vaddr)) by {
                if j < k {
                    assert(old_areas[j].vaddr < vaddr);
                    assert(old_areas[j].end() <= vaddr || vaddr + size <= old_areas[j].vaddr);
                } else {
                    if k < old_areas.len() as int {
                        assert(old_areas[k as int].vaddr >= vaddr);
                        if j > k {
                            assert(old_areas[k as int].end() <= old_areas[j].vaddr);
                            assert(old_areas[k as int].wf());
                        }
                        assert(old_areas[j].vaddr >= vaddr);
                        assert(old_areas[j].wf());
                        assert(old_areas[j].end() > old_areas[j].vaddr) by (nonlinear_arith)
                            requires
                                old_areas[j].wf(),
                        ;
                        assert(!(old_areas[j].end() <= vaddr));
                    }
                }
            }
        }
        self.areas.insert(k, area);
        proof {
            let ins = self.areas@;
            assert(ins == old_areas.insert(k as int, area));
            assert forall|i: int, j: int|
                0 <= i < j < ins.len() implies (#[trigger] ins[i]).end()
                <= (#[trigger] ins[j]).vaddr by {
                lemma_insert_index(old_areas, k as int, area, i);
                lemma_insert_index(old_areas, k as int, area, j);
            }
            assert forall|i: int| 0 <= i < ins.len() implies (#[trigger] ins[i]).wf() by {
                lemma_insert_index(old_areas, k as int, area, i);
            }
            assert forall|i: int|
                0 <= i < ins.len() implies (#[trigger] ins[i]).frames_ok(*phys) by {
                lemma_insert_index(old_areas, k as int, area, i);
                if i != k {
                    let j = if i < k {
                        i
                    } else {
                        i - 1
                    };
                    assert(old_areas[j].frames_ok(*old(phys)));
                }
            }
            assert forall|va: int|
                covered_by(ins, va) <==> (covered_by(old_areas, va) || (vaddr <= va < vaddr
                    + size)) by {
                lemma_covered_insert(old_areas, k as int, area, va);
                assert(area.contains(va) <==> (vaddr <= va < vaddr + size));
            }
            lemma_insert_index(old_areas, k as int, area, k as int);
            assert(ins[k as int] == area);
            assert(ins == old_areas.insert(k as int, ins[k as int]));
            assert(area.end() == vaddr + size);
            if data is Some {
                let d = data->Some_0;
                assert forall|va: int|
                    vaddr <= va < vaddr + size implies (#[trigger] ins[k as int].backed(va))
                    && ins[k as int].byte_at(*phys, va) == (if va - vaddr < d@.len() {
                    d@[va - vaddr]
                } else {
                    0
                }) by {
                    assert(area.backed(va));
                    assert(area.byte_at(*phys, va) == (if va - vaddr < d@.len() {
                        d@[va - vaddr]
                    } else {
                        0
                    }));
                }
            } else {
                assert forall|va: int| !(#[trigger] ins[k as int].backed(va)) by {
                    assert(!area.backed(va));
                }
            }
            lemma_split_pos(old_areas, vaddr as int, k as int);
            if data is Some {
                lemma_region_inserted_intro(
                    old_areas,
                    ins,
                    *phys,
                    k as int,
                    vaddr as int,
                    size as int,
                    flags,
                    shared,
                    Some((data->Some_0)@),
                );
            } else {
                lemma_region_inserted_intro(
                    old_areas,
                    ins,
                    *phys,
                    k as int,
                    vaddr as int,
                    size as int,
                    flags,
                    shared,
                    None,
                );
            }
        }
    }

    /// Handles a page fault at `va` for an access needing `access`.
    ///
    /// An unmapped address or one whose area does not grant the access is a
    /// typed fault with nothing changed. Inside a granting area the fault
    /// succeeds: the first one on a page backs it with a fresh zeroed frame,
    /// and a repeat is idempotent — it reports the page already loaded and
    /// changes nothing.
    pub fn handle_page_fault(&mut self, va: usize, access: MemFlags, phys: &mut PhysMemory) -> (r:
        Result<FaultOutcome, MemFault>)
        requires
            old(self).wf(),
            old(self).frames_ok(*old(phys)),
            old(phys).wf(),
        ensures
            final(self).wf(),
            final(self).frames_ok(*final(phys)),
            final(phys).wf(),
            phys_extends(*old(phys), *final(phys)),
            forall|k: int|
                0 <= k < old(phys).frames@.len() ==> #[trigger] final(phys).frames@[k] == old(
                    phys,
                ).frames@[k],
            forall|w: int| covered_by(final(self).areas@, w) <==> covered_by(old(self).areas@, w),
            !old(self).covered(va as int) ==> r == Err::<FaultOutcome, MemFault>(MemFault::Unmapped)
                && final(self).areas@ == old(self).areas@ && *final(phys) == *old(phys),
            forall|i: int|
                0 <= i < old(self).areas@.len() && (#[trigger] old(self).areas@[i]).contains(
                    va as int,
                ) ==> handled_fault(
                    old(self).areas@,
                    final(self).areas@,
                    *old(phys),
                    *final(phys),
                    i,
                    va as int,
                    access,
                    r,
                ),
    {
        let found = self.find_area(va);
        let i = match found {
            None => {
                return Err(MemFault::Unmapped);
            },
            Some(i) => i,
        };
        proof {
            assert forall|j: int|
                0 <= j < self.areas@.len() && (#[trigger] self.areas@[j]).contains(va as int)
                    implies j == i as int by {
                lemma_unique_area(self.areas@, va as int, j, i as int);
            }
        }
        if !flags_contain(self.areas[i].flags, access) {
            return Err(MemFault::Protection);
        }
        let off = va - self.areas[i].vaddr;
        let pi = off / PAGE_SIZE;
        proof {
            lemma_index_bounds(self.areas@[i as int], va as int);
        }
        if self.areas[i].pages[pi].is_some() {
            proof {
                assert(old(self).areas@[i as int].backed(va as int));
            }
            return Ok(FaultOutcome::AlreadyBacked);
        }
        let ghost old_areas = self.areas@;
        let mut a = self.areas.remove(i);
        let newly = a.fault_page(pi, phys);
        let ghost b = a;
        self.areas.insert(i, a);
        proof {
            assert(newly);
            assert(self.areas@ =~= old_areas.update(i as int, b));
            assert forall|w: int|
                covered_by(self.areas@, w) <==> covered_by(old_areas, w) by {
                if covered_by(self.areas@, w) {
                    let j = choose|j: int|
                        0 <= j < self.areas@.len() && (#[trigger] self.areas@[j]).contains(w);
                    assert(old_areas[j].contains(w));
                }
                if covered_by(old_areas, w) {
                    let j = choose|j: int|
                        0 <= j < old_areas.len() && (#[trigger] old_areas[j]).contains(w);
                    assert(self.areas@[j].contains(w));
                }
            }
            assert(b.pages@ == old_areas[i as int].pages@.update(
                old_areas[i as int].page_index(va as int),
                Some(old(phys).frames@.len() as usize),
            ));
            lemma_index_bounds(b, va as int);
            assert(b.backed(va as int));
            assert(b.byte_at(*phys, va as int) == 0) by {
                assert(b.page_index(va as int) == old_areas[i as int].page_index(va as int));
                assert(b.pages@[b.page_index(va as int)] == Some(
                    old(phys).frames@.len() as usize,
                ));
                assert(phys.frame_bytes(old(phys).frames@.len() as int) == zero_page());
                assert(zero_page()[b.page_off(va as int)] == 0);
            }
            assert forall|j: int|
                0 <= j < self.areas@.len() implies (#[trigger] self.areas@[j]).frames_ok(
                *phys,
            ) by {
                if j != i as int {
                    assert(old_areas[j].frames_ok(*old(phys)));
                }
            }
        }
        Ok(FaultOutcome::Allocated)
    }

    /// Clones the whole address space for a fork: every area is cloned in
    /// place order via its own fork clone — shared areas hand their frames
    /// to the child, the rest are copied eagerly — and the child covers
    /// exactly the parent's addresses.
    #[verifier::loop_isolation(false)]
    #[verifier::rlimit(100)]
    #[verifier::spinoff_prover]
    pub fn clone_all(&mut self, phys: &mut PhysMemory) -> (child: MemorySet)
        requires
            old(self).wf(),
            old(self).frames_ok(*old(phys)),
            old(phys).wf(),
        ensures
            final(phys).wf(),
            phys_extends(*old(phys), *final(phys)),
            final(self).wf(),
            final(self).frames_ok(*final(phys)),
            child.wf(),
            child.frames_ok(*final(phys)),
            final(self).areas@.len() == old(self).areas@.len(),
            child.areas@.len() == old(self).areas@.len(),
            forall|i: int|
                0 <= i < old(self).areas@.len() ==> #[trigger] cloned_area(
                    old(self).areas@[i],
                    final(self).areas@[i],
                    child.areas@[i],
                    *old(phys),
                    *final(phys),
                    old(phys).frames@.len() as int,
                ),
            forall|va: int|
                covered_by(child.areas@, va) <==> covered_by(old(self).areas@, va),
            forall|va: int|
                covered_by(final(self).areas@, va) <==> covered_by(old(self).areas@, va),
    {
        let ghost boundary = phys.frames@.len() as int;
        let n = self.areas.len();
        let mut child_areas: Vec<MapArea> = Vec::new();
        let mut i: usize = 0;
        while i < n
            invariant
                phys.wf(),
                phys_extends(*old(phys), *phys),
                n == self.areas@.len(),
                self.areas@.len() == old(self).areas@.len(),
                i <= n,
                child_areas@.len() == i,
                all_wf(self.areas@),
                all_frames_ok(self.areas@, *phys),
                forall|k: int|
                    0 <= k < n ==> (#[trigger] self.areas@[k]).vaddr == old(self).areas@[k].vaddr
                        && self.areas@[k].end() == old(self).areas@[k].end(),
                forall|k: int|
                    i <= k < n ==> #[trigger] self.areas@[k] == old(self).areas@[k],
                forall|k: int|
                    0 <= k < i ==> ((#[trigger] child_areas@[k]).wf() && child_areas@[k].frames_ok(
                        *phys,
                    )),
                forall|k: int|
                    0 <= k < i ==> #[trigger] cloned_area(
                        old(self).areas@[k],
                        self.areas@[k],
                        child_areas@[k],
                        *old(phys),
                        *phys,
                        boundary,
                    ),
            decreases n - i,
        {
            let ghost prev_phys = *phys;
            let ghost old_list = self.areas@;
            let ghost prev_children = child_areas@;
            let mut a = self.areas.remove(i);
            let c = a.clone_alloc(phys);
            let ghost b = a;
            self.areas.insert(i, a);
            child_areas.push(c);
            proof {
                assert(self.areas@ =~= old_list.update(i as int, b));
                assert(old_list[i as int] == old(self).areas@[i as int]);
                assert(cloned_area(
                    old_list[i as int],
                    b,
                    c,
                    prev_phys,
                    *phys,
                    prev_phys.frames@.len() as int,
                )) by {
                    if old_list[i as int].shared {
                        assert(c.pages@ == b.pages@);
                    }
                }
                assert forall|k: int|
                    0 <= k < i + 1 implies #[trigger] cloned_area(
                    old(self).areas@[k],
                    self.areas@[k],
                    child_areas@[k],
                    *old(phys),
                    *phys,
                    boundary,
                ) by {
                    if k < i {
                        assert(cloned_area(
                            old(self).areas@[k],
                            old_list[k],
                            prev_children[k],
                            *old(phys),
                            prev_phys,
                            boundary,
                        ));
                        assert(child_areas@[k] == prev_children[k]);
                        assert(self.areas@[k] == old_list[k]);
                        assert(prev_children[k].frames_ok(prev_phys));
                        assert(old_list[k].frames_ok(prev_phys));
                        assert forall|f: int|
                            0 <= f < prev_phys.frames@.len() implies #[trigger] phys.frame_bytes(f)
                            == prev_phys.frame_bytes(f) by {}
                        crate::area::lemma_fork_isolation(
                            prev_children[k],
                            prev_phys,
                            *phys,
                            0,
                        );
                        crate::area::lemma_fork_isolation(old_list[k], prev_phys, *phys, 0);
                    } else {
                        assert(cloned_area(
                            old(self).areas@[k],
                            b,
                            c,
                            prev_phys,
                            *phys,
                            prev_phys.frames@.len() as int,
                        ));
                        assert(old(self).areas@[k].frames_ok(prev_phys));
                        assert forall|va: int|
                            #[trigger] old(self).areas@[k].backed(va) implies old(
                            self,
                        ).areas@[k].byte_at(prev_phys, va) == old(self).areas@[k].byte_at(
                            *old(phys),
                            va,
                        ) by {
                            crate::area::lemma_index_bounds(old(self).areas@[k], va);
                        }
                        assert(boundary <= prev_phys.frames@.len() as int);
                    }
                }
            }
            i = i + 1;
        }
        let child = MemorySet { areas: child_areas };
        proof {
            assert forall|i2: int, j2: int|
                0 <= i2 < j2 < child.areas@.len() implies (#[trigger] child.areas@[i2]).end()
                <= (#[trigger] child.areas@[j2]).vaddr by {
                assert(cloned_area(
                    old(self).areas@[i2],
                    self.areas@[i2],
                    child.areas@[i2],
                    *old(phys),
                    *phys,
                    boundary,
                ));
                assert(cloned_area(
                    old(self).areas@[j2],
                    self.areas@[j2],
                    child.areas@[j2],
                    *old(phys),
                    *phys,
                    boundary,
                ));
                assert(old(self).areas@[i2].end() <= old(self).areas@[j2].vaddr);
                assert(child.areas@[i2].end() == old(self).areas@[i2].end());
            }
            assert forall|i2: int, j2: int|
                0 <= i2 < j2 < self.areas@.len() implies (#[trigger] self.areas@[i2]).end()
                <= (#[trigger] self.areas@[j2]).vaddr by {
                assert(old(self).areas@[i2].end() <= old(self).areas@[j2].vaddr);
            }
            assert forall|va: int|
                covered_by(child.areas@, va) <==> covered_by(old(self).areas@, va) by {
                if covered_by(child.areas@, va) {
                    let j = choose|j: int|
                        0 <= j < child.areas@.len() && (#[trigger] child.areas@[j]).contains(va);
                    assert(cloned_area(
                        old(self).areas@[j],
                        self.areas@[j],
                        child.areas@[j],
                        *old(phys),
                        *phys,
                        boundary,
                    ));
                    assert(child.areas@[j].end() == old(self).areas@[j].end());
                    assert(old(self).areas@[j].contains(va));
                }
                if covered_by(old(self).areas@, va) {
                    let j = choose|j: int|
                        0 <= j < old(self).areas@.len() && (#[trigger] old(self).areas@[j]).contains(
                            va,
                        );
                    assert(cloned_area(
                        old(self).areas@[j],
                        self.areas@[j],
                        child.areas@[j],
                        *old(phys),
                        *phys,
                        boundary,
                    ));
                    assert(child.areas@[j].end() == old(self).areas@[j].end());
                    assert(child.areas@[j].contains(va));
                }
            }
            assert forall|va: int|
                covered_by(self.areas@, va) <==> covered_by(old(self).areas@, va) by {
                if covered_by(self.areas@, va) {
                    let j = choose|j: int|
                        0 <= j < self.areas@.len() && (#[trigger] self.areas@[j]).contains(va);
                    assert(old(self).areas@[j].contains(va));
                }
                if covered_by(old(self).areas@, va) {
                    let j = choose|j: int|
                        0 <= j < old(self).areas@.len() && (#[trigger] old(self).areas@[j]).contains(
                            va,
                        );
                    assert(self.areas@[j].contains(va));
                }
            }
        }
        child
    }

    /// Carves the hole `[start, start + size)` out of every area touching
    /// it: an area fully inside is deallocated, one straddling the hole is
    /// split three ways, one overlapping an edge is trimmed. Afterwards the
    /// covered addresses are exactly the old ones minus the hole, still
    /// pairwise non-overlapping.
    #[verifier::loop_isolation(false)]
    #[verifier::rlimit(100)]
    #[verifier::spinoff_prover]
    pub fn split_for_area(&mut self, start: usize, size: usize, phys: &mut PhysMemory)
        requires
            old(self).wf(),
            old(self).frames_ok(*old(phys)),
            old(phys).wf(),
            start as int % (PAGE_SIZE as int) == 0,
            size as int % (PAGE_SIZE as int) == 0,
            size > 0,
            start + size <= usize::MAX,
        ensures
            final(self).wf(),
            final(self).frames_ok(*final(phys)),
            final(phys).wf(),
            phys_extends(*old(phys), *final(phys)),
            final(phys).frames@.len() == old(phys).frames@.len(),
            forall|va: int|
                #![trigger covered_by(old(self).areas@, va)]
                covered_by(final(self).areas@, va) <==> (covered_by(old(self).areas@, va)
                    && !in_hole(start as int, size as int, va)),
    {
        let hole_end = start + size;
        let mut pending: Vec<MapArea> = Vec::new();
        core::mem::swap(&mut self.areas, &mut pending);
        let ghost orig = pending@;
        proof {
            assert(orig.subrange(0, orig.len() as int) =~= orig);
            assert(orig.subrange(orig.len() - pending@.len(), orig.len() as int) =~= pending@);
            assert(orig.subrange(0, 0) =~= Seq::<MapArea>::empty());
            assert(carve_ok(self.areas@, orig, 0, start as int, size as int));
        }
        while pending.len() > 0
            invariant
                phys.wf(),
                phys_extends(*old(phys), *phys),
                phys.frames@.len() == old(phys).frames@.len(),
                all_wf(self.areas@),
                sorted_disjoint(self.areas@),
                all_frames_ok(self.areas@, *phys),
                pending@.len() <= orig.len(),
                pending@ == orig.subrange(orig.len() - pending@.len(), orig.len() as int),
                forall|x: int, y: int|
                    0 <= x < self.areas@.len() && 0 <= y < pending@.len()
                        ==> (#[trigger] self.areas@[x]).end() <= (#[trigger] pending@[y]).vaddr,
                carve_ok(
                    self.areas@,
                    orig,
                    orig.len() - pending@.len(),
                    start as int,
                    size as int,
                ),
            decreases pending@.len(),
        {
            let ghost pr = orig.len() - pending@.len();
            let ghost prefix_old = orig.subrange(0, pr as int);
            let ghost prefix_new = orig.subrange(0, pr + 1);
            let ghost done = self.areas@;
            proof {
                assert(carve_ok(done, orig, pr as int, start as int, size as int));
            }
            let mut a = pending.remove(0);
            proof {
                assert(a == orig[pr as int]);
                assert(pending@ =~= orig.subrange(orig.len() - pending@.len(), orig.len() as int));
                assert(prefix_new =~= prefix_old.push(a));
                assert(a.wf());
                assert(a.frames_ok(*old(phys)));
                assert(a.frames_ok(*phys));
                assert forall|y: int|
                    0 <= y < pending@.len() implies a.end() <= (#[trigger] pending@[y]).vaddr by {
                    assert(pending@[y] == orig[pr + 1 + y]);
                }
            }
            let npag = a.pages.len();
            let a_end128 = (a.vaddr as u128) + (npag as u128) * (PAGE_SIZE as u128);
            proof {
                assert(a_end128 == a.end());
            }
            if a_end128 <= (start as u128) || (hole_end as u128) <= (a.vaddr as u128) {
                // the hole misses this area: keep it whole
                proof {
                    assert(a.end() <= start || start + size <= a.vaddr);
                }
                self.areas.push(a);
                proof {
                    assert forall|va: int|
                        #![trigger covered_by(self.areas@, va)]
                        covered_by(self.areas@, va) <==> (covered_by(prefix_new, va) && !in_hole(
                            start as int,
                            size as int,
                            va,
                        )) by {
                        lemma_covered_push(done, a, va);
                        lemma_covered_push(prefix_old, a, va);
                        lemma_carve_elim(done, orig, pr as int, start as int, size as int, va);
                        if a.contains(va) {
                            assert(!in_hole(start as int, size as int, va));
                        }
                    }
                    lemma_carve_intro(self.areas@, orig, pr + 1, start as int, size as int);
                }
            } else if (start as u128) <= (a.vaddr as u128) && a_end128 <= (hole_end as u128) {
                // fully swallowed by the hole: give the area up
                a.dealloc(phys);
                proof {
                    assert forall|va: int|
                        #![trigger covered_by(self.areas@, va)]
                        covered_by(self.areas@, va) <==> (covered_by(prefix_new, va) && !in_hole(
                            start as int,
                            size as int,
                            va,
                        )) by {
                        lemma_covered_push(prefix_old, a, va);
                        lemma_carve_elim(done, orig, pr as int, start as int, size as int, va);
                        if a.contains(va) {
                            assert(in_hole(start as int, size as int, va));
                        }
                    }
                    lemma_carve_intro(self.areas@, orig, pr + 1, start as int, size as int);
                }
            } else if (a.vaddr as u128) < (start as u128) && (hole_end as u128) < a_end128 {
                // the hole sits strictly inside: split three ways
                proof {
                    lemma_aligned_diff(start as int, a.vaddr as int);
                    lemma_aligned_diff(hole_end as int, a.vaddr as int);
                }
                let s_pages = (start - a.vaddr) / PAGE_SIZE;
                let e_pages = (hole_end - a.vaddr) / PAGE_SIZE;
                proof {
                    assert((s_pages as int) * (PAGE_SIZE as int) == start - a.vaddr);
                    assert((e_pages as int) * (PAGE_SIZE as int) == hole_end - a.vaddr);
                    assert(0 < s_pages as int) by (nonlinear_arith)
                        requires
                            (s_pages as int) * (PAGE_SIZE as int) == start - a.vaddr,
                            start - a.vaddr > 0,
                            (PAGE_SIZE as int) > 0,
                    ;
                    assert((s_pages as int) < (e_pages as int)) by (nonlinear_arith)
                        requires
                            (s_pages as int) * (PAGE_SIZE as int) == start - a.vaddr,
                            (e_pages as int) * (PAGE_SIZE as int) == hole_end - a.vaddr,
                            start < hole_end,
                            (PAGE_SIZE as int) > 0,
                    ;
                    assert((e_pages as int) < npag) by (nonlinear_arith)
                        requires
                            (e_pages as int) * (PAGE_SIZE as int) == hole_end - a.vaddr,
                            hole_end - a.vaddr < (npag as int) * (PAGE_SIZE as int),
                            (PAGE_SIZE as int) > 0,
                    ;
                }
                let ghost a0 = a;
                let right = a.remove_mid(s_pages, e_pages, phys);
                proof {
                    assert(a.end() == a0.vaddr + (s_pages as int) * (PAGE_SIZE as int));
                    assert(a.end() == start);
                    assert(right.vaddr == hole_end);
                    assert(right.end() == a0.end());
                }
                self.areas.push(a);
                let ghost mid = self.areas@;
                self.areas.push(right);
                proof {
                    assert forall|va: int|
                        #![trigger covered_by(self.areas@, va)]
                        covered_by(self.areas@, va) <==> (covered_by(prefix_new, va) && !in_hole(
                            start as int,
                            size as int,
                            va,
                        )) by {
                        lemma_covered_push(mid, right, va);
                        lemma_covered_push(done, a, va);
                        lemma_covered_push(prefix_old, a0, va);
                        lemma_carve_elim(done, orig, pr as int, start as int, size as int, va);
                    }
                    lemma_carve_intro(self.areas@, orig, pr + 1, start as int, size as int);
                }
            } else if (a.vaddr as u128) < (start as u128) {
                // the hole cuts off the right end: keep the left rim
                proof {
                    lemma_aligned_diff(start as int, a.vaddr as int);
                }
                let keep = (start - a.vaddr) / PAGE_SIZE;
                proof {
                    assert((keep as int) * (PAGE_SIZE as int) == start - a.vaddr);
                    assert(0 < keep as int) by (nonlinear_arith)
                        requires
                            (keep as int) * (PAGE_SIZE as int) == start - a.vaddr,
                            start - a.vaddr > 0,
                            (PAGE_SIZE as int) > 0,
                    ;
                    assert((keep as int) < npag) by (nonlinear_arith)
                        requires
                            (keep as int) * (PAGE_SIZE as int) == start - a.vaddr,
                            start - a.vaddr < (npag as int) * (PAGE_SIZE as int),
                            (PAGE_SIZE as int) > 0,
                    ;
                }
                let ghost a0 = a;
                a.shrink_right(keep, phys);
                proof {
                    assert(a.end() == start) by (nonlinear_arith)
                        requires
                            a.end() == a.vaddr + (keep as int) * (PAGE_SIZE as int),
                            (keep as int) * (PAGE_SIZE as int) == start - a.vaddr,
                    ;
                    assert(a.wf());
                }
                self.areas.push(a);
                proof {
                    assert forall|va: int|
                        #![trigger covered_by(self.areas@, va)]
                        covered_by(self.areas@, va) <==> (covered_by(prefix_new, va) && !in_hole(
                            start as int,
                            size as int,
                            va,
                        )) by {
                        lemma_covered_push(done, a, va);
                        lemma_covered_push(prefix_old, a0, va);
                        lemma_carve_elim(done, orig, pr as int, start as int, size as int, va);
                        assert(a0.end() <= hole_end);
                    }
                    lemma_carve_intro(self.areas@, orig, pr + 1, start as int, size as int);
                }
            } else {
                // the hole cuts off the left end: keep the right rim
                proof {
                    lemma_aligned_diff(hole_end as int, a.vaddr as int);
                }
                let drop_p = (hole_end - a.vaddr) / PAGE_SIZE;
                proof {
                    assert((drop_p as int) * (PAGE_SIZE as int) == hole_end - a.vaddr);
                    assert(0 < drop_p as int) by (nonlinear_arith)
                        requires
                            (drop_p as int) * (PAGE_SIZE as int) == hole_end - a.vaddr,
                            hole_end - a.vaddr > 0,
                            (PAGE_SIZE as int) > 0,
                    ;
                    assert((drop_p as int) < npag) by (nonlinear_arith)
                        requires
                            (drop_p as int) * (PAGE_SIZE as int) == hole_end - a.vaddr,
                            hole_end - a.vaddr < (npag as int) * (PAGE_SIZE as int),
                            (PAGE_SIZE as int) > 0,
                    ;
                }
                let ghost a0 = a;
                a.shrink_left(drop_p, phys);
                proof {
                    assert(a.vaddr == hole_end);
                    assert(a.end() == a0.end());
                }
                self.areas.push(a);
                proof {
                    assert forall|va: int|
                        #![trigger covered_by(self.areas@, va)]
                        covered_by(self.areas@, va) <==> (covered_by(prefix_new, va) && !in_hole(
                            start as int,
                            size as int,
                            va,
                        )) by {
                        lemma_covered_push(done, a, va);
                        lemma_covered_push(prefix_old, a0, va);
                        lemma_carve_elim(done, orig, pr as int, start as int, size as int, va);
                        assert(start <= a0.vaddr);
                    }
                    lemma_carve_intro(self.areas@, orig, pr + 1, start as int, size as int);
                }
            }
        }
        proof {
            assert(orig.subrange(0, orig.len() as int) =~= orig);
            assert(carve_ok(self.areas@, orig, orig.len() as int, start as int, size as int));
            assert forall|va: int|
                #![trigger covered_by(self.areas@, va)]
                covered_by(self.areas@, va) <==> (covered_by(orig, va) && !in_hole(
                    start as int,
                    size as int,
                    va,
                )) by {
                lemma_carve_elim(self.areas@, orig, orig.len() as int, start as int, size as int, va);
            }
        }
    }
}

/// One area was forked: parent and child keep the geometry (place, size,
/// permissions, sharing); a non-shared child sits on fresh frames past
/// `boundary` holding the parent's bytes of fork time; a shared child holds
/// the parent's own frames. Backed bytes read back unchanged on both sides.
pub open spec fn cloned_area(
    a_old: MapArea,
    a_new: MapArea,
    c: MapArea,
    p_old: PhysMemory,
    p_new: PhysMemory,
    boundary: int,
) -> bool {
    &&& a_new.vaddr == a_old.vaddr
    &&& a_new.flags == a_old.flags
    &&& a_new.shared == a_old.shared
    &&& a_new.pages@.len() == a_old.pages@.len()
    &&& c.vaddr == a_old.vaddr
    &&& c.flags == a_old.flags
    &&& c.shared == a_old.shared
    &&& c.pages@.len() == a_old.pages@.len()
    &&& (!a_old.shared ==> a_new.pages@ == a_old.pages@)
    &&& (a_old.shared ==> c.pages@ == a_new.pages@)
    &&& (!a_old.shared ==> (forall|i: int|
        0 <= i < c.pages@.len() && c.pages@[i] is Some ==> (#[trigger] c.pages@[i])->Some_0
            >= boundary))
    &&& (forall|va: int|
        #[trigger] a_old.backed(va) ==> c.backed(va) && c.byte_at(p_new, va) == a_old.byte_at(
            p_old,
            va,
        ))
    &&& (forall|va: int|
        #[trigger] a_old.backed(va) ==> a_new.backed(va) && a_new.byte_at(p_new, va)
            == a_old.byte_at(p_old, va))
}

/// The areas of `done` cover exactly what the first `upto` areas of `orig`
/// cover, minus the hole.
pub open spec fn carve_ok(
    done: Seq<MapArea>,
    orig: Seq<MapArea>,
    upto: int,
    start: int,
    size: int,
) -> bool {
    forall|va: int|
        #![trigger covered_by(done, va)]
        covered_by(done, va) <==> (covered_by(orig.subrange(0, upto), va) && !in_hole(
            start,
            size,
            va,
        ))
}

/// Reads one address out of a carving relation.
pub proof fn lemma_carve_elim(
    done: Seq<MapArea>,
    orig: Seq<MapArea>,
    upto: int,
    start: int,
    size: int,
    va: int,
)
    requires
        carve_ok(done, orig, upto, start, size),
    ensures
        covered_by(done, va) <==> (covered_by(orig.subrange(0, upto), va) && !in_hole(
            start,
            size,
            va,
        )),
{
}

/// Packages a per-address carving argument into the relation.
pub proof fn lemma_carve_intro(
    done: Seq<MapArea>,
    orig: Seq<MapArea>,
    upto: int,
    start: int,
    size: int,
)
    requires
        forall|va: int|
            #![trigger covered_by(done, va)]
            covered_by(done, va) <==> (covered_by(orig.subrange(0, upto), va) && !in_hole(
                start,
                size,
                va,
            )),
    ensures
        carve_ok(done, orig, upto, start, size),
{
}

/// Whether `va` lies in the hole `[start, start + size)`.
pub open spec fn in_hole(start: int, size: int, va: int) -> bool {
    start <= va < start + size
}

/// The difference of two page-aligned addresses is a whole number of
/// pages, and a positive one is at least a page.
pub proof fn lemma_aligned_diff(a: int, b: int)
    requires
        a % (PAGE_SIZE as int) == 0,
        b % (PAGE_SIZE as int) == 0,
        0 <= b <= a,
    ensures
        (a - b) % (PAGE_SIZE as int) == 0,
        ((a - b) / (PAGE_SIZE as int)) * (PAGE_SIZE as int) == a - b,
        a > b ==> a - b >= PAGE_SIZE,
{
    let p = PAGE_SIZE as int;
    lemma_fundamental_div_mod(a, p);
    lemma_fundamental_div_mod(b, p);
    let qa = a / p;
    let qb = b / p;
    assert(a - b == p * (qa - qb)) by (nonlinear_arith)
        requires
            a == p * qa,
            b == p * qb,
    ;
    vstd::arithmetic::div_mod::lemma_div_multiples_vanish(qa - qb, p);
    assert((a - b) / p == qa - qb);
    assert(((a - b) / p) * p == a - b) by (nonlinear_arith)
        requires
            a - b == p * (qa - qb),
            (a - b) / p == qa - qb,
    ;
    lemma_fundamental_div_mod(a - b, p);
    if a > b {
        assert(a - b >= p) by (nonlinear_arith)
            requires
                a - b == p * (qa - qb),
                a - b > 0,
                p > 0,
        ;
    }
}

/// What a fault at `va` inside granting-or-not area `i` did: a protection
/// fault or an already-backed page changes nothing; an unbacked page gains
/// exactly one fresh zeroed frame.
pub open spec fn handled_fault(
    pre: Seq<MapArea>,
    post: Seq<MapArea>,
    phys_pre: PhysMemory,
    phys_post: PhysMemory,
    i: int,
    va: int,
    access: MemFlags,
    r: Result<FaultOutcome, MemFault>,
) -> bool {
    let a = pre[i];
    &&& (!flags_allow(a.flags, access) ==> r == Err::<FaultOutcome, MemFault>(MemFault::Protection)
        && post == pre && phys_post == phys_pre)
    &&& (flags_allow(a.flags, access) && a.backed(va) ==> r == Ok::<FaultOutcome, MemFault>(
        FaultOutcome::AlreadyBacked,
    ) && post == pre && phys_post == phys_pre)
    &&& (flags_allow(a.flags, access) && !a.backed(va) ==> r == Ok::<FaultOutcome, MemFault>(
        FaultOutcome::Allocated,
    ) && {
        let b = post[i];
        &&& post == pre.update(i, b)
        &&& b.vaddr == a.vaddr
        &&& b.flags == a.flags
        &&& b.shared == a.shared
        &&& b.pages@ == a.pages@.update(a.page_index(va), Some(phys_pre.frames@.len() as usize))
        &&& b.backed(va)
        &&& b.byte_at(phys_post, va) == 0
        &&& phys_post.frames@.len() == phys_pre.frames@.len() + 1
    })
}

/// Where a fresh region starting at `vaddr` goes: after every area that
/// begins below it.
pub open spec fn split_pos(areas: Seq<MapArea>, vaddr: int) -> int
    decreases areas.len(),
{
    if areas.len() == 0 {
        0
    } else if areas[0].vaddr < vaddr {
        1 + split_pos(areas.drop_first(), vaddr)
    } else {
        0
    }
}

/// The slot before which every area begins below `v` and from which none
/// does is the split position.
pub proof fn lemma_split_pos(s: Seq<MapArea>, v: int, k: int)
    requires
        0 <= k <= s.len(),
        forall|j: int| 0 <= j < k ==> (#[trigger] s[j]).vaddr < v,
        k < s.len() ==> s[k].vaddr >= v,
    ensures
        split_pos(s, v) == k,
    decreases s.len(),
{
    if s.len() > 0 {
        if s[0].vaddr < v {
            assert(k >= 1);
            let t = s.drop_first();
            assert forall|j: int| 0 <= j < k - 1 implies (#[trigger] t[j]).vaddr < v by {
                assert(t[j] == s[j + 1]);
            }
            assert(k - 1 < t.len() ==> t[k - 1].vaddr >= v);
            lemma_split_pos(t, v, k - 1);
        } else {
            assert(k == 0);
        }
    }
}

/// One region was inserted at slot `k`: the collection is the old one with
/// the new area spliced in, the area spans exactly the requested range with
/// the requested permissions, and it is fully populated (with the data,
/// zero-padded) or fully lazy.
pub open spec fn region_inserted(
    pre: Seq<MapArea>,
    post: Seq<MapArea>,
    phys: PhysMemory,
    k: int,
    vaddr: int,
    size: int,
    flags: MemFlags,
    shared: bool,
    data: Option<Seq<u8>>,
) -> bool {
    &&& 0 <= k <= pre.len()
    &&& post == pre.insert(k, post[k])
    &&& post[k].vaddr == vaddr
    &&& post[k].flags == flags
    &&& post[k].shared == shared
    &&& post[k].end() == vaddr + size
    &&& (data matches Some(d) ==> (forall|va: int|
        vaddr <= va < vaddr + size ==> (#[trigger] post[k].backed(va)) && post[k].byte_at(phys, va)
            == (if va - vaddr < d.len() {
            d[va - vaddr]
        } else {
            0
        })))
    &&& (data is None ==> (forall|va: int| !(#[trigger] post[k].backed(va))))
}

/// Packages the insertion facts into `region_inserted`.
pub proof fn lemma_region_inserted_intro(
    pre: Seq<MapArea>,
    post: Seq<MapArea>,
    phys: PhysMemory,
    k: int,
    vaddr: int,
    size: int,
    flags: MemFlags,
    shared: bool,
    data: Option<Seq<u8>>,
)
    requires
        0 <= k <= pre.len(),
        post == pre.insert(k, post[k]),
        post[k].vaddr == vaddr,
        post[k].flags == flags,
        post[k].shared == shared,
        post[k].end() == vaddr + size,
        data matches Some(d) ==> (forall|va: int|
            vaddr <= va < vaddr + size ==> (#[trigger] post[k].backed(va)) && post[k].byte_at(
                phys,
                va,
            ) == (if va - vaddr < d.len() {
                d[va - vaddr]
            } else {
                0
            })),
        data is None ==> (forall|va: int| !(#[trigger] post[k].backed(va))),
    ensures
        region_inserted(pre, post, phys, k, vaddr, size, flags, shared, data),
{
}

/// Inserting into a sequence shifts the later entries by one.
pub proof fn lemma_insert_index(s: Seq<MapArea>, k: int, a: MapArea, i: int)
    requires
        0 <= k <= s.len(),
        0 <= i < s.len() + 1,
    ensures
        s.insert(k, a)[i] == if i < k {
            s[i]
        } else if i == k {
            a
        } else {
            s[i - 1]
        },
{
}

/// Inserting one area extends the covered addresses by exactly its range.
pub proof fn lemma_covered_insert(areas: Seq<MapArea>, k: int, a: MapArea, va: int)
    requires
        0 <= k <= areas.len(),
    ensures
        covered_by(areas.insert(k, a), va) <==> (covered_by(areas, va) || a.contains(va)),
{
    let ins = areas.insert(k, a);
    if covered_by(areas, va) {
        let i = choose|i: int| 0 <= i < areas.len() && (#[trigger] areas[i]).contains(va);
        lemma_insert_index(areas, k, a, if i < k {
            i
        } else {
            i + 1
        });
        if i < k {
            assert(ins[i].contains(va));
        } else {
            assert(ins[i + 1].contains(va));
        }
    }
    if a.contains(va) {
        lemma_insert_index(areas, k, a, k);
        assert(ins[k].contains(va));
    }
    if covered_by(ins, va) {
        let i = choose|i: int| 0 <= i < ins.len() && (#[trigger] ins[i]).contains(va);
        lemma_insert_index(areas, k, a, i);
        if i < k {
            assert(areas[i].contains(va));
        } else if i > k {
            assert(areas[i - 1].contains(va));
        }
    }
}

} // verus!
