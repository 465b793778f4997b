//! Physical page frames. A frame is one page of bytes with an owner count:
//! held exclusively by one region slot, or shared across regions after a
//! fork. A frame whose last owner drops it is free. Frames are addressed by
//! stable handles (indices), so two regions of two address spaces can hold
//! the same frame and observe each other's writes.

use vstd::prelude::*;

verus! {

/// Size of one page of memory, in bytes.
pub const PAGE_SIZE: usize = 4096;

/// One physical page frame: a page of bytes and the number of owners.
pub struct Frame {
    pub bytes: Vec<u8>,
    pub refs: usize,
}

/// All physical page frames, addressed by handle. Handles stay stable: a
/// freed frame keeps its slot (with no owners) and is never handed out
/// again.
pub struct PhysMemory {
    pub frames: Vec<Frame>,
}

/// `post` keeps every frame of `pre` with its bytes (owner counts may
/// move), and may add fresh frames after them.
pub open spec fn phys_extends(pre: PhysMemory, post: PhysMemory) -> bool {
    &&& pre.frames@.len() <= post.frames@.len()
    &&& forall|i: int|
        0 <= i < pre.frames@.len() ==> (#[trigger] post.frames@[i]).bytes@ == pre.frames@[i].bytes@
}

/// Byte `k` of the page built from `data` at `start`: the data byte when
/// one is there, zero fill past the end.
pub open spec fn page_byte(data: Seq<u8>, start: int, k: int) -> u8 {
    if 0 <= start + k < data.len() {
        data[start + k]
    } else {
        0
    }
}

/// The page built from `data` at `start`: data bytes, zero-padded.
pub open spec fn page_from(data: Seq<u8>, start: int) -> Seq<u8> {
    Seq::new(PAGE_SIZE as nat, |k: int| page_byte(data, start, k))
}

/// A page of zeroes.
pub open spec fn zero_page() -> Seq<u8> {
    Seq::new(PAGE_SIZE as nat, |k: int| 0u8)
}

impl PhysMemory {
    /// Every frame holds exactly one page of bytes.
    pub open spec fn wf(self) -> bool {
        forall|i: int|
            0 <= i < self.frames@.len() ==> (#[trigger] self.frames@[i]).bytes@.len() == PAGE_SIZE
    }

    /// The handle is a frame.
    pub open spec fn valid(self, f: int) -> bool {
        0 <= f < self.frames@.len()
    }

    /// The bytes of frame `f`.
    pub open spec fn frame_bytes(self, f: int) -> Seq<u8> {
        self.frames@[f].bytes@
    }

    /// The owner count of frame `f`.
    pub open spec fn frame_refs(self, f: int) -> nat {
        self.frames@[f].refs as nat
    }

    /// No frames yet.
    pub fn new() -> (r: PhysMemory)
        ensures
            r.wf(),
            r.frames@.len() == 0,
    {
        PhysMemory { frames: Vec::new() }
    }

    /// Allocates a fresh zeroed frame with one owner.
    pub fn alloc_zeroed(&mut self) -> (f: usize)
        requires
            old(self).wf(),
        ensures
            final(self).wf(),
            phys_extends(*old(self), *final(self)),
            forall|i: int|
                0 <= i < old(self).frames@.len() ==> #[trigger] final(self).frames@[i] == old(
                    self,
                ).frames@[i],
            final(self).frames@.len() == old(self).frames@.len() + 1,
            f == old(self).frames@.len(),
            final(self).frame_bytes(f as int) == zero_page(),
            final(self).frame_refs(f as int) == 1,
    {
        let f = self.frames.len();
        let bytes: Vec<u8> = vec![0u8; PAGE_SIZE];
        proof {
            assert(bytes@ =~= zero_page());
        }
        self.frames.push(Frame { bytes, refs: 1 });
        f
    }

    /// Allocates a fresh frame with one owner, filled from `data` at
    /// `start` and zero-padded.
    #[verifier::loop_isolation(false)]
    pub fn alloc_from(&mut self, data: &Vec<u8>, start: usize) -> (f: usize)
        requires
            old(self).wf(),
        ensures
            final(self).wf(),
            phys_extends(*old(self), *final(self)),
            forall|i: int|
                0 <= i < old(self).frames@.len() ==> #[trigger] final(self).frames@[i] == old(
                    self,
                ).frames@[i],
            final(self).frames@.len() == old(self).frames@.len() + 1,
            f == old(self).frames@.len(),
            final(self).frame_bytes(f as int) == page_from(data@, start as int),
            final(self).frame_refs(f as int) == 1,
    {
        let f = self.frames.len();
        let data_len = data.len();
        let mut bytes: Vec<u8> = Vec::new();
        let mut k: usize = 0;
        while k < PAGE_SIZE
            invariant
                k <= PAGE_SIZE,
                bytes@.len() == k,
                forall|m: int| 0 <= m < k ==> bytes@[m] == page_byte(data@, start as int, m),
            decreases PAGE_SIZE - k,
        {
            if start < data_len && k < data_len - start {
                bytes.push(data[start + k]);
            } else {
                bytes.push(0);
            }
            k = k + 1;
        }
        proof {
            assert(bytes@ =~= page_from(data@, start as int));
        }
        self.frames.push(Frame { bytes, refs: 1 });
        f
    }

    /// Allocates a fresh frame with one owner, copying the bytes of frame
    /// `src`.
    #[verifier::loop_isolation(false)]
    pub fn alloc_copy_of(&mut self, src: usize) -> (f: usize)
        requires
            old(self).wf(),
            old(self).valid(src as int),
        ensures
            final(self).wf(),
            phys_extends(*old(self), *final(self)),
            forall|i: int|
                0 <= i < old(self).frames@.len() ==> #[trigger] final(self).frames@[i] == old(
                    self,
                ).frames@[i],
            final(self).frames@.len() == old(self).frames@.len() + 1,
            f == old(self).frames@.len(),
            final(self).frame_bytes(f as int) == old(self).frame_bytes(src as int),
            final(self).frame_refs(f as int) == 1,
    {
        let f = self.frames.len();
        let mut bytes: Vec<u8> = Vec::new();
        let mut k: usize = 0;
        while k < PAGE_SIZE
            invariant
                k <= PAGE_SIZE,
                bytes@.len() == k,
                forall|m: int| 0 <= m < k ==> bytes@[m] == self.frame_bytes(src as int)[m],
            decreases PAGE_SIZE - k,
        {
            bytes.push(self.frames[src].bytes[k]);
            k = k + 1;
        }
        proof {
            assert(bytes@ =~= self.frame_bytes(src as int));
        }
        self.frames.push(Frame { bytes, refs: 1 });
        f
    }

    /// Adds an owner to frame `f` (the count pegs at its ceiling rather
    /// than wrap).
    pub fn inc_ref(&mut self, f: usize)
        requires
            old(self).wf(),
            old(self).valid(f as int),
        ensures
            final(self).wf(),
            final(self).frames@.len() == old(self).frames@.len(),
            forall|i: int|
                0 <= i < old(self).frames@.len() && i != f ==> #[trigger] final(self).frames@[i]
                    == old(self).frames@[i],
            final(self).frame_bytes(f as int) == old(self).frame_bytes(f as int),
            final(self).frame_refs(f as int) == if old(self).frame_refs(f as int) < usize::MAX {
                old(self).frame_refs(f as int) + 1
            } else {
                old(self).frame_refs(f as int)
            },
    {
        let ghost old_frames = self.frames@;
        let mut fr = self.frames.remove(f);
        if fr.refs < usize::MAX {
            fr.refs = fr.refs + 1;
        }
        self.frames.insert(f, fr);
        proof {
            assert(self.frames@ =~= old_frames.update(f as int, self.frames@[f as int]));
        }
    }

    /// Drops an owner of frame `f`; the frame is free once none is left.
    pub fn dec_ref(&mut self, f: usize)
        requires
            old(self).wf(),
            old(self).valid(f as int),
        ensures
            final(self).wf(),
            final(self).frames@.len() == old(self).frames@.len(),
            forall|i: int|
                0 <= i < old(self).frames@.len() && i != f ==> #[trigger] final(self).frames@[i]
                    == old(self).frames@[i],
            final(self).frame_bytes(f as int) == old(self).frame_bytes(f as int),
            final(self).frame_refs(f as int) == if old(self).frame_refs(f as int) > 0 {
                (old(self).frame_refs(f as int) - 1) as nat
            } else {
                0
            },
    {
        let ghost old_frames = self.frames@;
        let mut fr = self.frames.remove(f);
        if fr.refs > 0 {
            fr.refs = fr.refs - 1;
        }
        self.frames.insert(f, fr);
        proof {
            assert(self.frames@ =~= old_frames.update(f as int, self.frames@[f as int]));
        }
    }

    /// Reads one byte of frame `f`.
    pub fn read_byte(&self, f: usize, off: usize) -> (b: u8)
        requires
            self.wf(),
            self.valid(f as int),
            off < PAGE_SIZE,
        ensures
            b == self.frame_bytes(f as int)[off as int],
    {
        self.frames[f].bytes[off]
    }

    /// Writes one byte of frame `f`; every other byte of memory stands.
    pub fn write_byte(&mut self, f: usize, off: usize, b: u8)
        requires
            old(self).wf(),
            old(self).valid(f as int),
            off < PAGE_SIZE,
        ensures
            final(self).wf(),
            final(self).frames@.len() == old(self).frames@.len(),
            forall|i: int|
                0 <= i < old(self).frames@.len() && i != f ==> #[trigger] final(self).frames@[i]
                    == old(self).frames@[i],
            final(self).frame_bytes(f as int) == old(self).frame_bytes(f as int).update(
                off as int,
                b,
            ),
            final(self).frame_refs(f as int) == old(self).frame_refs(f as int),
    {
        let ghost old_frames = self.frames@;
        let mut fr = self.frames.remove(f);
        fr.bytes.set(off, b);
        self.frames.insert(f, fr);
        proof {
            assert(self.frames@ =~= old_frames.update(f as int, self.frames@[f as int]));
        }
    }
}

} // verus!
