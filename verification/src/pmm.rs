//! Physical frame allocator.
//!
//! Physical memory is managed as 4096-byte frames.  One bitmap holds a bit
//! per frame, a set bit meaning the frame is free.  Allocation scans for the
//! first run of consecutive free bits in ascending address order and clears
//! it; freeing sets the bits back.  The allocator is built once at boot from
//! the boot loader's memory map, carving the bitmap's own backing out of the
//! usable memory it describes.
//!
//! The frame contents live in [`PhysMem`], an explicit model of the kernel's
//! permanent higher-half window onto physical memory; operations that touch
//! frame bytes (zero-filling, reading a file into a frame) take it by
//! mutable reference instead of going through a global alias.

use vstd::prelude::*;

use crate::bitmap::Bitmap;
use crate::math::{div_ceil, spec_div_ceil};

verus! {

/// Size of one physical frame (and of one virtual page).
pub const PAGE_SIZE: u64 = 4096;

/// Base of the kernel's permanent map of all physical memory.
pub const PHYS_BASE: u64 = 0xffff8000_0000_0000;

/// Mask selecting the frame-address bits (12..=51) of a page-table entry.
pub const ADDR_MASK: u64 = 0x000f_ffff_ffff_f000;

/// Highest physical address representable in a page-table entry:
/// frame-address bits span bits 12 through 51.
pub const MAX_PHYS: u64 = 0x0010_0000_0000_0000;

/// Bytes the permanent higher-half window spans.  Physical memory past it
/// has no kernel alias: an address below it passes unchanged through the
/// window's base mask, one beyond it would not.
pub const PHYS_WINDOW: u64 = 0x8000_0000_0000;

/// A physical address.
#[derive(Debug, Clone, Copy, PartialEq, Eq, Structural)]
pub struct PhysAddr(pub u64);

impl PhysAddr {
    pub fn new(addr: u64) -> (r: Self)
        ensures
            r.0 == addr,
    {
        PhysAddr(addr)
    }

    /// The address of this frame inside the permanent higher-half window.
    pub fn higher_half(self) -> (r: Self)
        ensures
            r.0 == self.0 | PHYS_BASE,
            self.0 < 0x8000_0000_0000 ==> r.0 == self.0 + PHYS_BASE,
    {
        proof {
            let a = self.0;
            assert(a < 0x8000_0000_0000 ==> (a | 0xffff8000_0000_0000u64) == a
                + 0xffff8000_0000_0000) by (bit_vector);
        }
        PhysAddr(self.0 | PHYS_BASE)
    }

    /// Strips the higher-half window base off the address.
    pub fn lower_half(self) -> (r: Self)
        ensures
            r.0 == self.0 & !PHYS_BASE,
            self.0 < 0x8000_0000_0000 ==> r.0 == self.0,
    {
        proof {
            let a = self.0;
            assert(a < 0x8000_0000_0000 ==> (a & !0xffff8000_0000_0000u64) == a)
                by (bit_vector);
        }
        PhysAddr(self.0 & !PHYS_BASE)
    }

    pub fn as_u64(self) -> (r: u64)
        ensures
            r == self.0,
    {
        self.0
    }

    /// Removes the page-table bits that describe the mapping, keeping only
    /// the frame-address bits.
    pub fn remove_flags(self) -> (r: Self)
        ensures
            r.0 == self.0 & ADDR_MASK,
    {
        PhysAddr(self.0 & ADDR_MASK)
    }
}

/// The kernel's view of physical memory contents, byte by byte, as seen
/// through the permanent higher-half window.  Address `a` in this model is
/// physical address `a`; callers mask `PHYS_BASE` off first.
pub struct PhysMem {
    pub bytes: Vec<u8>,
}

impl PhysMem {
    pub open spec fn len(self) -> int {
        self.bytes@.len() as int
    }

    pub open spec fn byte(self, i: int) -> u8 {
        self.bytes@[i]
    }

    /// Fresh, zero-filled physical memory of `size` bytes.
    pub fn new(size: usize) -> (r: PhysMem)
        ensures
            r.len() == size,
            forall|i: int| 0 <= i < size ==> r.byte(i) == 0,
    {
        PhysMem { bytes: vec![0u8; size] }
    }

    pub fn size(&self) -> (r: usize)
        ensures
            r == self.len(),
    {
        self.bytes.len()
    }

    pub fn read_u8(&self, addr: usize) -> (r: u8)
        requires
            addr < self.len(),
        ensures
            r == self.byte(addr as int),
    {
        self.bytes[addr]
    }

    pub fn write_u8(&mut self, addr: usize, value: u8)
        requires
            addr < old(self).len(),
        ensures
            final(self).len() == old(self).len(),
            final(self).byte(addr as int) == value,
            forall|i: int|
                0 <= i < old(self).len() && i != addr ==> final(self).byte(i) == old(
                    self,
                ).byte(i),
    {
        self.bytes[addr] = value;
    }

    /// Writes zeroes over `[base, base + count)`.
    pub fn zero_fill(&mut self, base: usize, count: usize)
        requires
            base + count <= old(self).len(),
        ensures
            final(self).len() == old(self).len(),
            forall|i: int| base <= i < base + count ==> final(self).byte(i) == 0,
            forall|i: int|
                0 <= i < old(self).len() && !(base <= i < base + count) ==> final(self).byte(
                    i,
                ) == old(self).byte(i),
    {
        let total = self.bytes.len();
        let mut k: usize = 0;
        while k < count
            invariant
                k <= count,
                base + count <= total,
                total == self.len(),
                self.len() == old(self).len(),
                forall|i: int| base <= i < base + k ==> self.byte(i) == 0,
                forall|i: int|
                    0 <= i < old(self).len() && !(base <= i < base + k) ==> self.byte(i) == old(
                        self,
                    ).byte(i),
            decreases count - k,
        {
            let ghost prev = *self;
            self.bytes[base + k] = 0;
            proof {
                assert(self.bytes@ == prev.bytes@.update((base + k) as int, 0u8));
                assert forall|i: int| base <= i < base + k + 1 implies self.byte(i) == 0 by {
                    if i < base + k {
                        assert(prev.byte(i) == 0);
                        assert(self.byte(i) == prev.byte(i));
                    }
                }
            }
            k = k + 1;
        }
    }

    /// Copies `data` into memory starting at `base`.
    pub fn write_from(&mut self, base: usize, data: &Vec<u8>)
        requires
            base + data@.len() <= old(self).len(),
        ensures
            final(self).len() == old(self).len(),
            forall|i: int|
                0 <= i < data@.len() ==> final(self).byte(base + i) == data@[i],
            forall|i: int|
                0 <= i < old(self).len() && !(base <= i < base + data@.len())
                    ==> final(self).byte(i) == old(self).byte(i),
    {
        let total = self.bytes.len();
        let mut k: usize = 0;
        let n = data.len();
        while k < n
            invariant
                k <= n,
                n == data@.len(),
                base + n <= total,
                total == self.len(),
                self.len() == old(self).len(),
                forall|i: int| 0 <= i < k ==> self.byte(base + i) == data@[i],
                forall|i: int|
                    0 <= i < old(self).len() && !(base <= i < base + k) ==> self.byte(i) == old(
                        self,
                    ).byte(i),
            decreases n - k,
        {
            self.bytes[base + k] = data[k];
            k = k + 1;
        }
    }
}

/// A run of `k` free bits starting at `base`, entirely inside `bits`.
pub open spec fn valid_run(bits: Seq<bool>, base: int, k: int) -> bool {
    &&& 0 <= base
    &&& base + k <= bits.len()
    &&& forall|j: int| base <= j < base + k ==> bits[j]
}

/// The state change of a successful allocation of the frames
/// `[base, base + k)`: they were all free before, are all taken after,
/// and nothing else moved.
pub open spec fn alloc_transition(pre: Seq<bool>, post: Seq<bool>, base: int, k: int) -> bool {
    &&& valid_run(pre, base, k)
    &&& post.len() == pre.len()
    &&& forall|j: int| base <= j < base + k ==> !post[j]
    &&& forall|j: int| 0 <= j < pre.len() && !(base <= j < base + k) ==> post[j] == pre[j]
}

/// The state change of freeing the frames `[base, base + k)`: they are all
/// free after, and nothing else moved.
pub open spec fn free_transition(pre: Seq<bool>, post: Seq<bool>, base: int, k: int) -> bool {
    &&& 0 <= base
    &&& base + k <= pre.len()
    &&& post.len() == pre.len()
    &&& forall|j: int| base <= j < base + k ==> post[j]
    &&& forall|j: int| 0 <= j < pre.len() && !(base <= j < base + k) ==> post[j] == pre[j]
}

/// The physical memory manager: one bitmap over all of physical memory,
/// one bit per frame, a set bit meaning the frame is free.
///
/// The allocator is reached only through exclusive borrows, so an
/// allocation's scan-and-clear is one atomic unit: no other caller can
/// observe a half-cleared run.  A multi-core kernel would put an
/// interrupt-safe lock around the same exclusive access.
pub struct Pmm {
    pub bitmap: Bitmap,
}

impl Pmm {
    /// The bitmap is small enough that bit indices cannot overflow `usize`
    /// arithmetic and every tracked frame lies inside the permanent
    /// higher-half window, so a frame's address survives the window's base
    /// mask and an allocated frame can always be handed back.
    pub open spec fn wf(self) -> bool {
        &&& 8 * self.bitmap.spec_size() <= usize::MAX
        &&& self.bitmap.spec_size() <= 0x1_0000_0000
    }

    /// Number of frames the allocator tracks.
    pub open spec fn frames(self) -> int {
        self.bitmap.capacity()
    }

    /// Whether frame `p` is currently free.
    pub open spec fn frame_free(self, p: int) -> bool {
        self.bitmap.bit(p)
    }

    pub fn new(bitmap: Bitmap) -> (r: Pmm)
        requires
            8 * bitmap.spec_size() <= usize::MAX,
            bitmap.spec_size() <= 0x1_0000_0000,
        ensures
            r.wf(),
            r.bitmap == bitmap,
    {
        Pmm { bitmap }
    }

    /// First-fit allocation of `pages` contiguous frames.  On success the
    /// returned address is the base of the lowest free run of that length,
    /// the run's bits are cleared, and nothing else changes.  `None` is
    /// returned exactly when no such run exists (or zero pages were asked
    /// for), with the allocator untouched.
    pub fn alloc_frames(&mut self, pages: usize) -> (r: Option<PhysAddr>)
        requires
            old(self).wf(),
        ensures
            final(self).wf(),
            final(self).frames() == old(self).frames(),
            match r {
                Some(addr) => {
                    &&& pages >= 1
                    &&& addr.0 % 4096 == 0
                    &&& addr.0 + pages * 4096 <= PHYS_WINDOW
                    &&& addr.0 & !PHYS_BASE == addr.0
                    &&& alloc_transition(
                        old(self).bitmap.bits(),
                        final(self).bitmap.bits(),
                        addr.0 as int / 4096,
                        pages as int,
                    )
                    &&& forall|b: int|
                        0 <= b < addr.0 as int / 4096 ==> !valid_run(
                            old(self).bitmap.bits(),
                            b,
                            pages as int,
                        )
                },
                None => {
                    &&& *final(self) == *old(self)
                    &&& (pages == 0 || forall|b: int|
                        !valid_run(old(self).bitmap.bits(), b, pages as int))
                },
            },
    {
        let ghost pre = self.bitmap.bits();
        if pages == 0 {
            return None;
        }
        let nbits = self.bitmap.size() * 8;
        let mut count: usize = 0;
        let mut i: usize = 0;
        while i < nbits
            invariant
                self == old(self),
                self.wf(),
                pre == self.bitmap.bits(),
                nbits == self.frames(),
                pages >= 1,
                i <= nbits,
                count <= i,
                count < pages,
                forall|j: int| i - count <= j < i ==> pre[j],
                i == count || !pre[i - count - 1],
                forall|b: int| 0 <= b && b + pages <= i ==> !valid_run(pre, b, pages as int),
            decreases nbits - i,
        {
            if self.bitmap.is_set(i) {
                count = count + 1;

                if count == pages {
                    let page = i + 1 - pages;
                    proof {
                        assert(valid_run(pre, page as int, pages as int));
                    }
                    let mut p: usize = page;
                    while p < page + pages
                        invariant
                            page + pages <= self.frames(),
                            page <= p <= page + pages,
                            self.wf(),
                            self.frames() == old(self).frames(),
                            self.bitmap.bits().len() == pre.len(),
                            forall|j: int| page <= j < p ==> !self.bitmap.bits()[j],
                            forall|j: int|
                                0 <= j < pre.len() && !(page <= j < p) ==> self.bitmap.bits()[j]
                                    == pre[j],
                        decreases page + pages - p,
                    {
                        self.bitmap.clear(p);
                        p = p + 1;
                    }
                    let addr_v = (page as u64) * PAGE_SIZE;
                    proof {
                        assert(page < nbits);
                        assert(8 * self.bitmap.spec_size() * 4096 <= PHYS_WINDOW);
                        assert((page as int) * 4096 + (pages as int) * 4096 <= PHYS_WINDOW)
                            by (nonlinear_arith)
                            requires
                                page + pages <= 8 * self.bitmap.spec_size(),
                                8 * self.bitmap.spec_size() * 4096 <= PHYS_WINDOW,
                                page >= 0,
                                pages >= 0,
                        ;
                        vstd::arithmetic::div_mod::lemma_div_multiples_vanish(
                            page as int,
                            4096,
                        );
                        vstd::arithmetic::div_mod::lemma_mod_multiples_basic(
                            page as int,
                            4096,
                        );
                        assert((page as int) * 4096 == (page as u64) as int * 4096);
                        assert(addr_v < 0x8000_0000_0000 ==> (addr_v
                            & !0xffff8000_0000_0000u64) == addr_v) by (bit_vector);
                    }
                    return Some(PhysAddr(addr_v));
                }
            } else {
                count = 0;
            }
            i = i + 1;
            proof {
                assert forall|b: int|
                    0 <= b && b + pages <= i implies !valid_run(pre, b, pages as int) by {
                    if b + pages == i {
                        // the run ending at the bit just examined: either that
                        // bit was clear, or the run would have to start before
                        // the current streak of set bits
                        if count == 0 {
                            assert(!pre[i - 1]);
                        } else {
                            assert(b <= i - count - 1 < b + pages);
                            assert(!pre[i - count - 1]);
                        }
                    }
                }
            }
        }
        None
    }

    /// `alloc`, then zero-fills the returned frames through the higher-half
    /// window before handing them out.
    pub fn calloc(&mut self, pages: usize, mem: &mut PhysMem) -> (r: Option<PhysAddr>)
        requires
            old(self).wf(),
            old(mem).len() >= old(self).frames() * 4096,
        ensures
            final(self).wf(),
            final(self).frames() == old(self).frames(),
            final(mem).len() == old(mem).len(),
            match r {
                Some(addr) => {
                    &&& pages >= 1
                    &&& addr.0 % 4096 == 0
                    &&& addr.0 + pages * 4096 <= PHYS_WINDOW
                    &&& addr.0 & !PHYS_BASE == addr.0
                    &&& addr.0 + pages * 4096 <= old(mem).len()
                    &&& alloc_transition(
                        old(self).bitmap.bits(),
                        final(self).bitmap.bits(),
                        addr.0 as int / 4096,
                        pages as int,
                    )
                    &&& forall|b: int|
                        0 <= b < addr.0 as int / 4096 ==> !valid_run(
                            old(self).bitmap.bits(),
                            b,
                            pages as int,
                        )
                    &&& forall|i: int|
                        addr.0 <= i < addr.0 + pages * 4096 ==> final(mem).byte(i) == 0
                    &&& forall|i: int|
                        0 <= i < old(mem).len() && !(addr.0 <= i < addr.0 + pages * 4096)
                            ==> final(mem).byte(i) == old(mem).byte(i)
                },
                None => {
                    &&& *final(self) == *old(self)
                    &&& *final(mem) == *old(mem)
                    &&& (pages == 0 || forall|b: int|
                        !valid_run(old(self).bitmap.bits(), b, pages as int))
                },
            },
    {
        let ghost frames0 = self.frames();
        match self.alloc_frames(pages) {
            Some(addr) => {
                let total = mem.size();
                proof {
                    let base = addr.0 as int / 4096;
                    vstd::arithmetic::div_mod::lemma_fundamental_div_mod(addr.0 as int, 4096);
                    assert(addr.0 as int == base * 4096);
                    assert((base + pages) * 4096 <= frames0 * 4096) by (nonlinear_arith)
                        requires
                            base + pages <= frames0,
                    ;
                    assert((base + pages) * 4096 == base * 4096 + (pages as int) * 4096)
                        by (nonlinear_arith);
                    assert(addr.0 + (pages as int) * 4096 <= total);
                }
                let count = pages * (PAGE_SIZE as usize);
                mem.zero_fill(addr.as_u64() as usize, count);
                Some(addr)
            },
            None => None,
        }
    }

    /// Marks `pages_amnt` frames starting at `addr` (higher-half aliases
    /// accepted) free again.  Whether the frames were in fact allocated is
    /// the caller's responsibility; the bits are simply set.
    pub fn free(&mut self, addr: PhysAddr, pages_amnt: usize)
        requires
            old(self).wf(),
            ((addr.0 & !PHYS_BASE) as int) / 4096 + pages_amnt <= old(self).frames(),
        ensures
            final(self).wf(),
            free_transition(
                old(self).bitmap.bits(),
                final(self).bitmap.bits(),
                ((addr.0 & !PHYS_BASE) as int) / 4096,
                pages_amnt as int,
            ),
    {
        let ghost pre = self.bitmap.bits();
        let page = (addr.0 & !PHYS_BASE) / PAGE_SIZE;
        let page_usize = page as usize;
        proof {
            assert(page_usize == page as int);
        }
        let mut p: usize = 0;
        while p < pages_amnt
            invariant
                page_usize + pages_amnt <= self.frames(),
                page_usize == ((addr.0 & !PHYS_BASE) as int) / 4096,
                p <= pages_amnt,
                self.wf(),
                self.frames() == old(self).frames(),
                self.bitmap.bits().len() == pre.len(),
                forall|j: int| page_usize <= j < page_usize + p ==> self.bitmap.bits()[j],
                forall|j: int|
                    0 <= j < pre.len() && !(page_usize <= j < page_usize + p)
                        ==> self.bitmap.bits()[j] == pre[j],
            decreases pages_amnt - p,
        {
            self.bitmap.set(page_usize + p);
            p = p + 1;
        }
    }
}

/// What a boot-loader memory-map entry says about a region.
#[derive(Debug, Clone, Copy, PartialEq, Eq, Structural)]
pub enum RegionKind {
    Usable,
    BootloaderReclaimable,
    Kernel,
    Reserved,
}

/// One entry of the boot loader's physical memory map.
#[derive(Debug, Clone, Copy, PartialEq, Eq, Structural)]
pub struct MemoryRegion {
    pub base: u64,
    pub length: u64,
    pub kind: RegionKind,
}

/// Regions that stretch the extent of tracked physical memory.
pub open spec fn counts_for_extent(r: MemoryRegion) -> bool {
    r.kind is Usable || r.kind is BootloaderReclaimable || r.kind is Kernel
}

/// Regions whose frames the allocator may hand out.
pub open spec fn frees_frames(r: MemoryRegion) -> bool {
    r.kind is Usable || r.kind is BootloaderReclaimable
}

/// The highest address covered by a usable, reclaimable or kernel region.
pub open spec fn spec_extent(s: Seq<MemoryRegion>) -> int
    decreases s.len(),
{
    if s.len() == 0 {
        0
    } else {
        let rest = spec_extent(s.drop_last());
        let r = s.last();
        if counts_for_extent(r) && r.base + r.length > rest {
            r.base + r.length
        } else {
            rest
        }
    }
}

/// Bytes of bitmap needed to track the map's frames: one bit per frame.
pub open spec fn spec_bitmap_bytes(s: Seq<MemoryRegion>) -> int {
    spec_div_ceil(spec_extent(s) / 4096, 8)
}

/// Whether region `r` contributes frame `p` as free.
pub open spec fn region_covers_frame(r: MemoryRegion, p: int) -> bool {
    frees_frames(r) && r.base / 4096 <= p < r.base / 4096 + r.length / 4096
}

/// Whether one of the map's regions contributes frame `p` as free.
pub open spec fn frame_free_in(s: Seq<MemoryRegion>, p: int) -> bool {
    exists|k: int| 0 <= k < s.len() && region_covers_frame(#[trigger] s[k], p)
}

/// Every counting region ends at or below the extent.
proof fn lemma_extent_bounds(s: Seq<MemoryRegion>, a: int)
    requires
        spec_extent(s) <= a,
    ensures
        forall|k: int|
            0 <= k < s.len() && counts_for_extent(#[trigger] s[k]) ==> s[k].base + s[k].length
                <= a,
    decreases s.len(),
{
    if s.len() > 0 {
        lemma_extent_bounds(s.drop_last(), a);
        assert forall|k: int|
            0 <= k < s.len() && counts_for_extent(#[trigger] s[k]) implies s[k].base
            + s[k].length <= a by {
            if k < s.len() - 1 {
                assert(s.drop_last()[k] == s[k]);
            } else {
                assert(s[k] == s.last());
            }
        }
    }
}

/// For a region ending at or below the extent, its frames all lie under the
/// total frame count.
proof fn lemma_region_frames_in_extent(base: int, length: int, extent: int)
    requires
        0 <= base,
        0 <= length,
        base + length <= extent,
    ensures
        base / 4096 + length / 4096 <= extent / 4096,
{
    vstd::arithmetic::div_mod::lemma_fundamental_div_mod(base, 4096);
    vstd::arithmetic::div_mod::lemma_fundamental_div_mod(length, 4096);
    vstd::arithmetic::div_mod::lemma_div_is_ordered(
        4096 * (base / 4096) + 4096 * (length / 4096),
        extent,
        4096,
    );
    assert((4096 * (base / 4096) + 4096 * (length / 4096)) / 4096 == base / 4096 + length
        / 4096) by (nonlinear_arith)
        requires
            true,
    {
        vstd::arithmetic::div_mod::lemma_div_multiples_vanish(
            base / 4096 + length / 4096,
            4096,
        );
    }
}

/// Builds the frame allocator from the boot loader's memory map: finds the
/// highest usable address, carves the bitmap's backing bytes out of the
/// first free region large enough to hold them, and marks every remaining
/// usable or reclaimable frame free.  Returns `None`, leaving the map
/// untouched, when no region can hold the bitmap or the bitmap would not
/// fit the platform's address width.
pub fn init(entries: &mut Vec<MemoryRegion>) -> (r: Option<Pmm>)
    requires
        forall|k: int|
            0 <= k < old(entries)@.len() ==> (#[trigger] old(entries)@[k]).base + old(
                entries,
            )@[k].length <= PHYS_WINDOW,
    ensures
        match r {
            Some(pmm) => {
                &&& pmm.wf()
                &&& pmm.bitmap.spec_size() == spec_bitmap_bytes(old(entries)@)
                &&& exists|c: int|
                    {
                        let b = spec_bitmap_bytes(old(entries)@);
                        let rc = #[trigger] old(entries)@[c];
                        &&& 0 <= c < old(entries)@.len()
                        &&& frees_frames(rc)
                        &&& b <= rc.length
                        &&& forall|j: int|
                            0 <= j < c ==> !(frees_frames(#[trigger] old(entries)@[j]) && b
                                <= old(entries)@[j].length)
                        &&& final(entries)@ == old(entries)@.update(
                            c,
                            MemoryRegion {
                                base: (rc.base + b) as u64,
                                length: (rc.length - b) as u64,
                                kind: rc.kind,
                            },
                        )
                    }
                &&& forall|p: int|
                    0 <= p < pmm.frames() ==> (pmm.frame_free(p) <==> frame_free_in(
                        final(entries)@,
                        p,
                    ))
            },
            None => {
                &&& *final(entries) == *old(entries)
                &&& {
                    let b = spec_bitmap_bytes(old(entries)@);
                    ||| 8 * b > usize::MAX
                    ||| forall|j: int|
                        0 <= j < old(entries)@.len() ==> !(frees_frames(
                            #[trigger] old(entries)@[j],
                        ) && b <= old(entries)@[j].length)
                }
            },
        },
{
    let n = entries.len();

    // highest address covered by memory the kernel may ever track
    let mut biggest: u64 = 0;
    let mut i: usize = 0;
    while i < n
        invariant
            i <= n,
            n == entries@.len(),
            forall|k: int|
                0 <= k < n ==> (#[trigger] entries@[k]).base + entries@[k].length
                    <= PHYS_WINDOW,
            biggest == spec_extent(entries@.subrange(0, i as int)),
            biggest <= PHYS_WINDOW,
        decreases n - i,
    {
        let entry = &entries[i];
        proof {
            assert(entries@[i as int] == *entry);
            assert(entries@.subrange(0, i + 1).drop_last() =~= entries@.subrange(0, i as int));
            assert(entries@.subrange(0, i + 1).last() == entries@[i as int]);
        }
        let counts = match entry.kind {
            RegionKind::Usable => true,
            RegionKind::BootloaderReclaimable => true,
            RegionKind::Kernel => true,
            RegionKind::Reserved => false,
        };
        if counts {
            let peak = entry.base + entry.length;
            if peak > biggest {
                biggest = peak;
            }
        }
        i = i + 1;
    }
    proof {
        assert(entries@.subrange(0, n as int) =~= entries@);
    }

    let frames_total = biggest / PAGE_SIZE;
    let bitmap_size = (frames_total + 7) / 8;
    proof {
        vstd::arithmetic::div_mod::lemma_div_is_ordered(
            biggest as int,
            PHYS_WINDOW as int,
            4096,
        );
        vstd::arithmetic::div_mod::lemma_div_is_ordered(
            frames_total as int + 7,
            0x8_0000_0000int + 7,
            8,
        );
        assert((0x8_0000_0007int) / 8 == 0x1_0000_0000);
        vstd::arithmetic::div_mod::lemma_fundamental_div_mod(frames_total as int + 7, 8);
        assert(8 * (bitmap_size as int) >= frames_total) by (nonlinear_arith)
            requires
                frames_total + 7 == 8 * ((frames_total + 7) / 8) + (frames_total + 7) % 8,
                0 <= (frames_total + 7) % 8 < 8,
                bitmap_size == (frames_total + 7) / 8,
        ;
        assert(bitmap_size == spec_bitmap_bytes(entries@));
    }
    if bitmap_size > (usize::MAX / 8) as u64 {
        return None;
    }

    // carve the bitmap's backing out of the first region that can hold it
    let mut c: usize = 0;
    let mut found = false;
    while c < n && !found
        invariant
            c <= n,
            n == entries@.len(),
            *entries == *old(entries),
            found ==> c < n && frees_frames(entries@[c as int]) && bitmap_size
                <= entries@[c as int].length,
            forall|j: int|
                0 <= j < c ==> !(frees_frames(#[trigger] entries@[j]) && bitmap_size
                    <= entries@[j].length),
        decreases n - c, 1int - if found { 1int } else { 0int },
    {
        let frees = match entries[c].kind {
            RegionKind::Usable => true,
            RegionKind::BootloaderReclaimable => true,
            RegionKind::Kernel => false,
            RegionKind::Reserved => false,
        };
        if frees && entries[c].length >= bitmap_size {
            found = true;
        } else {
            c = c + 1;
        }
    }
    if !found {
        return None;
    }
    let old_base = entries[c].base;
    let old_length = entries[c].length;
    let old_kind = entries[c].kind;
    entries[c] = MemoryRegion {
        base: old_base + bitmap_size,
        length: old_length - bitmap_size,
        kind: old_kind,
    };
    // the carved bytes would be zero-filled through the higher-half
    // window and wrapped in place; here the bitmap owns fresh zeroed
    // storage of the same size
    let mut bm = Bitmap::new(bitmap_size as usize);

    // mark the frames of every usable region free
    let nbits = bm.size() * 8;
    proof {
        lemma_extent_bounds(old(entries)@, biggest as int);
        assert forall|k: int|
            0 <= k < n && counts_for_extent(#[trigger] entries@[k]) implies entries@[k].base
            + entries@[k].length <= biggest by {
            if k != c {
                assert(entries@[k] == old(entries)@[k]);
            } else {
                assert(old(entries)@[k].base + old(entries)@[k].length <= biggest);
            }
        }
    }
    let mut i: usize = 0;
    while i < n
        invariant
            i <= n,
            n == entries@.len(),
            bm.spec_size() == bitmap_size,
            nbits == 8 * (bitmap_size as int),
            frames_total <= nbits <= usize::MAX,
            frames_total == biggest as int / 4096,
            forall|k: int|
                0 <= k < n && counts_for_extent(#[trigger] entries@[k]) ==> entries@[k].base
                    + entries@[k].length <= biggest,
            forall|p: int|
                0 <= p < 8 * bm.spec_size() ==> (bm.bit(p) <==> frame_free_in(
                    entries@.subrange(0, i as int),
                    p,
                )),
        decreases n - i,
    {
        let frees = match entries[i].kind {
            RegionKind::Usable => true,
            RegionKind::BootloaderReclaimable => true,
            RegionKind::Kernel => false,
            RegionKind::Reserved => false,
        };
        let ghost prefix = entries@.subrange(0, i as int);
        let ghost prefix1 = entries@.subrange(0, i + 1);
        proof {
            assert(prefix1.drop_last() =~= prefix);
            assert(prefix1.last() == entries@[i as int]);
            assert forall|p: int| frame_free_in(prefix, p) implies frame_free_in(
                prefix1,
                p,
            ) by {
                let k = choose|k: int|
                    0 <= k < prefix.len() && region_covers_frame(#[trigger] prefix[k], p);
                assert(region_covers_frame(prefix1[k], p));
            }
        }
        if frees {
            let page = entries[i].base / PAGE_SIZE;
            let length = entries[i].length / PAGE_SIZE;
            proof {
                assert(frees_frames(entries@[i as int]));
                assert(counts_for_extent(entries@[i as int]));
                assert(entries@[i as int].base + entries@[i as int].length <= biggest);
                lemma_region_frames_in_extent(
                    entries@[i as int].base as int,
                    entries@[i as int].length as int,
                    biggest as int,
                );
                assert(page + length <= frames_total);
            }
            let mut p: u64 = page;
            while p < page + length
                invariant
                    page <= p <= page + length,
                    page == entries@[i as int].base as int / 4096,
                    length == entries@[i as int].length as int / 4096,
                    page + length <= frames_total <= nbits,
                    frees_frames(entries@[i as int]),
                    bm.spec_size() == bitmap_size,
                    nbits == 8 * (bitmap_size as int),
                    nbits <= usize::MAX,
                    n == entries@.len(),
                    i < n,
                    prefix1 == entries@.subrange(0, i + 1),
                    forall|q: int| frame_free_in(prefix, q) ==> frame_free_in(prefix1, q),
                    forall|q: int|
                        0 <= q < 8 * bm.spec_size() ==> (bm.bit(q) <==> (frame_free_in(
                            entries@.subrange(0, i as int),
                            q,
                        ) || page <= q < p)),
                decreases page + length - p,
            {
                bm.set(p as usize);
                p = p + 1;
            }
            proof {
                assert forall|q: int|
                    0 <= q < 8 * bm.spec_size() implies (bm.bit(q) <==> frame_free_in(
                    prefix1,
                    q,
                )) by {
                    if bm.bit(q) {
                        if frame_free_in(prefix, q) {
                        } else {
                            assert(page <= q < page + length);
                            assert(region_covers_frame(prefix1[i as int], q));
                        }
                    } else {
                        if frame_free_in(prefix1, q) {
                            let k = choose|k: int|
                                0 <= k < prefix1.len() && region_covers_frame(
                                    #[trigger] prefix1[k],
                                    q,
                                );
                            if k < i {
                                assert(prefix[k] == prefix1[k]);
                                assert(frame_free_in(prefix, q));
                            } else {
                                assert(region_covers_frame(entries@[i as int], q));
                            }
                        }
                    }
                }
            }
        } else {
            proof {
                assert forall|q: int|
                    0 <= q < 8 * bm.spec_size() implies (bm.bit(q) <==> frame_free_in(
                    prefix1,
                    q,
                )) by {
                    if !bm.bit(q) && frame_free_in(prefix1, q) {
                        let k = choose|k: int|
                            0 <= k < prefix1.len() && region_covers_frame(
                                #[trigger] prefix1[k],
                                q,
                            );
                        if k < i {
                            assert(prefix[k] == prefix1[k]);
                            assert(frame_free_in(prefix, q));
                        }
                    }
                }
            }
        }
        i = i + 1;
    }
    proof {
        assert(entries@.subrange(0, n as int) =~= entries@);
    }
    Some(Pmm::new(bm))
}

/// An owned, scoped acquisition of whole frames, zero-filled, reached
/// through the higher-half window.  The frames travel with the value:
/// taking one here and releasing it through [`PmmBox::release`] pairs every
/// acquisition with exactly one release.
pub struct PmmBox {
    pub addr: PhysAddr,
    pub page_cnt: usize,
}

impl PmmBox {
    /// Acquires and zero-fills enough frames for `size` bytes.
    pub fn new(size: usize, pmm: &mut Pmm, mem: &mut PhysMem) -> (r: Option<PmmBox>)
        requires
            old(pmm).wf(),
            old(mem).len() >= old(pmm).frames() * 4096,
        ensures
            final(pmm).wf(),
            final(pmm).frames() == old(pmm).frames(),
            final(mem).len() == old(mem).len(),
            match r {
                Some(b) => {
                    &&& b.page_cnt == spec_div_ceil(size as int, 4096)
                    &&& b.addr.0 % 4096 == 0
                    &&& b.addr.0 + b.page_cnt * 4096 <= old(mem).len()
                    &&& alloc_transition(
                        old(pmm).bitmap.bits(),
                        final(pmm).bitmap.bits(),
                        b.addr.0 as int / 4096,
                        b.page_cnt as int,
                    )
                    &&& forall|i: int|
                        b.addr.0 <= i < b.addr.0 + b.page_cnt * 4096 ==> final(mem).byte(i)
                            == 0
                    &&& forall|i: int|
                        0 <= i < old(mem).len() && !(b.addr.0 <= i < b.addr.0 + b.page_cnt
                            * 4096) ==> final(mem).byte(i) == old(mem).byte(i)
                },
                None => {
                    &&& *final(pmm) == *old(pmm)
                    &&& *final(mem) == *old(mem)
                    &&& (size == 0 || forall|b: int|
                        !valid_run(
                            old(pmm).bitmap.bits(),
                            b,
                            spec_div_ceil(size as int, 4096),
                        ))
                },
            },
    {
        let alloc_size = div_ceil(size, PAGE_SIZE as usize);
        match pmm.calloc(alloc_size, mem) {
            Some(mem_addr) => Some(PmmBox { addr: mem_addr, page_cnt: alloc_size }),
            None => None,
        }
    }

    /// Hands the frames back; consuming the box makes a second release of
    /// the same frames impossible.
    pub fn release(self, pmm: &mut Pmm)
        requires
            old(pmm).wf(),
            ((self.addr.0 & !PHYS_BASE) as int) / 4096 + self.page_cnt <= old(pmm).frames(),
        ensures
            final(pmm).wf(),
            free_transition(
                old(pmm).bitmap.bits(),
                final(pmm).bitmap.bits(),
                ((self.addr.0 & !PHYS_BASE) as int) / 4096,
                self.page_cnt as int,
            ),
    {
        pmm.free(self.addr, self.page_cnt);
    }
}

/// Frame-allocation disjointness: two allocations with no intervening free
/// hand out ranges that do not overlap, because the first allocation's
/// frames are no longer free when the second one scans.
pub proof fn lemma_alloc_disjoint(
    s0: Seq<bool>,
    s1: Seq<bool>,
    s2: Seq<bool>,
    b1: int,
    k1: int,
    b2: int,
    k2: int,
)
    requires
        alloc_transition(s0, s1, b1, k1),
        alloc_transition(s1, s2, b2, k2),
        k1 >= 1,
        k2 >= 1,
    ensures
        b1 + k1 <= b2 || b2 + k2 <= b1,
{
    if !(b1 + k1 <= b2 || b2 + k2 <= b1) {
        let j = if b1 >= b2 {
            b1
        } else {
            b2
        };
        assert(b1 <= j < b1 + k1 && b2 <= j < b2 + k2);
        assert(!s1[j]);
        assert(s1[j]);
    }
}

/// A chain of allocations, each acting on the state the previous one left.
pub open spec fn alloc_chain(states: Seq<Seq<bool>>, allocs: Seq<(int, int)>) -> bool {
    &&& states.len() == allocs.len() + 1
    &&& forall|i: int|
        0 <= i < allocs.len() ==> alloc_transition(
            #[trigger] states[i],
            states[i + 1],
            allocs[i].0,
            allocs[i].1,
        ) && allocs[i].1 >= 1
}

/// Frames taken by allocation `i` are still taken in every later state of
/// the chain.
proof fn lemma_alloc_stays_taken(states: Seq<Seq<bool>>, allocs: Seq<(int, int)>, i: int, m: int)
    requires
        alloc_chain(states, allocs),
        0 <= i < allocs.len(),
        i < m <= allocs.len(),
    ensures
        forall|x: int| allocs[i].0 <= x < allocs[i].0 + allocs[i].1 ==> !states[m][x],
        states[m].len() == states[i].len(),
    decreases m - i,
{
    assert(alloc_transition(states[i], states[i + 1], allocs[i].0, allocs[i].1));
    if m == i + 1 {
    } else {
        lemma_alloc_stays_taken(states, allocs, i, m - 1);
        assert(alloc_transition(states[m - 1], states[m], allocs[m - 1].0, allocs[m - 1].1));
        assert forall|x: int|
            allocs[i].0 <= x < allocs[i].0 + allocs[i].1 implies !states[m][x] by {
            assert(!states[m - 1][x]);
            assert(0 <= x < states[m - 1].len());
        }
    }
}

/// Frame-allocation disjointness over a whole run of allocations: any two
/// hand out non-overlapping frame ranges.
pub proof fn lemma_alloc_chain_disjoint(
    states: Seq<Seq<bool>>,
    allocs: Seq<(int, int)>,
    i: int,
    j: int,
)
    requires
        alloc_chain(states, allocs),
        0 <= i < j < allocs.len(),
    ensures
        allocs[i].0 + allocs[i].1 <= allocs[j].0 || allocs[j].0 + allocs[j].1 <= allocs[i].0,
{
    lemma_alloc_stays_taken(states, allocs, i, j);
    assert(alloc_transition(states[j], states[j + 1], allocs[j].0, allocs[j].1));
    let (bi, ki) = (allocs[i].0, allocs[i].1);
    let (bj, kj) = (allocs[j].0, allocs[j].1);
    if !(bi + ki <= bj || bj + kj <= bi) {
        let x = if bi >= bj {
            bi
        } else {
            bj
        };
        assert(bi <= x < bi + ki && bj <= x < bj + kj);
        assert(!states[j][x]);
        assert(states[j][x]);
    }
}

/// Alloc/free round trip: allocating a run and freeing exactly that run
/// restores the bitmap that stood before the allocation.
pub proof fn lemma_alloc_free_round_trip(
    s0: Seq<bool>,
    s1: Seq<bool>,
    s2: Seq<bool>,
    base: int,
    k: int,
)
    requires
        alloc_transition(s0, s1, base, k),
        free_transition(s1, s2, base, k),
    ensures
        s2 == s0,
{
    assert(s2 =~= s0);
}

/// First-fit determinism: a bitmap admits only one lowest run of a given
/// length, so equal bitmaps allocate at equal addresses.
pub proof fn lemma_first_fit_unique(s: Seq<bool>, k: int, b1: int, b2: int)
    requires
        valid_run(s, b1, k),
        forall|b: int| 0 <= b < b1 ==> !valid_run(s, b, k),
        valid_run(s, b2, k),
        forall|b: int| 0 <= b < b2 ==> !valid_run(s, b, k),
    ensures
        b1 == b2,
{
}

} // verus!
