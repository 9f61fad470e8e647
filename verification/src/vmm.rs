//! Virtual memory manager: one four-level page table per address space,
//! plus the mmap-style ranges layered above it.
//!
//! The hardware walks the table through physical frame pointers; here each
//! level is modelled as an arena of 512-entry tables and an interior entry
//! holds the index of its child table, so the walk is bounds-checked by
//! construction.  Leaf entries keep the architectural bit layout exactly:
//! bit 0 present, bit 1 writable, bit 2 user, bit 3 write-through, bit 4
//! uncacheable, bit 9 (ignored by the processor) repurposed as "lazily
//! backed", bit 63 no-execute, bits 12..=51 the frame address.

use vstd::prelude::*;

use crate::math::spec_div_ceil;
use crate::pmm::{PhysAddr, ADDR_MASK};
use crate::vfs::FileDescription;

verus! {

/// Leaf-entry bit: the page is resident.
pub const PAGE_PRESENT: u64 = 0x1;

/// Leaf-entry bit: the page may be written.
pub const PAGE_WRITABLE: u64 = 0x2;

/// Leaf-entry bit: the page is reachable from user mode.
pub const PAGE_USERMODE: u64 = 0x4;

/// Leaf-entry bit: write-through caching.
pub const PAGE_WT: u64 = 0x8;

/// Leaf-entry bit: caching disabled.
pub const PAGE_UNCACHEABLE: u64 = 0x10;

/// Leaf-entry bit ignored by the processor, repurposed to mark a page that
/// is lazily backed: registered in a range but not yet given a frame.
pub const PAGE_MMAPED: u64 = 0x200;

/// Leaf-entry bit: no instruction fetch from this page.
pub const PAGE_NX: u64 = 0x8000_0000_0000_0000;

/// Protection asked of an mmap range.
#[derive(Debug, Clone, Copy, PartialEq, Eq, Structural)]
pub struct MapProt(pub u64);

pub const PROT_NONE: u64 = 0x0;

pub const PROT_READ: u64 = 0x1;

pub const PROT_WRITE: u64 = 0x2;

pub const PROT_EXEC: u64 = 0x4;

/// Kind of an mmap range.
#[derive(Debug, Clone, Copy, PartialEq, Eq, Structural)]
pub struct MapFlags(pub u64);

pub const MAP_SHARED: u64 = 0x0001;

pub const MAP_PRIVATE: u64 = 0x0002;

pub const MAP_FIXED: u64 = 0x0010;

pub const MAP_ANONYMOUS: u64 = 0x1000;

/// The leaf-entry permission bits a range's protection translates to.
/// `PROT_NONE` keeps every access bit clear; execute permission is granted
/// by clearing the no-execute bit.
pub open spec fn spec_flags_of_prot(p: u64) -> u64 {
    if p == PROT_NONE {
        PAGE_NX
    } else {
        let w = if p & PROT_WRITE != 0 {
            PAGE_WRITABLE
        } else {
            0
        };
        let r = if p & PROT_READ != 0 {
            PAGE_USERMODE
        } else {
            0
        };
        let base = (PAGE_NX | w) | r;
        if p & PROT_EXEC != 0 {
            base & !PAGE_NX
        } else {
            base
        }
    }
}

/// Translates an mmap protection into leaf-entry permission bits.
pub fn page_flags_from_prot(prot: MapProt) -> (r: u64)
    ensures
        r == spec_flags_of_prot(prot.0),
{
    if prot.0 == PROT_NONE {
        return PAGE_NX;
    }
    let mut page_flags: u64 = PAGE_NX;
    if prot.0 & PROT_WRITE != 0 {
        page_flags = page_flags | PAGE_WRITABLE;
    }
    if prot.0 & PROT_READ != 0 {
        page_flags = page_flags | PAGE_USERMODE;
    }
    if prot.0 & PROT_EXEC != 0 {
        page_flags = page_flags & !PAGE_NX;
    }
    proof {
        let p = prot.0;
        assert(((0x8000_0000_0000_0000u64 | 0u64) | 0u64) == 0x8000_0000_0000_0000u64)
            by (bit_vector);
        assert(((0x8000_0000_0000_0000u64 | 0x2u64) | 0u64) == (0x8000_0000_0000_0000u64
            | 0x2u64)) by (bit_vector);
        assert(((0x8000_0000_0000_0000u64 | 0u64) | 0x4u64) == (0x8000_0000_0000_0000u64
            | 0x4u64)) by (bit_vector);
    }
    page_flags
}

/// The pml4 slot (bits 39..=47) chosen by a virtual address.
pub open spec fn pml4_index(v: u64) -> int {
    ((v >> 39) & 0x1ff) as int
}

/// The page-directory-pointer slot (bits 30..=38).
pub open spec fn pdp_index(v: u64) -> int {
    ((v >> 30) & 0x1ff) as int
}

/// The page-directory slot (bits 21..=29).
pub open spec fn pd_index(v: u64) -> int {
    ((v >> 21) & 0x1ff) as int
}

/// The page-table slot (bits 12..=20).
pub open spec fn pt_index(v: u64) -> int {
    ((v >> 12) & 0x1ff) as int
}

/// The virtual page number: the four walk indices as one value.
pub open spec fn vpage(v: u64) -> u64 {
    (v >> 12) & 0xf_ffff_ffff
}

proof fn lemma_index_bounds(v: u64)
    by (bit_vector)
    ensures
        (v >> 39) & 0x1ff < 512,
        (v >> 30) & 0x1ff < 512,
        (v >> 21) & 0x1ff < 512,
        (v >> 12) & 0x1ff < 512,
{
}

/// Two addresses pick the same leaf slot exactly when they lie on the same
/// virtual page.
proof fn lemma_vpage_indices(a: u64, b: u64)
    by (bit_vector)
    ensures
        ((a >> 12) & 0xf_ffff_ffff == (b >> 12) & 0xf_ffff_ffff) <==> ((a >> 39) & 0x1ff == (b
            >> 39) & 0x1ff && (a >> 30) & 0x1ff == (b >> 30) & 0x1ff && (a >> 21) & 0x1ff == (b
            >> 21) & 0x1ff && (a >> 12) & 0x1ff == (b >> 12) & 0x1ff),
{
}

/// A virtual address.
#[derive(Debug, Clone, Copy, PartialEq, Eq, Structural)]
pub struct VirtAddr(pub u64);

impl VirtAddr {
    pub fn new(addr: u64) -> (r: Self)
        ensures
            r.0 == addr,
    {
        VirtAddr(addr)
    }

    pub fn pml4(self) -> (r: u16)
        ensures
            r as int == pml4_index(self.0),
            r < 512,
    {
        proof {
            lemma_index_bounds(self.0);
        }
        ((self.0 >> 39) & 0x1ff) as u16
    }

    pub fn pdp(self) -> (r: u16)
        ensures
            r as int == pdp_index(self.0),
            r < 512,
    {
        proof {
            lemma_index_bounds(self.0);
        }
        ((self.0 >> 30) & 0x1ff) as u16
    }

    pub fn pd(self) -> (r: u16)
        ensures
            r as int == pd_index(self.0),
            r < 512,
    {
        proof {
            lemma_index_bounds(self.0);
        }
        ((self.0 >> 21) & 0x1ff) as u16
    }

    pub fn pt(self) -> (r: u16)
        ensures
            r as int == pt_index(self.0),
            r < 512,
    {
        proof {
            lemma_index_bounds(self.0);
        }
        ((self.0 >> 12) & 0x1ff) as u16
    }

    pub fn as_u64(self) -> (r: u64)
        ensures
            r == self.0,
    {
        self.0
    }
}

/// A raw leaf entry read back from the table.
#[derive(Debug, Clone, Copy, PartialEq, Eq, Structural)]
pub struct PageMapping(pub u64);

impl PageMapping {
    pub fn new(addr: u64) -> (r: Self)
        ensures
            r.0 == addr,
    {
        PageMapping(addr)
    }

    /// The frame address, with every flag bit masked off.
    pub fn phys_addr(&self) -> (r: PhysAddr)
        ensures
            r.0 == self.0 & ADDR_MASK,
    {
        PhysAddr::new(self.0).remove_flags()
    }

    pub fn as_u64(self) -> (r: u64)
        ensures
            r == self.0,
    {
        self.0
    }

    pub fn is_present(&self) -> (r: bool)
        ensures
            r == (self.0 & PAGE_PRESENT != 0),
    {
        self.0 & PAGE_PRESENT != 0
    }

    pub fn is_writable(&self) -> (r: bool)
        ensures
            r == (self.0 & PAGE_WRITABLE != 0),
    {
        self.0 & PAGE_WRITABLE != 0
    }

    pub fn is_usermode(&self) -> (r: bool)
        ensures
            r == (self.0 & PAGE_USERMODE != 0),
    {
        self.0 & PAGE_USERMODE != 0
    }

    pub fn is_uncacheable(&self) -> (r: bool)
        ensures
            r == (self.0 & PAGE_UNCACHEABLE != 0),
    {
        self.0 & PAGE_UNCACHEABLE != 0
    }

    pub fn is_mmaped(&self) -> (r: bool)
        ensures
            r == (self.0 & PAGE_MMAPED != 0),
    {
        self.0 & PAGE_MMAPED != 0
    }

    pub fn is_non_exec(&self) -> (r: bool)
        ensures
            r == (self.0 & PAGE_NX != 0),
    {
        self.0 & PAGE_NX != 0
    }
}

/// One slot of an interior page-table level: either empty or the index of
/// the child table in the next level's arena.
#[derive(Debug, Clone, Copy, PartialEq, Eq, Structural)]
pub enum Slot {
    Empty,
    Table { idx: usize },
}

/// One contiguous region of an address space's virtual memory: where it
/// starts, how long it is, its protection, its kind, and its file backing
/// (offset and open file) if any.
pub struct VirtMemoryRange {
    pub base: VirtAddr,
    pub length: usize,
    pub prot: MapProt,
    pub flags: MapFlags,
    pub offset: usize,
    pub fd: Option<FileDescription>,
}

impl VirtMemoryRange {
    pub fn new(
        base: VirtAddr,
        length: usize,
        prot: MapProt,
        flags: MapFlags,
        offset: usize,
        fd: Option<FileDescription>,
    ) -> (r: Self)
        ensures
            r.base == base,
            r.length == length,
            r.prot == prot,
            r.flags == flags,
            r.offset == offset,
            r.fd == fd,
    {
        VirtMemoryRange { base, length, prot, flags, offset, fd }
    }

    pub open spec fn spec_start(self) -> int {
        self.base.0 as int
    }

    pub open spec fn spec_end(self) -> int {
        self.base.0 + self.length
    }

    /// Whether `addr` lies inside `[start, end)`.
    pub open spec fn contains(self, addr: int) -> bool {
        self.spec_start() <= addr < self.spec_end()
    }

    pub fn start(&self) -> (r: u64)
        ensures
            r == self.spec_start(),
    {
        self.base.as_u64()
    }

    pub fn end(&self) -> (r: u64)
        requires
            self.spec_end() <= u64::MAX,
        ensures
            r == self.spec_end(),
    {
        self.base.as_u64() + self.length as u64
    }

    pub fn is_anon_map(&self) -> (r: bool)
        ensures
            r == (self.flags.0 & MAP_ANONYMOUS != 0),
    {
        self.flags.0 & MAP_ANONYMOUS != 0
    }

    pub fn is_private_map(&self) -> (r: bool)
        ensures
            r == (self.flags.0 & MAP_PRIVATE != 0),
    {
        self.flags.0 & MAP_PRIVATE != 0
    }

    pub fn is_shared_map(&self) -> (r: bool)
        ensures
            r == (self.flags.0 & MAP_SHARED != 0),
    {
        self.flags.0 & MAP_SHARED != 0
    }
}

/// One address space: the four page-table levels, each an arena of
/// 512-entry tables with the root at the first level, and the list of
/// mmap ranges layered above the raw table.
pub struct VirtualMemManager {
    pub pml4: Vec<Slot>,
    pub pdpts: Vec<Vec<Slot>>,
    pub pds: Vec<Vec<Slot>>,
    pub pts: Vec<Vec<u64>>,
    pub ranges: Vec<VirtMemoryRange>,
}

impl VirtualMemManager {
    pub open spec fn l1(self, i: int) -> Slot {
        self.pml4@[i]
    }

    pub open spec fn l2(self, t: int, i: int) -> Slot {
        self.pdpts@[t]@[i]
    }

    pub open spec fn l3(self, t: int, i: int) -> Slot {
        self.pds@[t]@[i]
    }

    pub open spec fn leaf(self, t: int, i: int) -> u64 {
        self.pts@[t]@[i]
    }

    /// The tables are well formed: every table has 512 slots, every
    /// interior pointer stays inside the next arena, and no two interior
    /// slots of a level share a child, so a leaf is reached by exactly one
    /// walk.
    pub open spec fn tables_wf(self) -> bool {
        &&& self.pml4@.len() == 512
        &&& forall|t: int|
            0 <= t < self.pdpts@.len() ==> (#[trigger] self.pdpts@[t])@.len() == 512
        &&& forall|t: int| 0 <= t < self.pds@.len() ==> (#[trigger] self.pds@[t])@.len() == 512
        &&& forall|t: int| 0 <= t < self.pts@.len() ==> (#[trigger] self.pts@[t])@.len() == 512
        &&& forall|i: int|
            0 <= i < 512 && (#[trigger] self.l1(i)) is Table ==> self.l1(i)->idx
                < self.pdpts@.len()
        &&& forall|t: int, i: int|
            0 <= t < self.pdpts@.len() && 0 <= i < 512 && (#[trigger] self.l2(t, i)) is Table
                ==> self.l2(t, i)->idx < self.pds@.len()
        &&& forall|t: int, i: int|
            0 <= t < self.pds@.len() && 0 <= i < 512 && (#[trigger] self.l3(t, i)) is Table
                ==> self.l3(t, i)->idx < self.pts@.len()
        &&& forall|i: int, j: int|
            0 <= i < 512 && 0 <= j < 512 && (#[trigger] self.l1(i)) is Table && (
            #[trigger] self.l1(j)) is Table && self.l1(i)->idx == self.l1(j)->idx ==> i == j
        &&& forall|t1: int, i1: int, t2: int, i2: int|
            0 <= t1 < self.pdpts@.len() && 0 <= i1 < 512 && 0 <= t2 < self.pdpts@.len() && 0
                <= i2 < 512 && (#[trigger] self.l2(t1, i1)) is Table && (#[trigger] self.l2(
                t2,
                i2,
            )) is Table && self.l2(t1, i1)->idx == self.l2(t2, i2)->idx ==> t1 == t2 && i1 == i2
        &&& forall|t1: int, i1: int, t2: int, i2: int|
            0 <= t1 < self.pds@.len() && 0 <= i1 < 512 && 0 <= t2 < self.pds@.len() && 0 <= i2
                < 512 && (#[trigger] self.l3(t1, i1)) is Table && (#[trigger] self.l3(
                t2,
                i2,
            )) is Table && self.l3(t1, i1)->idx == self.l3(t2, i2)->idx ==> t1 == t2 && i1 == i2
    }

    /// Levels whose arena did not change read the same slots and entries.
    proof fn lemma_level_congruence(pre: Self, post: Self)
        ensures
            post.pml4@ == pre.pml4@ ==> forall|i: int| #[trigger] post.l1(i) == pre.l1(i),
            post.pdpts@ == pre.pdpts@ ==> forall|t: int, i: int|
                #[trigger] post.l2(t, i) == pre.l2(t, i),
            post.pdpts@ == pre.pdpts@ ==> forall|t: int|
                #[trigger] post.pdpts@[t] == pre.pdpts@[t],
            post.pds@ == pre.pds@ ==> forall|t: int, i: int|
                #[trigger] post.l3(t, i) == pre.l3(t, i),
            post.pds@ == pre.pds@ ==> forall|t: int| #[trigger] post.pds@[t] == pre.pds@[t],
            post.pts@ == pre.pts@ ==> forall|t: int, i: int|
                #[trigger] post.leaf(t, i) == pre.leaf(t, i),
            post.pts@ == pre.pts@ ==> forall|t: int| #[trigger] post.pts@[t] == pre.pts@[t],
    {
    }

    /// The leaf entry the walk finds for `v`; a missing level reads as 0,
    /// as a non-present entry does on hardware.
    pub open spec fn mapping_of(self, v: u64) -> u64 {
        let s1 = self.l1(pml4_index(v));
        if s1 is Table {
            let s2 = self.l2(s1->idx as int, pdp_index(v));
            if s2 is Table {
                let s3 = self.l3(s2->idx as int, pd_index(v));
                if s3 is Table {
                    self.leaf(s3->idx as int, pt_index(v))
                } else {
                    0
                }
            } else {
                0
            }
        } else {
            0
        }
    }

    /// A fresh, entirely empty address space.  This is the kernel's own
    /// instance (it adopts no hardware table: the model owns all its
    /// tables), or a blank slate; a user-mode space that keeps the kernel
    /// half reachable is made with [`VirtualMemManager::new_user`], which
    /// needs the kernel instance and so cannot be chosen by a flag alone.
    #[allow(unused_variables)]
    pub fn new(usermode: bool) -> (r: Self)
        ensures
            r.tables_wf(),
            r.ranges@.len() == 0,
            forall|v: u64| r.mapping_of(v) == 0,
    {
        let pml4: Vec<Slot> = vec![Slot::Empty; 512];
        let r = VirtualMemManager {
            pml4,
            pdpts: Vec::new(),
            pds: Vec::new(),
            pts: Vec::new(),
            ranges: Vec::new(),
        };
        proof {
            assert forall|v: u64| r.mapping_of(v) == 0 by {
                lemma_index_bounds(v);
            }
        }
        r
    }

    /// A fresh user-mode address space with the kernel's high half
    /// reachable: the two top-level entries covering the kernel's code and
    /// the physical window are taken over from the kernel instance, so both
    /// spaces translate those addresses alike; every other slot starts
    /// empty.  The hardware shares the kernel's lower tables through one
    /// physical pointer; each instance here owns its copy of them, which
    /// agrees because the kernel half is fixed once at boot.
    pub fn new_user(kernel: &VirtualMemManager) -> (r: Self)
        requires
            kernel.tables_wf(),
        ensures
            r.tables_wf(),
            r.ranges@.len() == 0,
            forall|v: u64|
                pml4_index(v) == 256 || pml4_index(v) == 511 ==> r.mapping_of(v)
                    == kernel.mapping_of(v),
            forall|v: u64|
                !(pml4_index(v) == 256 || pml4_index(v) == 511) ==> r.mapping_of(v) == 0,
    {
        let mut pml4: Vec<Slot> = vec![Slot::Empty; 512];
        let s256 = kernel.pml4[256];
        let s511 = kernel.pml4[511];
        pml4[256] = s256;
        pml4[511] = s511;
        let r = VirtualMemManager {
            pml4,
            pdpts: copy_slot_arena(&kernel.pdpts),
            pds: copy_slot_arena(&kernel.pds),
            pts: copy_leaf_arena(&kernel.pts),
            ranges: Vec::new(),
        };
        proof {
            assert forall|t: int, i: int|
                0 <= t < kernel.pdpts@.len() && 0 <= i < 512 implies #[trigger] r.l2(t, i)
                == kernel.l2(t, i) by {
                assert(r.pdpts@[t]@ == kernel.pdpts@[t]@);
            }
            assert forall|t: int, i: int|
                0 <= t < kernel.pds@.len() && 0 <= i < 512 implies #[trigger] r.l3(t, i)
                == kernel.l3(t, i) by {
                assert(r.pds@[t]@ == kernel.pds@[t]@);
            }
            assert forall|t: int, i: int|
                0 <= t < kernel.pts@.len() && 0 <= i < 512 implies #[trigger] r.leaf(t, i)
                == kernel.leaf(t, i) by {
                assert(r.pts@[t]@ == kernel.pts@[t]@);
            }
            assert forall|t: int|
                0 <= t < r.pdpts@.len() implies (#[trigger] r.pdpts@[t])@.len() == 512 by {
                assert(r.pdpts@[t]@ == kernel.pdpts@[t]@);
            }
            assert forall|t: int|
                0 <= t < r.pds@.len() implies (#[trigger] r.pds@[t])@.len() == 512 by {
                assert(r.pds@[t]@ == kernel.pds@[t]@);
            }
            assert forall|t: int|
                0 <= t < r.pts@.len() implies (#[trigger] r.pts@[t])@.len() == 512 by {
                assert(r.pts@[t]@ == kernel.pts@[t]@);
            }
            assert forall|i: int|
                0 <= i < 512 && (#[trigger] r.l1(i)) is Table implies r.l1(i)->idx
                < r.pdpts@.len() by {
                if i == 256 || i == 511 {
                    assert(r.l1(i) == kernel.l1(i));
                } else {
                    assert(r.l1(i) is Empty);
                }
            }
            assert forall|t: int, i: int|
                0 <= t < r.pdpts@.len() && 0 <= i < 512 && (#[trigger] r.l2(t, i)) is Table
                implies r.l2(t, i)->idx < r.pds@.len() by {
                assert(r.l2(t, i) == kernel.l2(t, i));
                assert(kernel.l2(t, i) is Table);
            }
            assert forall|t: int, i: int|
                0 <= t < r.pds@.len() && 0 <= i < 512 && (#[trigger] r.l3(t, i)) is Table
                implies r.l3(t, i)->idx < r.pts@.len() by {
                assert(r.l3(t, i) == kernel.l3(t, i));
                assert(kernel.l3(t, i) is Table);
            }
            assert forall|i: int, j: int|
                0 <= i < 512 && 0 <= j < 512 && (#[trigger] r.l1(i)) is Table && (
            #[trigger] r.l1(j)) is Table && r.l1(i)->idx == r.l1(j)->idx implies i == j by {
                if i == 256 || i == 511 {
                    assert(r.l1(i) == kernel.l1(i));
                } else {
                    assert(r.l1(i) is Empty);
                }
                if j == 256 || j == 511 {
                    assert(r.l1(j) == kernel.l1(j));
                } else {
                    assert(r.l1(j) is Empty);
                }
            }
            assert forall|t1: int, i1: int, t2: int, i2: int|
                0 <= t1 < r.pdpts@.len() && 0 <= i1 < 512 && 0 <= t2 < r.pdpts@.len() && 0
                    <= i2 < 512 && (#[trigger] r.l2(t1, i1)) is Table && (#[trigger] r.l2(
                    t2,
                    i2,
                )) is Table && r.l2(t1, i1)->idx == r.l2(t2, i2)->idx implies t1 == t2 && i1
                == i2 by {
                assert(r.l2(t1, i1) == kernel.l2(t1, i1));
                assert(r.l2(t2, i2) == kernel.l2(t2, i2));
                assert(kernel.l2(t1, i1) is Table && kernel.l2(t2, i2) is Table);
            }
            assert forall|t1: int, i1: int, t2: int, i2: int|
                0 <= t1 < r.pds@.len() && 0 <= i1 < 512 && 0 <= t2 < r.pds@.len() && 0 <= i2
                    < 512 && (#[trigger] r.l3(t1, i1)) is Table && (#[trigger] r.l3(
                    t2,
                    i2,
                )) is Table && r.l3(t1, i1)->idx == r.l3(t2, i2)->idx implies t1 == t2 && i1
                == i2 by {
                assert(r.l3(t1, i1) == kernel.l3(t1, i1));
                assert(r.l3(t2, i2) == kernel.l3(t2, i2));
                assert(kernel.l3(t1, i1) is Table && kernel.l3(t2, i2) is Table);
            }
            assert(r.tables_wf());
            assert forall|v: u64|
                pml4_index(v) == 256 || pml4_index(v) == 511 implies r.mapping_of(v)
                == kernel.mapping_of(v) by {
                lemma_index_bounds(v);
                let j0 = pml4_index(v);
                assert(r.l1(j0) == kernel.l1(j0));
                if kernel.l1(j0) is Table {
                    let u1 = kernel.l1(j0)->idx as int;
                    assert(r.l2(u1, pdp_index(v)) == kernel.l2(u1, pdp_index(v)));
                    if kernel.l2(u1, pdp_index(v)) is Table {
                        let u2 = kernel.l2(u1, pdp_index(v))->idx as int;
                        assert(r.l3(u2, pd_index(v)) == kernel.l3(u2, pd_index(v)));
                        if kernel.l3(u2, pd_index(v)) is Table {
                            let u3 = kernel.l3(u2, pd_index(v))->idx as int;
                            assert(r.leaf(u3, pt_index(v)) == kernel.leaf(u3, pt_index(v)));
                        }
                    }
                }
            }
            assert forall|v: u64|
                !(pml4_index(v) == 256 || pml4_index(v) == 511) implies r.mapping_of(v)
                == 0 by {
                lemma_index_bounds(v);
                assert(r.l1(pml4_index(v)) is Empty);
            }
        }
        r
    }

    /// Returns the pdpt the pml4 slot `i0` points at, creating an empty one
    /// when the slot is not present; no translation changes either way.
    fn ensure_pdpt(&mut self, i0: usize) -> (t: usize)
        requires
            old(self).tables_wf(),
            i0 < 512,
        ensures
            final(self).tables_wf(),
            final(self).l1(i0 as int) is Table && final(self).l1(i0 as int)->idx == t,
            t < final(self).pdpts@.len(),
            forall|i: int| 0 <= i < 512 && i != i0 ==> final(self).l1(i) == old(self).l1(i),
            final(self).pds@ == old(self).pds@,
            final(self).pts@ == old(self).pts@,
            final(self).ranges@ == old(self).ranges@,
            old(self).pdpts@.len() <= final(self).pdpts@.len(),
            forall|tt: int|
                0 <= tt < old(self).pdpts@.len() ==> (#[trigger] final(self).pdpts@[tt])@ == old(self).pdpts@[tt]@,
            old(self).l1(i0 as int) is Table ==> *final(self) == *old(self),
            forall|v: u64| final(self).mapping_of(v) == old(self).mapping_of(v),
    {
        match self.pml4[i0] {
            Slot::Table { idx } => {
                proof {
                    assert(self.l1(i0 as int) is Table);
                }
                idx
            },
            Slot::Empty => {
                let t = self.pdpts.len();
                let fresh: Vec<Slot> = vec![Slot::Empty; 512];
                self.pdpts.push(fresh);
                self.pml4[i0] = Slot::Table { idx: t };
                proof {
                    let n0 = old(self).pdpts@.len() as int;
                    Self::lemma_level_congruence(*old(self), *self);
                    assert(forall|i: int|
                        0 <= i < 512 ==> #[trigger] self.l2(t as int, i) is Empty);
                    assert forall|tt: int|
                        0 <= tt < self.pdpts@.len() implies (#[trigger] self.pdpts@[tt])@.len()
                        == 512 by {
                        if tt < n0 {
                            assert(self.pdpts@[tt] == old(self).pdpts@[tt]);
                        }
                    }
                    assert forall|i: int|
                        0 <= i < 512 && (#[trigger] self.l1(i)) is Table implies self.l1(i)->idx
                        < self.pdpts@.len() by {
                        if i != i0 {
                            assert(old(self).l1(i) is Table);
                        }
                    }
                    assert forall|tt: int, i: int|
                        0 <= tt < self.pdpts@.len() && 0 <= i < 512 && (#[trigger] self.l2(
                            tt,
                            i,
                        )) is Table implies self.l2(tt, i)->idx < self.pds@.len() by {
                        if tt < n0 {
                            assert(self.pdpts@[tt] == old(self).pdpts@[tt]);
                            assert(old(self).l2(tt, i) is Table);
                        } else {
                            assert(self.l2(tt, i) is Empty);
                        }
                    }
                    assert forall|i: int, j: int|
                        0 <= i < 512 && 0 <= j < 512 && (#[trigger] self.l1(i)) is Table && (
                        #[trigger] self.l1(j)) is Table && self.l1(i)->idx == self.l1(j)->idx
                        implies i == j by {
                        if i != i0 && j != i0 {
                            assert(old(self).l1(i) is Table && old(self).l1(j) is Table);
                        } else if i == i0 && j != i0 {
                            assert(old(self).l1(j) is Table);
                            assert(old(self).l1(j)->idx < n0);
                        } else if j == i0 && i != i0 {
                            assert(old(self).l1(i) is Table);
                            assert(old(self).l1(i)->idx < n0);
                        }
                    }
                    assert forall|t1: int, i1: int, t2: int, i2: int|
                        0 <= t1 < self.pdpts@.len() && 0 <= i1 < 512 && 0 <= t2
                            < self.pdpts@.len() && 0 <= i2 < 512 && (#[trigger] self.l2(
                            t1,
                            i1,
                        )) is Table && (#[trigger] self.l2(t2, i2)) is Table && self.l2(
                            t1,
                            i1,
                        )->idx == self.l2(t2, i2)->idx implies t1 == t2 && i1 == i2 by {
                        if t1 < n0 && t2 < n0 {
                            assert(self.pdpts@[t1] == old(self).pdpts@[t1]);
                            assert(self.pdpts@[t2] == old(self).pdpts@[t2]);
                            assert(old(self).l2(t1, i1) is Table && old(self).l2(
                                t2,
                                i2,
                            ) is Table);
                        } else if t1 >= n0 {
                            assert(self.l2(t1, i1) is Empty);
                        } else {
                            assert(self.l2(t2, i2) is Empty);
                        }
                    }
                    assert(self.tables_wf());
                    assert forall|v: u64|
                        self.mapping_of(v) == old(self).mapping_of(v) by {
                        lemma_index_bounds(v);
                        let j0 = pml4_index(v);
                        if j0 == i0 {
                            assert(self.l2(t as int, pdp_index(v)) is Empty);
                        } else {
                            if self.l1(j0) is Table {
                                let u1 = self.l1(j0)->idx as int;
                                assert(old(self).l1(j0) is Table);
                                assert(u1 < old(self).pdpts@.len());
                                assert(self.pdpts@[u1]@ == old(self).pdpts@[u1]@);
                            }
                        }
                    }
                }
                t
            },
        }
    }

    /// Returns the page directory that slot `i1` of pdpt `t1` points at,
    /// creating an empty one when the slot is not present.
    fn ensure_pd(&mut self, t1: usize, i1: usize) -> (t: usize)
        requires
            old(self).tables_wf(),
            t1 < old(self).pdpts@.len(),
            i1 < 512,
        ensures
            final(self).tables_wf(),
            final(self).pml4@ == old(self).pml4@,
            final(self).pdpts@.len() == old(self).pdpts@.len(),
            final(self).l2(t1 as int, i1 as int) is Table && final(self).l2(t1 as int, i1 as int)->idx == t,
            t < final(self).pds@.len(),
            forall|tt: int, i: int|
                0 <= tt < old(self).pdpts@.len() && 0 <= i < 512 && !(tt == t1 && i == i1)
                    ==> final(self).l2(tt, i) == old(self).l2(tt, i),
            final(self).pts@ == old(self).pts@,
            final(self).ranges@ == old(self).ranges@,
            old(self).pds@.len() <= final(self).pds@.len(),
            forall|tt: int|
                0 <= tt < old(self).pds@.len() ==> (#[trigger] final(self).pds@[tt])@ == old(self).pds@[tt]@,
            old(self).l2(t1 as int, i1 as int) is Table ==> *final(self) == *old(self),
            forall|v: u64| final(self).mapping_of(v) == old(self).mapping_of(v),
    {
        match self.pdpts[t1][i1] {
            Slot::Table { idx } => {
                proof {
                    assert(self.l2(t1 as int, i1 as int) is Table);
                }
                idx
            },
            Slot::Empty => {
                let t = self.pds.len();
                let fresh: Vec<Slot> = vec![Slot::Empty; 512];
                self.pds.push(fresh);
                self.pdpts[t1][i1] = Slot::Table { idx: t };
                proof {
                    assert(forall|i: int|
                        0 <= i < 512 ==> #[trigger] self.l3(t as int, i) is Empty);
                    assert(forall|tt: int, i: int|
                        0 <= tt < old(self).pdpts@.len() && 0 <= i < 512 && !(tt == t1 && i
                            == i1) ==> #[trigger] self.l2(tt, i) == old(self).l2(tt, i));
                    let n0 = old(self).pds@.len() as int;
                    Self::lemma_level_congruence(*old(self), *self);
                    assert forall|tt: int|
                        0 <= tt < self.pdpts@.len() implies (#[trigger] self.pdpts@[tt])@.len()
                        == 512 by {
                        if tt != t1 {
                            assert(self.pdpts@[tt] == old(self).pdpts@[tt]);
                        }
                    }
                    assert forall|tt: int|
                        0 <= tt < self.pds@.len() implies (#[trigger] self.pds@[tt])@.len()
                        == 512 by {
                        if tt < n0 {
                            assert(self.pds@[tt] == old(self).pds@[tt]);
                        }
                    }
                    assert forall|tt: int, i: int|
                        0 <= tt < self.pdpts@.len() && 0 <= i < 512 && (#[trigger] self.l2(
                            tt,
                            i,
                        )) is Table implies self.l2(tt, i)->idx < self.pds@.len() by {
                        if !(tt == t1 && i == i1) {
                            assert(self.l2(tt, i) == old(self).l2(tt, i));
                            assert(old(self).l2(tt, i) is Table);
                        }
                    }
                    assert forall|tt: int, i: int|
                        0 <= tt < self.pds@.len() && 0 <= i < 512 && (#[trigger] self.l3(
                            tt,
                            i,
                        )) is Table implies self.l3(tt, i)->idx < self.pts@.len() by {
                        if tt < n0 {
                            assert(self.pds@[tt] == old(self).pds@[tt]);
                            assert(old(self).l3(tt, i) is Table);
                        } else {
                            assert(self.l3(tt, i) is Empty);
                        }
                    }
                    assert forall|ta: int, ia: int, tb: int, ib: int|
                        0 <= ta < self.pdpts@.len() && 0 <= ia < 512 && 0 <= tb
                            < self.pdpts@.len() && 0 <= ib < 512 && (#[trigger] self.l2(
                            ta,
                            ia,
                        )) is Table && (#[trigger] self.l2(tb, ib)) is Table && self.l2(
                            ta,
                            ia,
                        )->idx == self.l2(tb, ib)->idx implies ta == tb && ia == ib by {
                        if !(ta == t1 && ia == i1) && !(tb == t1 && ib == i1) {
                            assert(self.l2(ta, ia) == old(self).l2(ta, ia));
                            assert(self.l2(tb, ib) == old(self).l2(tb, ib));
                            assert(old(self).l2(ta, ia) is Table && old(self).l2(
                                tb,
                                ib,
                            ) is Table);
                        } else if ta == t1 && ia == i1 && !(tb == t1 && ib == i1) {
                            assert(self.l2(tb, ib) == old(self).l2(tb, ib));
                            assert(old(self).l2(tb, ib)->idx < n0);
                        } else if tb == t1 && ib == i1 && !(ta == t1 && ia == i1) {
                            assert(self.l2(ta, ia) == old(self).l2(ta, ia));
                            assert(old(self).l2(ta, ia)->idx < n0);
                        }
                    }
                    assert forall|ta: int, ia: int, tb: int, ib: int|
                        0 <= ta < self.pds@.len() && 0 <= ia < 512 && 0 <= tb < self.pds@.len()
                            && 0 <= ib < 512 && (#[trigger] self.l3(ta, ia)) is Table && (
                        #[trigger] self.l3(tb, ib)) is Table && self.l3(ta, ia)->idx == self.l3(
                            tb,
                            ib,
                        )->idx implies ta == tb && ia == ib by {
                        if ta < n0 && tb < n0 {
                            assert(self.pds@[ta] == old(self).pds@[ta]);
                            assert(self.pds@[tb] == old(self).pds@[tb]);
                            assert(old(self).l3(ta, ia) is Table && old(self).l3(
                                tb,
                                ib,
                            ) is Table);
                        } else if ta >= n0 {
                            assert(self.l3(ta, ia) is Empty);
                        } else {
                            assert(self.l3(tb, ib) is Empty);
                        }
                    }
                    assert(self.tables_wf());
                    assert forall|v: u64|
                        self.mapping_of(v) == old(self).mapping_of(v) by {
                        lemma_index_bounds(v);
                        let j0 = pml4_index(v);
                        if self.l1(j0) is Table {
                            let u1 = self.l1(j0)->idx as int;
                            let j1 = pdp_index(v);
                            if u1 == t1 && j1 == i1 {
                                assert(old(self).l2(u1, j1) is Empty);
                                assert(self.l3(t as int, pd_index(v)) is Empty);
                            } else {
                                assert(self.l2(u1, j1) == old(self).l2(u1, j1));
                                if self.l2(u1, j1) is Table {
                                    let u2 = self.l2(u1, j1)->idx as int;
                                    assert(u2 < old(self).pds@.len());
                                    assert(self.pds@[u2]@ == old(self).pds@[u2]@);
                                }
                            }
                        }
                    }
                }
                t
            },
        }
    }

    /// Returns the leaf page table that slot `i2` of page directory `t2`
    /// points at, creating a zero-filled one when the slot is not present.
    fn ensure_pt(&mut self, t2: usize, i2: usize) -> (t: usize)
        requires
            old(self).tables_wf(),
            t2 < old(self).pds@.len(),
            i2 < 512,
        ensures
            final(self).tables_wf(),
            final(self).pml4@ == old(self).pml4@,
            final(self).pdpts@ == old(self).pdpts@,
            final(self).pds@.len() == old(self).pds@.len(),
            final(self).l3(t2 as int, i2 as int) is Table && final(self).l3(t2 as int, i2 as int)->idx == t,
            t < final(self).pts@.len(),
            forall|tt: int, i: int|
                0 <= tt < old(self).pds@.len() && 0 <= i < 512 && !(tt == t2 && i == i2)
                    ==> final(self).l3(tt, i) == old(self).l3(tt, i),
            final(self).ranges@ == old(self).ranges@,
            old(self).pts@.len() <= final(self).pts@.len(),
            forall|tt: int|
                0 <= tt < old(self).pts@.len() ==> (#[trigger] final(self).pts@[tt])@ == old(self).pts@[tt]@,
            old(self).l3(t2 as int, i2 as int) is Table ==> *final(self) == *old(self),
            old(self).l3(t2 as int, i2 as int) is Empty ==> forall|i: int|
                0 <= i < 512 ==> #[trigger] final(self).leaf(t as int, i) == 0,
            forall|v: u64| final(self).mapping_of(v) == old(self).mapping_of(v),
    {
        match self.pds[t2][i2] {
            Slot::Table { idx } => {
                proof {
                    assert(self.l3(t2 as int, i2 as int) is Table);
                }
                idx
            },
            Slot::Empty => {
                let t = self.pts.len();
                let fresh: Vec<u64> = vec![0u64; 512];
                self.pts.push(fresh);
                self.pds[t2][i2] = Slot::Table { idx: t };
                proof {
                    assert(forall|i: int| 0 <= i < 512 ==> #[trigger] self.leaf(t as int, i) == 0);
                    assert(forall|tt: int, i: int|
                        0 <= tt < old(self).pds@.len() && 0 <= i < 512 && !(tt == t2 && i
                            == i2) ==> #[trigger] self.l3(tt, i) == old(self).l3(tt, i));
                    let n0 = old(self).pts@.len() as int;
                    Self::lemma_level_congruence(*old(self), *self);
                    assert forall|tt: int|
                        0 <= tt < self.pds@.len() implies (#[trigger] self.pds@[tt])@.len()
                        == 512 by {
                        if tt != t2 {
                            assert(self.pds@[tt] == old(self).pds@[tt]);
                        }
                    }
                    assert forall|tt: int|
                        0 <= tt < self.pts@.len() implies (#[trigger] self.pts@[tt])@.len()
                        == 512 by {
                        if tt < n0 {
                            assert(self.pts@[tt] == old(self).pts@[tt]);
                        }
                    }
                    assert forall|tt: int, i: int|
                        0 <= tt < self.pds@.len() && 0 <= i < 512 && (#[trigger] self.l3(
                            tt,
                            i,
                        )) is Table implies self.l3(tt, i)->idx < self.pts@.len() by {
                        if !(tt == t2 && i == i2) {
                            assert(self.l3(tt, i) == old(self).l3(tt, i));
                            assert(old(self).l3(tt, i) is Table);
                        }
                    }
                    assert forall|ta: int, ia: int, tb: int, ib: int|
                        0 <= ta < self.pds@.len() && 0 <= ia < 512 && 0 <= tb < self.pds@.len()
                            && 0 <= ib < 512 && (#[trigger] self.l3(ta, ia)) is Table && (
                        #[trigger] self.l3(tb, ib)) is Table && self.l3(ta, ia)->idx == self.l3(
                            tb,
                            ib,
                        )->idx implies ta == tb && ia == ib by {
                        if !(ta == t2 && ia == i2) && !(tb == t2 && ib == i2) {
                            assert(self.l3(ta, ia) == old(self).l3(ta, ia));
                            assert(self.l3(tb, ib) == old(self).l3(tb, ib));
                            assert(old(self).l3(ta, ia) is Table && old(self).l3(
                                tb,
                                ib,
                            ) is Table);
                        } else if ta == t2 && ia == i2 && !(tb == t2 && ib == i2) {
                            assert(self.l3(tb, ib) == old(self).l3(tb, ib));
                            assert(old(self).l3(tb, ib)->idx < n0);
                        } else if tb == t2 && ib == i2 && !(ta == t2 && ia == i2) {
                            assert(self.l3(ta, ia) == old(self).l3(ta, ia));
                            assert(old(self).l3(ta, ia)->idx < n0);
                        }
                    }
                    assert(self.tables_wf());
                    assert forall|v: u64|
                        self.mapping_of(v) == old(self).mapping_of(v) by {
                        lemma_index_bounds(v);
                        let j0 = pml4_index(v);
                        if self.l1(j0) is Table {
                            let u1 = self.l1(j0)->idx as int;
                            let j1 = pdp_index(v);
                            if self.l2(u1, j1) is Table {
                                let u2 = self.l2(u1, j1)->idx as int;
                                let j2 = pd_index(v);
                                if u2 == t2 && j2 == i2 {
                                    assert(old(self).l3(u2, j2) is Empty);
                                    assert(self.leaf(t as int, pt_index(v)) == 0);
                                } else {
                                    assert(self.l3(u2, j2) == old(self).l3(u2, j2));
                                    if self.l3(u2, j2) is Table {
                                        let u3 = self.l3(u2, j2)->idx as int;
                                        assert(u3 < old(self).pts@.len());
                                        assert(self.pts@[u3]@ == old(self).pts@[u3]@);
                                    }
                                }
                            }
                        }
                    }
                }
                t
            },
        }
    }

    /// Installs the leaf entry `phys_addr | flags` for the page holding
    /// `virtual_addr`, creating the intermediate tables as needed.  Every
    /// other page's translation is untouched.  `flush_prev` asks for the
    /// stale translation-cache entry to be invalidated before the write; the
    /// model keeps no translation cache, so it changes nothing here.
    #[allow(unused_variables)]
    pub fn map_page(
        &mut self,
        virtual_addr: VirtAddr,
        phys_addr: PhysAddr,
        flags: u64,
        flush_prev: bool,
    )
        requires
            old(self).tables_wf(),
        ensures
            final(self).tables_wf(),
            final(self).ranges@ == old(self).ranges@,
            forall|w: u64|
                vpage(w) == vpage(virtual_addr.0) ==> final(self).mapping_of(w) == (phys_addr.0
                    | flags),
            forall|w: u64|
                vpage(w) != vpage(virtual_addr.0) ==> final(self).mapping_of(w) == old(self).mapping_of(w),
    {
        let i0 = virtual_addr.pml4() as usize;
        let i1 = virtual_addr.pdp() as usize;
        let i2 = virtual_addr.pd() as usize;
        let i3 = virtual_addr.pt() as usize;
        let t1 = self.ensure_pdpt(i0);
        let t2 = self.ensure_pd(t1, i1);
        let t3 = self.ensure_pt(t2, i2);
        let ghost m3 = *self;
        let entry = phys_addr.as_u64() | flags;
        self.pts[t3][i3] = entry;
        proof {
            let v = virtual_addr.0;
            // the chain for v survives the three calls and the leaf write
            assert(self.l1(i0 as int) is Table && self.l1(i0 as int)->idx == t1);
            assert(self.l2(t1 as int, i1 as int) is Table && self.l2(t1 as int, i1 as int)->idx
                == t2);
            assert(self.l3(t2 as int, i2 as int) is Table && self.l3(t2 as int, i2 as int)->idx
                == t3);
            Self::lemma_level_congruence(m3, *self);
            assert forall|tt: int|
                0 <= tt < self.pts@.len() implies (#[trigger] self.pts@[tt])@.len() == 512 by {
                if tt != t3 {
                    assert(self.pts@[tt] == m3.pts@[tt]);
                }
            }
            assert(self.tables_wf());
            assert forall|w: u64|
                self.mapping_of(w) == if vpage(w) == vpage(v) {
                    entry
                } else {
                    old(self).mapping_of(w)
                } by {
                lemma_index_bounds(w);
                lemma_index_bounds(v);
                lemma_vpage_indices(w, v);
                if vpage(w) == vpage(v) {
                    assert(pml4_index(w) == i0 && pdp_index(w) == i1 && pd_index(w) == i2
                        && pt_index(w) == i3);
                    assert(self.leaf(t3 as int, i3 as int) == entry);
                } else {
                    assert(m3.mapping_of(w) == old(self).mapping_of(w));
                    let j0 = pml4_index(w);
                    if self.l1(j0) is Table {
                        let u1 = self.l1(j0)->idx as int;
                        let j1 = pdp_index(w);
                        if self.l2(u1, j1) is Table {
                            let u2 = self.l2(u1, j1)->idx as int;
                            let j2 = pd_index(w);
                            if self.l3(u2, j2) is Table {
                                let u3 = self.l3(u2, j2)->idx as int;
                                let j3 = pt_index(w);
                                if u3 == t3 && j3 == i3 {
                                    // a second walk cannot reach the slot just
                                    // written: child pointers are unique
                                    assert(u2 == t2 && j2 == i2);
                                    assert(u1 == t1 && j1 == i1);
                                    assert(j0 == i0);
                                    assert(false);
                                } else {
                                    assert(self.leaf(u3, j3) == m3.leaf(u3, j3));
                                }
                            }
                        }
                    }
                }
            }
        }
    }

    /// Walks the table and returns the raw leaf entry for `virtual_addr`,
    /// without modifying anything; absent levels read as 0.
    pub fn get_mapping(&self, virtual_addr: VirtAddr) -> (r: PageMapping)
        requires
            self.tables_wf(),
        ensures
            r.0 == self.mapping_of(virtual_addr.0),
    {
        let i0 = virtual_addr.pml4() as usize;
        let i1 = virtual_addr.pdp() as usize;
        let i2 = virtual_addr.pd() as usize;
        let i3 = virtual_addr.pt() as usize;
        match self.pml4[i0] {
            Slot::Empty => PageMapping::new(0),
            Slot::Table { idx: t1 } => {
                proof {
                    assert(self.l1(i0 as int) is Table);
                }
                match self.pdpts[t1][i1] {
                    Slot::Empty => PageMapping::new(0),
                    Slot::Table { idx: t2 } => {
                        proof {
                            assert(self.l2(t1 as int, i1 as int) is Table);
                        }
                        match self.pds[t2][i2] {
                            Slot::Empty => PageMapping::new(0),
                            Slot::Table { idx: t3 } => {
                                proof {
                                    assert(self.l3(t2 as int, i2 as int) is Table);
                                }
                                PageMapping::new(self.pts[t3][i3])
                            },
                        }
                    },
                }
            },
        }
    }

    /// Finds the range containing `address`, if any: the one whose
    /// `[base, base + length)` interval holds it.
    pub fn get_range(&self, address: VirtAddr) -> (r: Option<&VirtMemoryRange>)
        requires
            ranges_ok(self.ranges@),
        ensures
            match r {
                Some(rg) => exists|k: int|
                    0 <= k < self.ranges@.len() && self.ranges@[k] == *rg && rg.contains(
                        address.0 as int,
                    ),
                None => forall|k: int|
                    0 <= k < self.ranges@.len() ==> !(#[trigger] self.ranges@[k]).contains(
                        address.0 as int,
                    ),
            },
    {
        let n = self.ranges.len();
        let mut idx: usize = 0;
        while idx < n
            invariant
                idx <= n,
                n == self.ranges@.len(),
                ranges_ok(self.ranges@),
                forall|k: int|
                    0 <= k < idx ==> !(#[trigger] self.ranges@[k]).contains(address.0 as int),
            decreases n - idx,
        {
            let entry = &self.ranges[idx];
            if address.as_u64() >= entry.start() && address.as_u64() < entry.end() {
                proof {
                    assert(self.ranges@[idx as int] == *entry);
                }
                return Some(entry);
            }
            idx = idx + 1;
        }
        None
    }

    /// A free stretch of virtual addresses of at least `length` bytes:
    /// page-aligned bump allocation just above the highest existing range,
    /// never below `MMAP_MIN_ADDR` and never reaching past `MAX_MAP_ADDR`.
    pub fn get_free_range(&self, length: usize) -> (r: Option<VirtAddr>)
        requires
            ranges_ok(self.ranges@),
        ensures
            match r {
                Some(a) => {
                    &&& a.0 == spec_bump_base(self.ranges@)
                    &&& a.0 % 4096 == 0
                    &&& MMAP_MIN_ADDR <= a.0
                    &&& spec_highest_end(self.ranges@) <= a.0
                    &&& a.0 + length <= MAX_MAP_ADDR
                },
                None => spec_bump_base(self.ranges@) + length > MAX_MAP_ADDR,
            },
    {
        let mut m: u64 = MMAP_MIN_ADDR;
        let n = self.ranges.len();
        let mut idx: usize = 0;
        while idx < n
            invariant
                idx <= n,
                n == self.ranges@.len(),
                ranges_ok(self.ranges@),
                MMAP_MIN_ADDR <= m <= MAX_MAP_ADDR,
                m == if spec_highest_end(self.ranges@.subrange(0, idx as int)) > MMAP_MIN_ADDR {
                    spec_highest_end(self.ranges@.subrange(0, idx as int))
                } else {
                    MMAP_MIN_ADDR as int
                },
            decreases n - idx,
        {
            let entry = &self.ranges[idx];
            proof {
                assert(self.ranges@[idx as int] == *entry);
                assert(self.ranges@.subrange(0, idx + 1).drop_last() =~= self.ranges@.subrange(
                    0,
                    idx as int,
                ));
                assert(self.ranges@.subrange(0, idx + 1).last() == self.ranges@[idx as int]);
            }
            let e = entry.end();
            if e > m {
                m = e;
            }
            idx = idx + 1;
        }
        proof {
            assert(self.ranges@.subrange(0, n as int) =~= self.ranges@);
        }
        let base = ((m + 4095) / 4096) * 4096;
        proof {
            let mi = m as int;
            vstd::arithmetic::div_mod::lemma_fundamental_div_mod(mi + 4095, 4096);
            vstd::arithmetic::div_mod::lemma_mod_multiples_basic((mi + 4095) / 4096, 4096);
            assert(base as int == ((mi + 4095) / 4096) * 4096);
            assert(mi <= ((mi + 4095) / 4096) * 4096 < mi + 4096) by (nonlinear_arith)
                requires
                    mi >= 0,
                    mi + 4095 == 4096 * ((mi + 4095) / 4096) + (mi + 4095) % 4096,
                    0 <= (mi + 4095) % 4096 < 4096,
            ;
        }
        if length as u64 > MAX_MAP_ADDR || base > MAX_MAP_ADDR - length as u64 {
            return None;
        }
        Some(VirtAddr::new(base))
    }

    /// Registers a new virtual memory range and marks each of its pages
    /// lazily backed (`PAGE_MMAPED`, no frame yet); real frames arrive one
    /// by one through the page-fault path.  A page-aligned hint is honoured
    /// when it does not collide with an existing range; without a usable
    /// hint a free stretch is found by bump allocation.  `None` is returned,
    /// with nothing changed, when the arguments are rejected: zero length, a
    /// fixed mapping without an address or on a collision, an unaligned or
    /// out-of-bounds hint, or an exhausted address space.
    pub fn mmap(
        &mut self,
        address: Option<VirtAddr>,
        length: u64,
        prot: MapProt,
        flags: MapFlags,
        fd: Option<FileDescription>,
        offset: usize,
    ) -> (r: Option<VirtAddr>)
        requires
            old(self).tables_wf(),
            ranges_ok(old(self).ranges@),
            length <= usize::MAX,
        ensures
            final(self).tables_wf(),
            ranges_ok(final(self).ranges@),
            match r {
                Some(base) => {
                    &&& base.0 % 4096 == 0
                    &&& base.0 + length <= MAX_MAP_ADDR
                    &&& (address matches Some(a) ==> (a.0 % 4096 == 0 && a.0 + length
                        <= MAX_MAP_ADDR && !spec_overlaps(
                        old(self).ranges@,
                        a.0 as int,
                        a.0 + length,
                    ) ==> base == a))
                    &&& (address is None ==> base.0 == spec_bump_base(old(self).ranges@))
                    &&& final(self).ranges@ == old(self).ranges@.push(
                        VirtMemoryRange {
                            base,
                            length: length as usize,
                            prot,
                            flags,
                            offset,
                            fd,
                        },
                    )
                    &&& forall|w: u64|
                        base.0 <= w < base.0 + length ==> final(self).mapping_of(w) == (
                        spec_flags_of_prot(prot.0) | PAGE_MMAPED)
                    &&& forall|w: u64|
                        !page_covers(base.0, spec_div_ceil(length as int, 4096), w)
                            ==> final(self).mapping_of(w) == old(self).mapping_of(w)
                },
                None => {
                    &&& *final(self) == *old(self)
                    &&& {
                        ||| length == 0
                        ||| (address is None && flags.0 & MAP_FIXED != 0)
                        ||| (address matches Some(a) && (a.0 % 4096 != 0 || length
                            > MAX_MAP_ADDR || a.0 > MAX_MAP_ADDR - length || (spec_overlaps(
                            old(self).ranges@,
                            a.0 as int,
                            a.0 + length,
                        ) && (flags.0 & MAP_FIXED != 0 || spec_bump_base(old(self).ranges@)
                            + length > MAX_MAP_ADDR))))
                        ||| (address is None && spec_bump_base(old(self).ranges@) + length
                            > MAX_MAP_ADDR)
                    }
                },
            },
    {
        if length == 0 {
            return None;
        }
        let range_address: VirtAddr;
        match address {
            None => {
                if flags.0 & MAP_FIXED != 0 {
                    return None;
                }
                match self.get_free_range(length as usize) {
                    None => {
                        return None;
                    },
                    Some(a) => {
                        range_address = a;
                        proof {
                            lemma_highest_end_bounds(self.ranges@, a.0 as int);
                        }
                    },
                }
            },
            Some(a) => {
                if a.as_u64() % 4096 != 0 || length > MAX_MAP_ADDR || a.as_u64() > MAX_MAP_ADDR
                    - length {
                    return None;
                }
                if self.overlaps_existing(a.as_u64(), length) {
                    if flags.0 & MAP_FIXED != 0 {
                        return None;
                    }
                    match self.get_free_range(length as usize) {
                        None => {
                            return None;
                        },
                        Some(b) => {
                            range_address = b;
                            proof {
                                lemma_highest_end_bounds(self.ranges@, b.0 as int);
                            }
                        },
                    }
                } else {
                    range_address = a;
                }
            },
        }
        let pages = crate::math::div_ceil(length as usize, 4096);
        let entry_val = page_flags_from_prot(prot) | PAGE_MMAPED;
        let ghost pre = *self;
        let mut k: usize = 0;
        while k < pages
            invariant
                k <= pages,
                pages == spec_div_ceil(length as int, 4096),
                (pages as int) * 4096 < length + 4096,
                range_address.0 % 4096 == 0,
                range_address.0 + length <= MAX_MAP_ADDR,
                length >= 1,
                self.tables_wf(),
                self.ranges@ == pre.ranges@,
                forall|w: u64|
                    page_covers(range_address.0, k as int, w) ==> self.mapping_of(w)
                        == entry_val,
                forall|w: u64|
                    !page_covers(range_address.0, k as int, w) ==> self.mapping_of(w)
                        == pre.mapping_of(w),
            decreases pages - k,
        {
            proof {
                assert((k as int) * 4096 + 4096 <= (pages as int) * 4096) by (nonlinear_arith)
                    requires
                        k < pages,
                ;
            }
            let page_addr = VirtAddr::new(range_address.as_u64() + (k as u64) * 4096);
            self.map_page(page_addr, PhysAddr::new(0), entry_val, true);
            proof {
                let ghost base = range_address.0;
                let e = entry_val;
                assert(0u64 | e == e) by (bit_vector);
                assert(page_addr.0 == ((base + (k as int) * 4096) as u64));
                assert forall|w: u64|
                    page_covers(base, k + 1, w) implies self.mapping_of(w) == entry_val by {
                    let j = choose|j: int|
                        0 <= j < k + 1 && vpage(w) == #[trigger] vpage(
                            ((base + j * 4096) as u64),
                        );
                    if j == k {
                        assert(vpage(w) == vpage(page_addr.0));
                    } else {
                        assert(page_covers(base, k as int, w));
                    }
                }
                assert forall|w: u64|
                    !page_covers(base, k + 1, w) implies self.mapping_of(w) == pre.mapping_of(
                    w,
                ) by {
                    if vpage(w) == vpage(page_addr.0) {
                        assert(vpage(w) == vpage(((base + (k as int) * 4096) as u64)));
                        assert(page_covers(base, k + 1, w));
                    }
                    if page_covers(base, k as int, w) {
                        let j = choose|j: int|
                            0 <= j < k && vpage(w) == #[trigger] vpage(
                                ((base + j * 4096) as u64),
                            );
                        assert(page_covers(base, k + 1, w));
                    }
                }
            }
            k = k + 1;
        }
        let ghost m4 = *self;
        proof {
            let base = range_address.0;
            let pages_i = pages as int;
            assert forall|w: u64|
                base <= w < base + length implies m4.mapping_of(w) == entry_val by {
                lemma_in_range_covered(base, length, pages_i, w);
                assert(self.mapping_of(w) == entry_val);
            }
        }
        let new_entry = VirtMemoryRange::new(
            range_address,
            length as usize,
            prot,
            flags,
            offset,
            fd,
        );
        self.ranges.push(new_entry);
        proof {
            Self::lemma_level_congruence(m4, *self);
            assert(self.tables_wf());
            assert forall|w: u64| self.mapping_of(w) == m4.mapping_of(w) by {
                lemma_index_bounds(w);
            }
            assert forall|w: u64|
                range_address.0 <= w < range_address.0 + length implies self.mapping_of(w)
                == entry_val by {
                assert(m4.mapping_of(w) == entry_val);
                assert(self.mapping_of(w) == m4.mapping_of(w));
            }
            assert forall|a: int, b: int|
                0 <= a < b < self.ranges@.len() implies (#[trigger] self.ranges@[a]).spec_end()
                <= (#[trigger] self.ranges@[b]).spec_start() || self.ranges@[b].spec_end()
                <= self.ranges@[a].spec_start() by {
                if b == self.ranges@.len() - 1 {
                    assert(self.ranges@[a] == pre.ranges@[a]);
                }
            }
        }
        Some(range_address)
    }

    /// True when `[start, start + len)` intersects an existing range.
    fn overlaps_existing(&self, start: u64, len: u64) -> (r: bool)
        requires
            ranges_ok(self.ranges@),
            start + len <= MAX_MAP_ADDR,
        ensures
            r == spec_overlaps(self.ranges@, start as int, start + len),
    {
        let n = self.ranges.len();
        let mut idx: usize = 0;
        while idx < n
            invariant
                idx <= n,
                n == self.ranges@.len(),
                ranges_ok(self.ranges@),
                start + len <= MAX_MAP_ADDR,
                forall|k: int|
                    0 <= k < idx ==> !((#[trigger] self.ranges@[k]).spec_start() < start + len
                        && start < self.ranges@[k].spec_end()),
            decreases n - idx,
        {
            let entry = &self.ranges[idx];
            proof {
                assert(self.ranges@[idx as int] == *entry);
            }
            if entry.start() < start + len && start < entry.end() {
                return true;
            }
            idx = idx + 1;
        }
        false
    }
}

/// A copy of one interior table, slot for slot.
fn copy_slot_table(src: &Vec<Slot>) -> (r: Vec<Slot>)
    ensures
        r@ == src@,
{
    let mut r: Vec<Slot> = Vec::new();
    let n = src.len();
    let mut i: usize = 0;
    while i < n
        invariant
            i <= n,
            n == src@.len(),
            r@.len() == i,
            forall|j: int| 0 <= j < i ==> r@[j] == src@[j],
        decreases n - i,
    {
        r.push(src[i]);
        i = i + 1;
    }
    proof {
        assert(r@ =~= src@);
    }
    r
}

/// A copy of one leaf table, entry for entry.
fn copy_leaf_table(src: &Vec<u64>) -> (r: Vec<u64>)
    ensures
        r@ == src@,
{
    let mut r: Vec<u64> = Vec::new();
    let n = src.len();
    let mut i: usize = 0;
    while i < n
        invariant
            i <= n,
            n == src@.len(),
            r@.len() == i,
            forall|j: int| 0 <= j < i ==> r@[j] == src@[j],
        decreases n - i,
    {
        r.push(src[i]);
        i = i + 1;
    }
    proof {
        assert(r@ =~= src@);
    }
    r
}

/// A copy of a whole interior-table arena; each copied table reads as its
/// source table does.
fn copy_slot_arena(src: &Vec<Vec<Slot>>) -> (r: Vec<Vec<Slot>>)
    ensures
        r@.len() == src@.len(),
        forall|t: int| 0 <= t < src@.len() ==> (#[trigger] r@[t])@ == src@[t]@,
{
    let mut r: Vec<Vec<Slot>> = Vec::new();
    let n = src.len();
    let mut i: usize = 0;
    while i < n
        invariant
            i <= n,
            n == src@.len(),
            r@.len() == i,
            forall|t: int| 0 <= t < i ==> (#[trigger] r@[t])@ == src@[t]@,
        decreases n - i,
    {
        let table = copy_slot_table(&src[i]);
        r.push(table);
        i = i + 1;
    }
    r
}

/// A copy of a whole leaf-table arena.
fn copy_leaf_arena(src: &Vec<Vec<u64>>) -> (r: Vec<Vec<u64>>)
    ensures
        r@.len() == src@.len(),
        forall|t: int| 0 <= t < src@.len() ==> (#[trigger] r@[t])@ == src@[t]@,
{
    let mut r: Vec<Vec<u64>> = Vec::new();
    let n = src.len();
    let mut i: usize = 0;
    while i < n
        invariant
            i <= n,
            n == src@.len(),
            r@.len() == i,
            forall|t: int| 0 <= t < i ==> (#[trigger] r@[t])@ == src@[t]@,
        decreases n - i,
    {
        let table = copy_leaf_table(&src[i]);
        r.push(table);
        i = i + 1;
    }
    r
}

/// Lowest address handed out by bump allocation.
pub const MMAP_MIN_ADDR: u64 = 0x10000;

/// One past the highest virtual address an mmap range may touch: the top of
/// the canonical lower half.
pub const MAX_MAP_ADDR: u64 = 0x8000_0000_0000;

/// The ranges of one address space are sane: each stays under
/// `MAX_MAP_ADDR`, and no two overlap.
pub open spec fn ranges_ok(s: Seq<VirtMemoryRange>) -> bool {
    &&& forall|k: int| 0 <= k < s.len() ==> (#[trigger] s[k]).spec_end() <= MAX_MAP_ADDR
    &&& forall|a: int, b: int|
        0 <= a < b < s.len() ==> (#[trigger] s[a]).spec_end() <= (#[trigger] s[b]).spec_start()
            || s[b].spec_end() <= s[a].spec_start()
}

/// Whether `[s, e)` intersects one of the ranges.
pub open spec fn spec_overlaps(ranges: Seq<VirtMemoryRange>, s: int, e: int) -> bool {
    exists|k: int|
        0 <= k < ranges.len() && (#[trigger] ranges[k]).spec_start() < e && s < ranges[k].spec_end()
}

/// The highest end of any range (0 when there is none).
pub open spec fn spec_highest_end(s: Seq<VirtMemoryRange>) -> int
    decreases s.len(),
{
    if s.len() == 0 {
        0
    } else {
        let rest = spec_highest_end(s.drop_last());
        if s.last().spec_end() > rest {
            s.last().spec_end()
        } else {
            rest
        }
    }
}

/// Where bump allocation starts: the highest end, at least `MMAP_MIN_ADDR`,
/// rounded up to a page boundary.
pub open spec fn spec_bump_base(s: Seq<VirtMemoryRange>) -> int {
    let m = if spec_highest_end(s) > MMAP_MIN_ADDR {
        spec_highest_end(s)
    } else {
        MMAP_MIN_ADDR as int
    };
    spec_div_ceil(m, 4096) * 4096
}

/// Every range's end is at most the highest end.
proof fn lemma_highest_end_bounds(s: Seq<VirtMemoryRange>, a: int)
    requires
        spec_highest_end(s) <= a,
    ensures
        forall|k: int| 0 <= k < s.len() ==> (#[trigger] s[k]).spec_end() <= a,
    decreases s.len(),
{
    if s.len() > 0 {
        lemma_highest_end_bounds(s.drop_last(), a);
        assert forall|k: int| 0 <= k < s.len() implies (#[trigger] s[k]).spec_end() <= a by {
            if k < s.len() - 1 {
                assert(s.drop_last()[k] == s[k]);
            } else {
                assert(s[k] == s.last());
            }
        }
    }
}

/// Whether `w` lies on one of the first `pages` pages starting at `base`.
pub open spec fn page_covers(base: u64, pages: int, w: u64) -> bool {
    exists|j: int| 0 <= j < pages && vpage(w) == #[trigger] vpage(((base + j * 4096) as u64))
}

/// An aligned page's addresses all share its virtual page number.
proof fn lemma_same_vpage_in_block(a: u64, w: u64)
    by (bit_vector)
    requires
        a % 4096 == 0,
        a <= w < a + 4096,
    ensures
        (w >> 12) & 0xf_ffff_ffff == (a >> 12) & 0xf_ffff_ffff,
{
}

/// Page-table walk determinism at the bit level: the entry `map_page`
/// writes for frame `p` with permission bits `flags` reads back with its
/// frame-address bits exactly `p` and its flag bits exactly `flags`, and
/// carries the lazily-backed bit only if `flags` does.  Together with
/// `map_page`'s and `get_mapping`'s contracts, mapping a page and walking
/// to it returns `p` and `flags` unchanged.
pub proof fn lemma_walk_reads_back(p: u64, flags: u64)
    requires
        p % 4096 == 0,
        p < 0x0010_0000_0000_0000,
        flags & ADDR_MASK == 0,
    ensures
        (p | flags) & ADDR_MASK == p,
        (p | flags) & !ADDR_MASK == flags,
        flags & PAGE_MMAPED == 0 ==> (p | flags) & PAGE_MMAPED == 0,
{
    assert((p % 4096 == 0 && p < 0x0010_0000_0000_0000 && flags & 0x000f_ffff_ffff_f000u64
        == 0) ==> ((p | flags) & 0x000f_ffff_ffff_f000u64 == p && (p | flags)
        & !0x000f_ffff_ffff_f000u64 == flags && (flags & 0x200 == 0 ==> (p | flags) & 0x200
        == 0))) by (bit_vector);
}

/// Every address of `[base, base + length)` lies on one of the range's
/// `ceil(length / 4096)` pages.
proof fn lemma_in_range_covered(base: u64, length: u64, pages: int, w: u64)
    requires
        base % 4096 == 0,
        base + length <= MAX_MAP_ADDR,
        length >= 1,
        pages == spec_div_ceil(length as int, 4096),
        base <= w < base + length,
    ensures
        page_covers(base, pages, w),
{
    let d = (w - base) / 4096;
    vstd::arithmetic::div_mod::lemma_fundamental_div_mod(w - base, 4096);
    assert(0 <= d && d * 4096 <= w - base < d * 4096 + 4096) by (nonlinear_arith)
        requires
            base <= w,
            d == (w - base) / 4096,
            w - base == 4096 * d + (w - base) % 4096,
            0 <= (w - base) % 4096 < 4096,
    ;
    vstd::arithmetic::div_mod::lemma_fundamental_div_mod(length as int + 4095, 4096);
    assert(d < pages) by (nonlinear_arith)
        requires
            pages == (length + 4095) / 4096,
            length + 4095 == 4096 * ((length + 4095) / 4096) + (length + 4095) % 4096,
            0 <= (length + 4095) % 4096 < 4096,
            d * 4096 <= w - base,
            w < base + length,
            0 <= d,
    ;
    let a = (base + d * 4096) as u64;
    assert(a % 4096 == 0 && a <= w < a + 4096) by (nonlinear_arith)
        requires
            base % 4096 == 0,
            a == base + d * 4096,
            base + length <= 0x8000_0000_0000,
            d * 4096 <= w - base < d * 4096 + 4096,
            0 <= d,
            base <= w < base + length,
    ;
    lemma_same_vpage_in_block(a, w);
    assert(vpage(w) == vpage(((base + d * 4096) as u64)));
}

} // verus!
