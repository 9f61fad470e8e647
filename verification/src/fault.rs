//! Page-fault resolution: demand paging over the VMM's lazily-backed
//! ranges.
//!
//! The exception trampoline, the read of the fault-address register and the
//! final halt on a fatal fault belong to the interrupt layer; what is here
//! is every decision in between.  A fault on an anonymous range is resolved
//! on the spot with a fresh zeroed frame.  A fault on a private file-backed
//! range allocates the frame and hands back a [`FileReadRequest`] naming the
//! file, count and offset to read; the caller performs the read (it may
//! block) and finishes through [`complete_file_read`].  Everything else is
//! reported as fatal for the caller to act on.

use vstd::prelude::*;

use crate::pmm::{alloc_transition, valid_run, PhysAddr, PhysMem, Pmm, PAGE_SIZE};
use crate::vfs::FileDescription;
use crate::vmm::{
    page_flags_from_prot, ranges_ok, spec_flags_of_prot, vpage, MapProt, VirtAddr,
    VirtMemoryRange, VirtualMemManager, MAP_ANONYMOUS, MAP_PRIVATE, PAGE_MMAPED, PAGE_PRESENT,
};

verus! {

/// A pending read of one page's worth of file contents into a fresh frame,
/// produced when a fault lands on a private file-backed range.
pub struct FileReadRequest {
    /// The filesystem holding the backing file (an index into the mount
    /// table).
    pub fs: usize,
    /// The filesystem's index for the open file.
    pub file_index: usize,
    /// The freshly allocated frame the contents belong in.
    pub frame: PhysAddr,
    /// How many bytes to read: a whole page, or the tail of the range.
    pub count: u64,
    /// Byte offset into the file.
    pub offset: u64,
    /// The faulting address, so completion maps the right page.
    pub addr: u64,
    /// The range's protection, applied when the page is mapped.
    pub prot: MapProt,
}

/// What became of one page fault.
pub enum PageFaultOutcome {
    /// An anonymous page got its zeroed frame and is resident.
    Resolved { frame: PhysAddr },
    /// A private file-backed page got its frame; the caller must read the
    /// named bytes and call [`complete_file_read`].
    NeedsRead(FileReadRequest),
    /// No free frame was left for the new page.
    OutOfMemory,
    /// The page was marked lazily backed but no range owns it: a kernel
    /// bug, fatal.
    MissingRange,
    /// A private file-backed range without an open file: a kernel bug,
    /// fatal.
    MissingFile,
    /// The owning range is neither anonymous nor private (a shared
    /// file-backed mapping): not implemented, fatal.
    Unsupported,
    /// The mapping is not lazily backed: a genuine fault the caller must
    /// report before halting.
    NotLazy,
}

/// File offsets small enough that page arithmetic on them cannot wrap.
pub open spec fn offsets_ok(s: Seq<VirtMemoryRange>) -> bool {
    forall|k: int| 0 <= k < s.len() ==> (#[trigger] s[k]).offset <= u64::MAX - 0x8000_0000_0000
}

/// Classifies and, where possible, resolves a page fault at `cr2`.
/// `error_code` is the hardware's fault description; the handler's
/// decisions rest on the VMM's own records, the error code is for the
/// caller's diagnostics.
#[allow(unused_variables)]
pub fn page_fault(
    vmm: &mut VirtualMemManager,
    pmm: &mut Pmm,
    mem: &mut PhysMem,
    cr2: u64,
    error_code: u64,
) -> (r: PageFaultOutcome)
    requires
        old(vmm).tables_wf(),
        ranges_ok(old(vmm).ranges@),
        offsets_ok(old(vmm).ranges@),
        old(pmm).wf(),
        old(mem).len() >= old(pmm).frames() * 4096,
    ensures
        final(vmm).tables_wf(),
        final(vmm).ranges@ == old(vmm).ranges@,
        final(pmm).wf(),
        final(pmm).frames() == old(pmm).frames(),
        final(mem).len() == old(mem).len(),
        match r {
            PageFaultOutcome::Resolved { frame } => {
                &&& old(vmm).mapping_of(cr2) & PAGE_MMAPED != 0
                &&& frame.0 % 4096 == 0
                &&& frame.0 + 4096 <= old(mem).len()
                &&& alloc_transition(
                    old(pmm).bitmap.bits(),
                    final(pmm).bitmap.bits(),
                    frame.0 as int / 4096,
                    1,
                )
                &&& forall|i: int|
                    frame.0 <= i < frame.0 + 4096 ==> final(mem).byte(i) == 0
                &&& forall|i: int|
                    0 <= i < old(mem).len() && !(frame.0 <= i < frame.0 + 4096)
                        ==> final(mem).byte(i) == old(mem).byte(i)
                &&& exists|k: int|
                    0 <= k < old(vmm).ranges@.len() && (#[trigger] old(vmm).ranges@[k]).contains(
                        cr2 as int,
                    ) && old(vmm).ranges@[k].flags.0 & MAP_ANONYMOUS != 0
                        && final(vmm).mapping_of(cr2) == (frame.0 | (spec_flags_of_prot(
                        old(vmm).ranges@[k].prot.0,
                    ) | PAGE_PRESENT))
                &&& forall|w: u64|
                    vpage(w) != vpage(cr2) ==> final(vmm).mapping_of(w) == old(
                        vmm,
                    ).mapping_of(w)
            },
            PageFaultOutcome::NeedsRead(req) => {
                &&& old(vmm).mapping_of(cr2) & PAGE_MMAPED != 0
                &&& *final(vmm) == *old(vmm)
                &&& req.addr == cr2
                &&& req.frame.0 % 4096 == 0
                &&& req.frame.0 + 4096 <= old(mem).len()
                &&& alloc_transition(
                    old(pmm).bitmap.bits(),
                    final(pmm).bitmap.bits(),
                    req.frame.0 as int / 4096,
                    1,
                )
                &&& forall|i: int|
                    req.frame.0 <= i < req.frame.0 + 4096 ==> final(mem).byte(i) == 0
                &&& forall|i: int|
                    0 <= i < old(mem).len() && !(req.frame.0 <= i < req.frame.0 + 4096)
                        ==> final(mem).byte(i) == old(mem).byte(i)
                &&& exists|k: int|
                    {
                        let rg = #[trigger] old(vmm).ranges@[k];
                        let page_num = cr2 as int / 4096 - rg.spec_start() / 4096;
                        &&& 0 <= k < old(vmm).ranges@.len()
                        &&& rg.contains(cr2 as int)
                        &&& rg.flags.0 & MAP_ANONYMOUS == 0
                        &&& rg.flags.0 & MAP_PRIVATE != 0
                        &&& rg.fd matches Some(fd) && req.fs == fd.fs && req.file_index
                            == fd.file_index
                        &&& req.prot == rg.prot
                        &&& req.offset == page_num * 4096 + rg.offset
                        &&& req.count == if (page_num + 1) * 4096 <= rg.length {
                            4096int
                        } else {
                            (rg.length as int) % 4096
                        }
                    }
            },
            PageFaultOutcome::OutOfMemory => {
                &&& old(vmm).mapping_of(cr2) & PAGE_MMAPED != 0
                &&& *final(vmm) == *old(vmm)
                &&& *final(pmm) == *old(pmm)
                &&& *final(mem) == *old(mem)
                &&& forall|b: int| !valid_run(old(pmm).bitmap.bits(), b, 1)
            },
            PageFaultOutcome::MissingRange => {
                &&& old(vmm).mapping_of(cr2) & PAGE_MMAPED != 0
                &&& *final(vmm) == *old(vmm)
                &&& *final(pmm) == *old(pmm)
                &&& *final(mem) == *old(mem)
                &&& forall|k: int|
                    0 <= k < old(vmm).ranges@.len() ==> !(#[trigger] old(
                        vmm,
                    ).ranges@[k]).contains(cr2 as int)
            },
            PageFaultOutcome::MissingFile => {
                &&& old(vmm).mapping_of(cr2) & PAGE_MMAPED != 0
                &&& *final(vmm) == *old(vmm)
                &&& *final(pmm) == *old(pmm)
                &&& *final(mem) == *old(mem)
                &&& exists|k: int|
                    0 <= k < old(vmm).ranges@.len() && (#[trigger] old(vmm).ranges@[k]).contains(
                        cr2 as int,
                    ) && old(vmm).ranges@[k].flags.0 & MAP_ANONYMOUS == 0 && old(
                        vmm,
                    ).ranges@[k].flags.0 & MAP_PRIVATE != 0 && old(vmm).ranges@[k].fd is None
            },
            PageFaultOutcome::Unsupported => {
                &&& old(vmm).mapping_of(cr2) & PAGE_MMAPED != 0
                &&& *final(vmm) == *old(vmm)
                &&& *final(pmm) == *old(pmm)
                &&& *final(mem) == *old(mem)
                &&& exists|k: int|
                    0 <= k < old(vmm).ranges@.len() && (#[trigger] old(vmm).ranges@[k]).contains(
                        cr2 as int,
                    ) && old(vmm).ranges@[k].flags.0 & MAP_ANONYMOUS == 0 && old(
                        vmm,
                    ).ranges@[k].flags.0 & MAP_PRIVATE == 0
            },
            PageFaultOutcome::NotLazy => {
                &&& old(vmm).mapping_of(cr2) & PAGE_MMAPED == 0
                &&& *final(vmm) == *old(vmm)
                &&& *final(pmm) == *old(pmm)
                &&& *final(mem) == *old(mem)
            },
        },
{
    let virt_cr2 = VirtAddr::new(cr2);
    let mapping = vmm.get_mapping(virt_cr2);

    if !mapping.is_mmaped() {
        return PageFaultOutcome::NotLazy;
    }
    // demand paging; the interrupt layer re-enables interrupts here, since
    // resolving the fault may wait on the disk
    let (rg_start, rg_length, rg_prot, rg_flags, rg_offset, rg_fd) = match vmm.get_range(
        virt_cr2,
    ) {
        None => {
            return PageFaultOutcome::MissingRange;
        },
        Some(range) => (
            range.start(),
            range.length,
            range.prot,
            range.flags,
            range.offset,
            range.fd,
        ),
    };
    let ghost k = choose|k: int|
        0 <= k < vmm.ranges@.len() && vmm.ranges@[k] == VirtMemoryRange {
            base: VirtAddr(rg_start),
            length: rg_length,
            prot: rg_prot,
            flags: rg_flags,
            offset: rg_offset,
            fd: rg_fd,
        } && vmm.ranges@[k].contains(cr2 as int);

    if rg_flags.0 & MAP_ANONYMOUS != 0 {
        let page = match pmm.calloc(1, mem) {
            None => {
                return PageFaultOutcome::OutOfMemory;
            },
            Some(page) => page,
        };
        vmm.map_page(
            virt_cr2,
            page,
            page_flags_from_prot(rg_prot) | PAGE_PRESENT,
            true,
        );
        proof {
            assert(old(vmm).ranges@[k].contains(cr2 as int));
        }
        return PageFaultOutcome::Resolved { frame: page };
    }

    if rg_flags.0 & MAP_PRIVATE != 0 {
        let fd = match rg_fd {
            None => {
                return PageFaultOutcome::MissingFile;
            },
            Some(fd) => fd,
        };
        let page = match pmm.calloc(1, mem) {
            None => {
                return PageFaultOutcome::OutOfMemory;
            },
            Some(page) => page,
        };
        proof {
            vstd::arithmetic::div_mod::lemma_div_is_ordered(
                rg_start as int,
                cr2 as int,
                4096,
            );
        }
        let this_page_number = cr2 / PAGE_SIZE - rg_start / PAGE_SIZE;
        let offset = this_page_number * PAGE_SIZE + rg_offset as u64;
        let cnt = if (this_page_number + 1) * PAGE_SIZE <= rg_length as u64 {
            PAGE_SIZE
        } else {
            rg_length as u64 % PAGE_SIZE
        };
        return PageFaultOutcome::NeedsRead(
            FileReadRequest {
                fs: fd.fs,
                file_index: fd.file_index,
                frame: page,
                count: cnt,
                offset,
                addr: cr2,
                prot: rg_prot,
            },
        );
    }

    PageFaultOutcome::Unsupported
}

/// Finishes a private file-backed fault: copies the bytes the filesystem
/// returned into the waiting frame and maps the page, truly resident, with
/// the range's protection plus the present bit.
pub fn complete_file_read(
    vmm: &mut VirtualMemManager,
    mem: &mut PhysMem,
    req: &FileReadRequest,
    data: &Vec<u8>,
)
    requires
        old(vmm).tables_wf(),
        req.frame.0 + 4096 <= old(mem).len(),
        data@.len() <= 4096,
    ensures
        final(vmm).tables_wf(),
        final(vmm).ranges@ == old(vmm).ranges@,
        final(mem).len() == old(mem).len(),
        forall|i: int|
            0 <= i < data@.len() ==> final(mem).byte(req.frame.0 + i) == data@[i],
        forall|i: int|
            0 <= i < old(mem).len() && !(req.frame.0 <= i < req.frame.0 + data@.len())
                ==> final(mem).byte(i) == old(mem).byte(i),
        forall|w: u64|
            vpage(w) == vpage(req.addr) ==> final(vmm).mapping_of(w) == (req.frame.0 | (
            spec_flags_of_prot(req.prot.0) | PAGE_PRESENT)),
        forall|w: u64|
            vpage(w) != vpage(req.addr) ==> final(vmm).mapping_of(w) == old(vmm).mapping_of(w),
{
    // the filesystem wrote through the frame's higher-half alias; in this
    // model the window is the memory itself
    let total = mem.size();
    proof {
        assert(req.frame.0 + 4096 <= total);
    }
    mem.write_from(req.frame.as_u64() as usize, data);
    // the frame is now truly resident: the range's protection plus present,
    // so the resumed access does not fault again
    vmm.map_page(
        VirtAddr::new(req.addr),
        req.frame,
        page_flags_from_prot(req.prot) | PAGE_PRESENT,
        true,
    );
}

} // verus!
