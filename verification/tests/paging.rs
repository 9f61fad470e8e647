//! Page-table walks, mmap ranges and the page-fault path on concrete
//! values.

use griffin::bitmap::Bitmap;
use griffin::fault::{complete_file_read, page_fault, PageFaultOutcome};
use griffin::pmm::{PhysAddr, PhysMem, Pmm};
use griffin::vfs::{FileDescription, Flags};
use griffin::vmm::{
    page_flags_from_prot, MapFlags, MapProt, VirtAddr, VirtualMemManager, MAP_ANONYMOUS,
    MAP_FIXED, MAP_PRIVATE, MAP_SHARED, PAGE_MMAPED, PAGE_NX, PAGE_PRESENT, PAGE_USERMODE,
    PAGE_WRITABLE, PROT_EXEC, PROT_NONE, PROT_READ, PROT_WRITE,
};

fn fresh_pmm(frames: usize) -> (Pmm, PhysMem) {
    let mut bm = Bitmap::new(frames / 8);
    for i in 0..frames {
        bm.set(i);
    }
    (Pmm::new(bm), PhysMem::new(frames * 4096))
}

#[test]
fn virt_addr_splits_into_walk_indices() {
    let v = VirtAddr::new((1u64 << 39) | (2 << 30) | (3 << 21) | (4 << 12) | 5);
    assert_eq!(v.pml4(), 1);
    assert_eq!(v.pdp(), 2);
    assert_eq!(v.pd(), 3);
    assert_eq!(v.pt(), 4);
}

#[test]
fn page_mapping_reads_its_bits() {
    let m = griffin::vmm::PageMapping::new(0x8000_0000_0000_5213);
    assert!(m.is_present());
    assert!(m.is_writable());
    assert!(!m.is_usermode());
    assert!(m.is_uncacheable());
    assert!(m.is_mmaped());
    assert!(m.is_non_exec());
    assert_eq!(m.phys_addr().as_u64(), 0x5000);
}

#[test]
fn map_page_then_get_mapping_reads_back_address_and_flags() {
    let mut vmm = VirtualMemManager::new(false);
    let v = VirtAddr::new(0x4020_3000);
    vmm.map_page(v, PhysAddr::new(0x7000), PAGE_PRESENT | PAGE_WRITABLE, true);
    let m = vmm.get_mapping(v);
    assert_eq!(m.as_u64(), 0x7000 | PAGE_PRESENT | PAGE_WRITABLE);
    assert_eq!(m.phys_addr().as_u64(), 0x7000);
    assert!(m.is_present() && m.is_writable() && !m.is_mmaped());
    // a neighbouring page stays unmapped
    assert_eq!(vmm.get_mapping(VirtAddr::new(0x4020_4000)).as_u64(), 0);
}

#[test]
fn map_page_replaces_an_existing_entry() {
    let mut vmm = VirtualMemManager::new(true);
    let v = VirtAddr::new(0x10_0000);
    vmm.map_page(v, PhysAddr::new(0x3000), PAGE_PRESENT, true);
    vmm.map_page(v, PhysAddr::new(0x8000), PAGE_PRESENT | PAGE_USERMODE, true);
    let m = vmm.get_mapping(v);
    assert_eq!(m.phys_addr().as_u64(), 0x8000);
    assert!(m.is_usermode());
}

#[test]
fn prot_translates_to_leaf_permission_bits() {
    assert_eq!(page_flags_from_prot(MapProt(PROT_NONE)), PAGE_NX);
    assert_eq!(
        page_flags_from_prot(MapProt(PROT_READ | PROT_WRITE)),
        PAGE_NX | PAGE_WRITABLE | PAGE_USERMODE
    );
    assert_eq!(
        page_flags_from_prot(MapProt(PROT_READ | PROT_EXEC)),
        PAGE_USERMODE
    );
}

#[test]
fn mmap_registers_a_lazy_range() {
    let mut vmm = VirtualMemManager::new(true);
    let v = 0x4000_0000u64;
    let got = vmm
        .mmap(
            Some(VirtAddr::new(v)),
            8192,
            MapProt(PROT_READ | PROT_WRITE),
            MapFlags(MAP_ANONYMOUS | MAP_PRIVATE),
            None,
            0,
        )
        .unwrap();
    assert_eq!(got.as_u64(), v);
    let m = vmm.get_mapping(VirtAddr::new(v));
    assert!(m.is_mmaped());
    assert!(!m.is_present());
    assert_eq!(m.phys_addr().as_u64(), 0);
    // both pages of the range are marked, the one after is not
    assert!(vmm.get_mapping(VirtAddr::new(v + 4096)).is_mmaped());
    assert!(!vmm.get_mapping(VirtAddr::new(v + 8192)).is_mmaped());
    // range lookup honours the half-open interval
    assert_eq!(vmm.get_range(VirtAddr::new(v)).unwrap().start(), v);
    assert_eq!(vmm.get_range(VirtAddr::new(v + 8191)).unwrap().start(), v);
    assert!(vmm.get_range(VirtAddr::new(v + 8192)).is_none());
    assert!(vmm.get_range(VirtAddr::new(v - 1)).is_none());
}

#[test]
fn mmap_moves_a_colliding_hint_and_refuses_fixed_collisions() {
    let mut vmm = VirtualMemManager::new(true);
    let v = 0x4000_0000u64;
    let first = vmm
        .mmap(
            Some(VirtAddr::new(v)),
            4096,
            MapProt(PROT_READ),
            MapFlags(MAP_ANONYMOUS),
            None,
            0,
        )
        .unwrap();
    assert_eq!(first.as_u64(), v);
    let second = vmm
        .mmap(
            Some(VirtAddr::new(v)),
            4096,
            MapProt(PROT_READ),
            MapFlags(MAP_ANONYMOUS),
            None,
            0,
        )
        .unwrap();
    assert!(second.as_u64() >= v + 4096);
    let refused = vmm.mmap(
        Some(VirtAddr::new(v)),
        4096,
        MapProt(PROT_READ),
        MapFlags(MAP_ANONYMOUS | MAP_FIXED),
        None,
        0,
    );
    assert!(refused.is_none());
    // unaligned hints and zero lengths are rejected outright
    assert!(vmm
        .mmap(
            Some(VirtAddr::new(0x5000_0100)),
            4096,
            MapProt(PROT_READ),
            MapFlags(MAP_ANONYMOUS),
            None,
            0,
        )
        .is_none());
    assert!(vmm
        .mmap(
            Some(VirtAddr::new(0x5000_0000)),
            0,
            MapProt(PROT_READ),
            MapFlags(MAP_ANONYMOUS),
            None,
            0,
        )
        .is_none());
}

#[test]
fn mmap_without_a_hint_finds_free_space() {
    let mut vmm = VirtualMemManager::new(true);
    let a = vmm
        .mmap(None, 4096, MapProt(PROT_READ), MapFlags(MAP_ANONYMOUS), None, 0)
        .unwrap()
        .as_u64();
    let b = vmm
        .mmap(None, 4096, MapProt(PROT_READ), MapFlags(MAP_ANONYMOUS), None, 0)
        .unwrap()
        .as_u64();
    assert_eq!(a % 4096, 0);
    assert_eq!(b % 4096, 0);
    assert!(b >= a + 4096 || a >= b + 4096);
}

#[test]
fn user_space_keeps_the_kernel_half() {
    let mut kernel = VirtualMemManager::new(false);
    // a page in the kernel half: its top-level slot is 256
    let kv = VirtAddr::new(0xffff_8000_0000_3000);
    kernel.map_page(kv, PhysAddr::new(0x9000), PAGE_PRESENT | PAGE_WRITABLE, true);
    let user = VirtualMemManager::new_user(&kernel);
    assert_eq!(
        user.get_mapping(kv).as_u64(),
        0x9000 | PAGE_PRESENT | PAGE_WRITABLE
    );
    // the user half starts unmapped
    assert_eq!(user.get_mapping(VirtAddr::new(0x4000_0000)).as_u64(), 0);
    assert!(user.get_range(VirtAddr::new(0x4000_0000)).is_none());
}

#[test]
fn anonymous_fault_maps_a_zeroed_frame() {
    let (mut pmm, mut mem) = fresh_pmm(16);
    let mut vmm = VirtualMemManager::new(true);
    let v = 0x4000_0000u64;
    vmm.mmap(
        Some(VirtAddr::new(v)),
        4096,
        MapProt(PROT_READ | PROT_WRITE),
        MapFlags(MAP_ANONYMOUS),
        None,
        0,
    )
    .unwrap();
    let outcome = page_fault(&mut vmm, &mut pmm, &mut mem, v + 100, 0x6);
    let frame = match outcome {
        PageFaultOutcome::Resolved { frame } => frame,
        _ => panic!("anonymous fault should resolve"),
    };
    // the page is resident with the range's protection plus present, and
    // the lazily-backed mark is gone
    let m = vmm.get_mapping(VirtAddr::new(v));
    assert_eq!(
        m.as_u64(),
        frame.as_u64() | PAGE_NX | PAGE_WRITABLE | PAGE_USERMODE | PAGE_PRESENT
    );
    assert!(!m.is_mmaped());
    for i in 0..4096usize {
        assert_eq!(mem.read_u8(frame.as_u64() as usize + i), 0);
    }
    // a second access to the same page sees the same resident mapping and
    // needs no further fault
    let again = vmm.get_mapping(VirtAddr::new(v + 200));
    assert_eq!(again.as_u64(), m.as_u64());
}

#[test]
fn private_file_fault_reads_one_page_at_the_right_offset() {
    let (mut pmm, mut mem) = fresh_pmm(16);
    let mut vmm = VirtualMemManager::new(true);
    let v = 0x5000_0000u64;
    let fd = FileDescription::new(7, Flags(0), 3);
    vmm.mmap(
        Some(VirtAddr::new(v)),
        8192,
        MapProt(PROT_READ),
        MapFlags(MAP_PRIVATE),
        Some(fd),
        1024,
    )
    .unwrap();
    // fault on the second page
    let outcome = page_fault(&mut vmm, &mut pmm, &mut mem, v + 4096 + 10, 0x4);
    let req = match outcome {
        PageFaultOutcome::NeedsRead(req) => req,
        _ => panic!("private file fault should ask for a read"),
    };
    assert_eq!(req.fs, 3);
    assert_eq!(req.file_index, 7);
    assert_eq!(req.count, 4096);
    assert_eq!(req.offset, 1024 + 4096);
    assert_eq!(req.addr, v + 4096 + 10);
    // the mock filesystem answers; the frame fills and the page maps
    let data = vec![0xabu8; 4096];
    complete_file_read(&mut vmm, &mut mem, &req, &data);
    for i in 0..4096usize {
        assert_eq!(mem.read_u8(req.frame.as_u64() as usize + i), 0xab);
    }
    let m = vmm.get_mapping(VirtAddr::new(v + 4096));
    assert_eq!(m.phys_addr().as_u64(), req.frame.as_u64());
    // the page is now truly resident and will not fault again
    assert!(m.is_present());
    assert!(!m.is_mmaped());
}

#[test]
fn fault_outside_any_mapping_is_genuine() {
    let (mut pmm, mut mem) = fresh_pmm(8);
    let mut vmm = VirtualMemManager::new(false);
    match page_fault(&mut vmm, &mut pmm, &mut mem, 0xdead_b000, 0x2) {
        PageFaultOutcome::NotLazy => {},
        _ => panic!("an unmapped address is a genuine fault"),
    }
}

#[test]
fn lazy_page_without_a_range_is_a_kernel_bug() {
    let (mut pmm, mut mem) = fresh_pmm(8);
    let mut vmm = VirtualMemManager::new(false);
    vmm.map_page(VirtAddr::new(0x6000_0000), PhysAddr::new(0), PAGE_MMAPED, true);
    match page_fault(&mut vmm, &mut pmm, &mut mem, 0x6000_0000, 0x4) {
        PageFaultOutcome::MissingRange => {},
        _ => panic!("a lazy page with no owning range must be reported"),
    }
}

#[test]
fn shared_mappings_are_not_handled() {
    let (mut pmm, mut mem) = fresh_pmm(8);
    let mut vmm = VirtualMemManager::new(true);
    let v = 0x7000_0000u64;
    vmm.mmap(
        Some(VirtAddr::new(v)),
        4096,
        MapProt(PROT_READ),
        MapFlags(MAP_SHARED),
        None,
        0,
    )
    .unwrap();
    match page_fault(&mut vmm, &mut pmm, &mut mem, v, 0x4) {
        PageFaultOutcome::Unsupported => {},
        _ => panic!("shared file mappings are an unimplemented case"),
    }
}

#[test]
fn private_mapping_without_a_file_is_a_kernel_bug() {
    let (mut pmm, mut mem) = fresh_pmm(8);
    let mut vmm = VirtualMemManager::new(true);
    let v = 0x7100_0000u64;
    vmm.mmap(
        Some(VirtAddr::new(v)),
        4096,
        MapProt(PROT_READ),
        MapFlags(MAP_PRIVATE),
        None,
        0,
    )
    .unwrap();
    match page_fault(&mut vmm, &mut pmm, &mut mem, v, 0x4) {
        PageFaultOutcome::MissingFile => {},
        _ => panic!("a private mapping must be backed by a file"),
    }
}

#[test]
fn fault_with_no_free_frames_reports_exhaustion() {
    let bm = Bitmap::new(1);  // eight frames, none free
    let mut pmm = Pmm::new(bm);
    let mut mem = PhysMem::new(8 * 4096);
    let mut vmm = VirtualMemManager::new(true);
    let v = 0x4000_0000u64;
    vmm.mmap(
        Some(VirtAddr::new(v)),
        4096,
        MapProt(PROT_READ),
        MapFlags(MAP_ANONYMOUS),
        None,
        0,
    )
    .unwrap();
    match page_fault(&mut vmm, &mut pmm, &mut mem, v, 0x4) {
        PageFaultOutcome::OutOfMemory => {},
        _ => panic!("no free frame means the fault cannot be resolved"),
    }
}
