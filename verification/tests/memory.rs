//! Bitmap, frame-allocator and arithmetic behaviour on concrete values.

use griffin::bitmap::Bitmap;
use griffin::math::{div_ceil, round_up};
use griffin::pmm::{init, MemoryRegion, PhysAddr, PhysMem, Pmm, PmmBox, RegionKind, PHYS_BASE};

/// A frame allocator over `frames` frames, all free, with memory to match.
fn fresh_pmm(frames: usize) -> (Pmm, PhysMem) {
    let mut bm = Bitmap::new(frames / 8);
    for i in 0..frames {
        bm.set(i);
    }
    let pmm = Pmm::new(bm);
    let mem = PhysMem::new(frames * 4096);
    (pmm, mem)
}

#[test]
fn bitmap_set_then_read_round_trip() {
    let mut bm = Bitmap::new(2);
    assert_eq!(bm.size(), 2);
    bm.set(3);
    assert!(bm.is_set(3));
    for j in 0..16 {
        if j != 3 {
            assert!(!bm.is_set(j));
        }
    }
    bm.clear(3);
    assert!(!bm.is_set(3));
}

#[test]
fn bitmap_toggle_flips_only_its_bit() {
    let mut bm = Bitmap::new(1);
    bm.set(1);
    bm.toggle(1);
    assert!(!bm.is_set(1));
    bm.toggle(6);
    assert!(bm.is_set(6));
    assert!(!bm.is_set(5));
    assert!(!bm.is_set(7));
}

#[test]
fn bitmap_wraps_existing_bytes() {
    let bm = Bitmap::from_bytes(vec![0b0000_0101u8]);
    assert!(bm.is_set(0));
    assert!(!bm.is_set(1));
    assert!(bm.is_set(2));
    assert!(!bm.is_set(7));
}

#[test]
fn first_fit_returns_lowest_run() {
    let (mut pmm, _mem) = fresh_pmm(16);
    // occupy frames 0 and 2, leaving a hole of one frame at 1
    pmm.bitmap.clear(0);
    pmm.bitmap.clear(2);
    let one = pmm.alloc_frames(1).unwrap();
    assert_eq!(one.as_u64(), 1 * 4096);
    // the next two-frame run starts at frame 3
    let two = pmm.alloc_frames(2).unwrap();
    assert_eq!(two.as_u64(), 3 * 4096);
}

#[test]
fn alloc_runs_are_disjoint() {
    let (mut pmm, _mem) = fresh_pmm(16);
    let a = pmm.alloc_frames(3).unwrap().as_u64();
    let b = pmm.alloc_frames(2).unwrap().as_u64();
    let c = pmm.alloc_frames(1).unwrap().as_u64();
    assert!(a + 3 * 4096 <= b || b + 2 * 4096 <= a);
    assert!(a + 3 * 4096 <= c || c + 1 * 4096 <= a);
    assert!(b + 2 * 4096 <= c || c + 1 * 4096 <= b);
}

#[test]
fn alloc_exhaustion_returns_none() {
    let (mut pmm, _mem) = fresh_pmm(8);
    assert!(pmm.alloc_frames(9).is_none());
    assert!(pmm.alloc_frames(8).is_some());
    assert!(pmm.alloc_frames(1).is_none());
}

#[test]
fn alloc_free_round_trip_restores_the_bitmap() {
    let (mut pmm, _mem) = fresh_pmm(16);
    let before: Vec<bool> = (0..16).map(|i| pmm.bitmap.is_set(i)).collect();
    let a = pmm.alloc_frames(4).unwrap();
    pmm.free(a, 4);
    let after: Vec<bool> = (0..16).map(|i| pmm.bitmap.is_set(i)).collect();
    assert_eq!(before, after);
    // first fit hands the same address out again
    let b = pmm.alloc_frames(4).unwrap();
    assert_eq!(a, b);
}

#[test]
fn calloc_zeroes_every_byte() {
    let (mut pmm, mut mem) = fresh_pmm(8);
    for i in 0..8 * 4096 {
        mem.write_u8(i, 0xcc);
    }
    let a = pmm.calloc(2, &mut mem).unwrap().as_u64() as usize;
    for i in 0..2 * 4096 {
        assert_eq!(mem.read_u8(a + i), 0);
    }
}

#[test]
fn free_accepts_higher_half_aliases() {
    let (mut pmm, _mem) = fresh_pmm(8);
    let a = pmm.alloc_frames(1).unwrap();
    assert!(!pmm.bitmap.is_set((a.as_u64() / 4096) as usize));
    pmm.free(a.higher_half(), 1);
    assert!(pmm.bitmap.is_set((a.as_u64() / 4096) as usize));
}

#[test]
fn init_builds_the_allocator_from_the_memory_map() {
    // 16 usable frames; the two bitmap bytes are carved from their start
    let mut entries = vec![
        MemoryRegion { base: 0, length: 0x10000, kind: RegionKind::Usable },
        MemoryRegion { base: 0x10000, length: 0x4000, kind: RegionKind::Reserved },
    ];
    let pmm = init(&mut entries).unwrap();
    assert_eq!(pmm.bitmap.size(), 2);
    assert_eq!(entries[0].base, 2);
    assert_eq!(entries[0].length, 0x10000 - 2);
    // the shortened region spans frames 0..15: the last partial frame is lost
    for p in 0..15 {
        assert!(pmm.bitmap.is_set(p));
    }
    assert!(!pmm.bitmap.is_set(15));
}

#[test]
fn init_needs_a_region_large_enough_for_the_bitmap() {
    let mut entries = vec![
        // one tiny usable byte cannot hold the bitmap tracking a wide kernel
        MemoryRegion { base: 0, length: 1, kind: RegionKind::Usable },
        MemoryRegion { base: 0x100000, length: 0x100000, kind: RegionKind::Kernel },
    ];
    assert!(init(&mut entries).is_none());
    assert_eq!(entries[0].length, 1);
}

#[test]
fn pmm_box_takes_and_releases_whole_frames() {
    let (mut pmm, mut mem) = fresh_pmm(8);
    let b = PmmBox::new(5000, &mut pmm, &mut mem).unwrap();
    assert_eq!(b.page_cnt, 2);
    assert_eq!(b.addr.as_u64() % 4096, 0);
    let base = (b.addr.as_u64() / 4096) as usize;
    assert!(!pmm.bitmap.is_set(base));
    assert!(!pmm.bitmap.is_set(base + 1));
    b.release(&mut pmm);
    assert!(pmm.bitmap.is_set(base));
    assert!(pmm.bitmap.is_set(base + 1));
}

#[test]
fn phys_addr_bit_helpers() {
    let a = PhysAddr::new(0x5000);
    assert_eq!(a.higher_half().as_u64(), 0x5000 | PHYS_BASE);
    assert_eq!(a.higher_half().lower_half().as_u64(), 0x5000);
    let tagged = PhysAddr::new(0x8000_0000_0000_5a03);
    assert_eq!(tagged.remove_flags().as_u64(), 0x5000);
}

#[test]
fn div_ceil_and_round_up_values() {
    assert_eq!(div_ceil(0, 4096), 0);
    assert_eq!(div_ceil(1, 4096), 1);
    assert_eq!(div_ceil(4096, 4096), 1);
    assert_eq!(div_ceil(4097, 4096), 2);
    assert_eq!(round_up(0, 8), 0);
    assert_eq!(round_up(5, 8), 8);
    assert_eq!(round_up(16, 8), 16);
}
