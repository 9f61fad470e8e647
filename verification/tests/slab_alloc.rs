//! Slab-allocator behaviour and the small peripheral types.

use griffin::bitmap::Bitmap;
use griffin::cpu::{Cpuid, Ists, MsrList};
use griffin::pmm::{PhysMem, Pmm};
use griffin::proc::{Scheduler, SchedulerQueues, SelectorValues};
use griffin::slab::{init, Cache, OBJS_PER_SLAB};
use griffin::vfs::{FileDescription, Flags, MountPoint};

fn fresh_pmm(frames: usize) -> (Pmm, PhysMem) {
    let mut bm = Bitmap::new(frames / 8);
    for i in 0..frames {
        bm.set(i);
    }
    (Pmm::new(bm), PhysMem::new(frames * 4096))
}

#[test]
fn cache_hands_out_distinct_objects() {
    let (mut pmm, mut mem) = fresh_pmm(16);
    let mut cache = Cache::new("16 bytes", 16, &mut pmm, &mut mem).unwrap();
    let a = cache.alloc_obj(&mut pmm, &mut mem).unwrap();
    let b = cache.alloc_obj(&mut pmm, &mut mem).unwrap();
    assert_ne!(a, b);
    assert!(a + 16 <= b || b + 16 <= a);
}

#[test]
fn exhausting_a_slab_grows_the_cache() {
    let (mut pmm, mut mem) = fresh_pmm(64);
    let mut cache = Cache::new("8 bytes", 8, &mut pmm, &mut mem).unwrap();
    assert_eq!(cache.slab_count, 1);
    let mut ptrs: Vec<u64> = Vec::new();
    for _ in 0..OBJS_PER_SLAB + 1 {
        ptrs.push(cache.alloc_obj(&mut pmm, &mut mem).unwrap());
    }
    // one more object than a slab holds forces a second slab
    assert!(cache.slab_count >= 2);
    assert_eq!(cache.slabs.len(), cache.slab_count);
    // every object handed out is distinct and does not overlap another
    for i in 0..ptrs.len() {
        for j in 0..i {
            assert!(ptrs[i] + 8 <= ptrs[j] || ptrs[j] + 8 <= ptrs[i]);
        }
    }
}

#[test]
fn freed_objects_come_back() {
    let (mut pmm, mut mem) = fresh_pmm(16);
    let mut cache = Cache::new("32 bytes", 32, &mut pmm, &mut mem).unwrap();
    let a = cache.alloc_obj(&mut pmm, &mut mem).unwrap();
    assert!(cache.free_obj(a));
    // releasing the same object twice is refused
    assert!(!cache.free_obj(a));
    // a foreign pointer is refused
    assert!(!cache.free_obj(0xdead_0000));
    // the slot is served again
    let b = cache.alloc_obj(&mut pmm, &mut mem).unwrap();
    assert_eq!(a, b);
}

#[test]
fn allocator_routes_by_size_class() {
    let (mut pmm, mut mem) = fresh_pmm(1024);
    let mut sa = init(&mut pmm, &mut mem).unwrap();
    assert_eq!(sa.caches.len(), 10);
    // the ladder runs upward from 8 to 4096 bytes
    let sizes: Vec<usize> = sa.caches.iter().map(|c| c.object_size).collect();
    assert_eq!(sizes, vec![8, 16, 32, 64, 128, 256, 512, 1024, 2048, 4096]);
    // a 100-byte request lands in the 128-byte class
    let idx = sa.cache_for(100).unwrap();
    assert_eq!(sa.caches[idx].object_size, 128);
    let p = sa.allocate(100, &mut pmm, &mut mem).unwrap();
    assert!(sa.deallocate(p, 100));
    assert!(!sa.deallocate(p, 100));
    // nothing serves requests beyond the largest class
    assert!(sa.cache_for(4097).is_none());
    assert!(sa.allocate(5000, &mut pmm, &mut mem).is_none());
}

#[test]
fn slab_ladder_needs_enough_frames() {
    // the largest size class alone needs hundreds of frames
    let (mut pmm, mut mem) = fresh_pmm(8);
    assert!(init(&mut pmm, &mut mem).is_none());
}

#[test]
fn file_description_starts_at_offset_zero() {
    let fd = FileDescription::new(42, Flags(2), 1);
    assert_eq!(fd.file_index, 42);
    assert_eq!(fd.flags, Flags(2));
    assert_eq!(fd.fs, 1);
    assert_eq!(fd.offset, 0);
}

#[test]
fn mount_point_starts_empty() {
    let mp = MountPoint::new();
    assert_eq!(mp.name.len(), 0);
    assert!(mp.fs.is_none());
}

#[test]
fn cpuid_feature_bits() {
    let leaf7 = Cpuid { eax: 0, ebx: (1 << 20) | (1 << 7), ecx: 1 << 2, edx: 0 };
    assert!(leaf7.has_smap());
    assert!(leaf7.has_smep());
    assert!(!leaf7.has_fsgsbase());
    assert!(leaf7.has_umip());
    let none = Cpuid::default();
    assert!(!none.has_smap() && !none.has_smep() && !none.has_umip());
}

#[test]
fn selector_and_stack_table_values() {
    assert_eq!(SelectorValues::KernelCs.value(), 0x8);
    assert_eq!(SelectorValues::KernelDs.value(), 0x10);
    assert_eq!(SelectorValues::UserCs.value(), 0x1b);
    assert_eq!(SelectorValues::UserDs.value(), 0x23);
    assert_eq!(Ists::PageFault.index(), 1);
    assert_eq!(Ists::Nmi.index(), 2);
    assert_eq!(MsrList::ApicBase.address(), 0x1b);
    assert_eq!(MsrList::GsBase.address(), 0xc000_0101);
}

#[test]
fn scheduler_starts_idle() {
    let s = Scheduler::new();
    assert!(s.running_thread.is_none());
    assert!(s.queues.runnable.is_empty());
    let q = SchedulerQueues::new();
    assert!(q.waiting.is_empty());
}

#[test]
fn higher_half_helper_sets_the_window_base() {
    assert_eq!(griffin::addr::higher_half(0x1000), 0xffff_8000_0000_1000);
}

#[test]
fn inode_mode_bits() {
    let mut inode = griffin::ext2::Inode {
        type_and_permissions: 0x41ed,  // a directory with common permissions
        user_id: 0,
        sizel: 0,
        last_access_time: 0,
        creation_time: 0,
        last_mod_time: 0,
        deletion_time: 0,
        group_id: 0,
        ref_cnt: 1,
        sectors_used: 0,
        flags: 0,
        inode_number: 2,
        direct_pointer: [0; 12],
        singly_ip: 0,
        doubly_ip: 0,
        triply_ip: 0,
        gen_num: 0,
        ext_ab: 0,
        sizeh_dir_acl: 0,
        fragment_block: 0,
        os_specific2: [0; 3],
    };
    assert!(inode.is_directory());
    assert!(!inode.is_regular_file());
    inode.type_and_permissions = 0x81a4;  // a regular file
    assert!(inode.is_regular_file());
    assert!(!inode.is_directory());
}
