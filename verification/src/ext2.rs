//! The ext2 on-disk records the memory core's neighbours hand around:
//! the superblock and the inode, as plain fields, with the mode tests on
//! an inode's type.
//!
//! Reading and writing these records, walking block groups and the rest of
//! the filesystem's algorithms live with the block-storage stack outside
//! this library; the demand-paging path needs only an open file's identity.

use vstd::prelude::*;

use crate::vfs::{FILE_TYPE_DIRECTORY, FILE_TYPE_NORMAL, FILE_TYPE_SYMLINK};

verus! {

/// The filesystem's superblock, field for field.
#[derive(Debug, Clone, Copy, PartialEq, Eq, Structural)]
pub struct Superblock {
    pub inode_cnt: u32,
    pub block_cnt: u32,
    pub reserved_blocks_cnt: u32,
    pub unallocated_blocks: u32,
    pub unallocated_inodes: u32,
    pub superblock_block: u32,
    pub block_size: u32,
    pub fragment_size: u32,
    pub blocks_per_group: u32,
    pub fragments_per_group: u32,
    pub inodes_per_group: u32,
    pub last_mt: u32,
    pub last_wt: u32,
    pub mount_cnt: u16,
    pub mounts_bfc: u16,
    pub signature: u16,
    pub fs_state: u16,
    pub handle_error: u16,
    pub min_version: u16,
    pub last_cc: u32,
    pub cc_interval: u32,
    pub os_id: u32,
    pub maj_version: u32,
    pub user_id: u16,
    pub group_id: u16,
}

/// One inode: the type-and-permissions word and the block bookkeeping.
#[derive(Debug, Clone, Copy)]
pub struct Inode {
    pub type_and_permissions: u16,
    pub user_id: u16,
    pub sizel: u32,
    pub last_access_time: u32,
    pub creation_time: u32,
    pub last_mod_time: u32,
    pub deletion_time: u32,
    pub group_id: u16,
    pub ref_cnt: u16,
    pub sectors_used: u32,
    pub flags: u32,
    pub inode_number: u32,
    pub direct_pointer: [u32; 12],
    pub singly_ip: u32,
    pub doubly_ip: u32,
    pub triply_ip: u32,
    pub gen_num: u32,
    pub ext_ab: u32,
    pub sizeh_dir_acl: u32,
    pub fragment_block: u32,
    pub os_specific2: [u32; 3],
}

impl Inode {
    /// Whether the type word carries the directory bit.
    pub fn is_directory(&self) -> (r: bool)
        ensures
            r == (self.type_and_permissions & FILE_TYPE_DIRECTORY != 0),
    {
        self.type_and_permissions & FILE_TYPE_DIRECTORY != 0
    }

    /// Whether the type word carries the regular-file bit.
    pub fn is_regular_file(&self) -> (r: bool)
        ensures
            r == (self.type_and_permissions & FILE_TYPE_NORMAL != 0),
    {
        self.type_and_permissions & FILE_TYPE_NORMAL != 0
    }

    /// Whether the type word carries one of the symbolic-link bits.
    pub fn is_symlink(&self) -> (r: bool)
        ensures
            r == (self.type_and_permissions & FILE_TYPE_SYMLINK != 0),
    {
        self.type_and_permissions & FILE_TYPE_SYMLINK != 0
    }
}

} // verus!
