//! The thin slice of the virtual filesystem layer that the memory manager
//! sees: a description of an open file, and the mount-point record.
//!
//! A file description names its filesystem by a plain index into the mount
//! table rather than by reference; the demand-paging path only ever hands
//! the pair (filesystem, file index) back out in a read request, so the
//! filesystem itself stays an external collaborator.

use vstd::prelude::*;

verus! {

/// Open-mode flag bits for a file description.
pub const O_RDONLY: u32 = 0;

pub const O_WRONLY: u32 = 1;

pub const O_RDWR: u32 = 2;

pub const O_CREAT: u32 = 100;

pub const O_TRUNC: u32 = 1000;

pub const O_APPEND: u32 = 2000;

/// File-type bits of an inode's type-and-permissions word.
pub const FILE_TYPE_FIFO: u16 = 0x1000;

pub const FILE_TYPE_CHAR_DEVICE: u16 = 0x2000;

pub const FILE_TYPE_DIRECTORY: u16 = 0x4000;

pub const FILE_TYPE_BLOCK_DEVICE: u16 = 0x6000;

pub const FILE_TYPE_NORMAL: u16 = 0x8000;

pub const FILE_TYPE_SYMLINK: u16 = 0xa000;

pub const FILE_TYPE_SOCKET: u16 = 0xc000;

/// A set of open-mode flags.
#[derive(Debug, Clone, Copy, PartialEq, Eq, Structural)]
pub struct Flags(pub u32);

/// One open file: its flags, the current offset, the owning filesystem
/// (an index into the mount table) and the filesystem's own index for the
/// open file.
#[derive(Debug, Clone, Copy, PartialEq, Eq, Structural)]
pub struct FileDescription {
    pub flags: Flags,
    pub offset: usize,
    pub fs: usize,
    pub file_index: usize,
}

impl FileDescription {
    pub fn new(index: usize, flags: Flags, fs: usize) -> (r: Self)
        ensures
            r.flags == flags,
            r.offset == 0,
            r.fs == fs,
            r.file_index == index,
    {
        FileDescription { flags, offset: 0, fs, file_index: index }
    }
}

/// One entry of the mount table: the path the filesystem is mounted on and
/// the filesystem's index, once one is attached.
pub struct MountPoint {
    pub name: String,
    pub fs: Option<usize>,
}

impl MountPoint {
    pub fn new() -> (r: Self)
        ensures
            r.name@.len() == 0,
            r.fs is None,
    {
        MountPoint { name: String::new(), fs: None }
    }
}

} // verus!
