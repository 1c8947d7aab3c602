//! File-system constants and the disk table. The block cache and the disk
//! driver themselves are collaborators outside this library; only their
//! plain data shapes live here.

use vstd::prelude::*;

verus! {

/// Greatest number of disks the kernel can drive.
pub const MAX_DISKS: usize = 10;

/// A disk is a numbered sequence of blocks; the kernel reads and writes in
/// units of this many bytes.
pub const BLOCK_SIZE: usize = 1024;

/// Greatest number of blocks one file-system operation may write.
pub const FS_OP_MAX_BLOCK_WRITES: usize = 10;

/// Greatest number of blocks the buffer cache holds at any moment.
pub const BCACHE_SIZE: usize = FS_OP_MAX_BLOCK_WRITES * 3;

/// One attached disk.
pub struct Disk {}

impl Disk {
    pub fn new() -> (r: Disk) {
        Disk {}
    }
}

/// The table of attached disks.
pub struct Disks(pub Vec<Disk>);

impl Disks {
    pub fn new() -> (r: Disks)
        ensures
            r.0.len() == MAX_DISKS,
    {
        let mut disks: Vec<Disk> = Vec::new();
        let mut i: usize = 0;
        while i < MAX_DISKS
            invariant
                0 <= i <= MAX_DISKS,
                disks.len() == i,
            decreases MAX_DISKS - i,
        {
            disks.push(Disk::new());
            i = i + 1;
        }
        Disks(disks)
    }
}

} // verus!
