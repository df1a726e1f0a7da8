//! Core logic of a "shoddy RAID" pool: a set of disks, one of which holds
//! XOR parity, laid out in 516 KiB blocks whose 4 KiB subblocks are each
//! protected by a BLAKE3 hash, together with a sparse virtual-disk format.
use vstd::prelude::*;

pub mod geometry;
pub mod hashing;
pub mod parity;
pub mod superblock;
pub mod text;
pub mod tree;
pub mod scrub;
pub mod catalog;
pub mod vdisk;
pub mod device;

verus! {

} // verus!
