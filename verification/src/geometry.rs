//! Physical layout constants and the geometry of a pool.
use vstd::prelude::*;

verus! {

/// Size of one block on one disk: a data section followed by a hash section.
pub const BLOCK_SIZE: u64 = 516 * 1024;
/// Size of the data section of a block.
pub const DATA_SIZE: u64 = 512 * 1024;
/// Size of the hash section of a block.
pub const HASH_SIZE: u64 = 4 * 1024;
/// Size of one subblock, the unit that is hashed.
pub const SUBBLOCK_SIZE: u64 = 4 * 1024;
/// Number of subblocks in the data section of a block.
pub const SUBBLOCKS_PER_BLOCK: usize = 128;
/// Length of one BLAKE3 digest.
pub const HASH_BYTES: usize = 32;

/// The shape of a pool: how many disks it has and how large the smallest is.
#[derive(Debug, Clone, Copy)]
pub struct PoolGeometry {
    pub num_disks: usize,
    pub min_disk_size: u64,
}

impl PoolGeometry {
    /// Number of superblocks: one per whole block that fits on the smallest
    /// disk, and none when there is no room for parity.
    pub open spec fn spec_num_superblocks(self) -> int {
        if self.num_disks < 2 {
            0
        } else {
            self.min_disk_size as int / BLOCK_SIZE as int
        }
    }

    /// Usable bytes in one superblock: one data section per data disk.
    pub open spec fn spec_superblock_size(self) -> int {
        DATA_SIZE * (self.num_disks - 1)
    }

    /// Raw bytes that the superblocks occupy over all disks.
    pub open spec fn spec_physical_size(self) -> int {
        self.spec_num_superblocks() * BLOCK_SIZE * self.num_disks
    }

    /// Raw bytes of one superblock: one block on every disk.
    pub open spec fn spec_raw_superblock_size(self) -> int {
        BLOCK_SIZE * self.num_disks
    }

    /// Bytes of user data that the pool can hold.
    pub open spec fn spec_logical_size(self) -> int {
        if self.num_disks < 2 {
            0
        } else {
            self.spec_num_superblocks() * DATA_SIZE * (self.num_disks - 1)
        }
    }

    /// The sizes of this geometry fit in a `u64`.
    pub open spec fn sizes_fit(self) -> bool {
        &&& self.num_disks >= 1
        &&& self.spec_superblock_size() <= u64::MAX
        &&& self.spec_physical_size() <= u64::MAX
        &&& self.spec_raw_superblock_size() <= u64::MAX
    }

    pub fn new(num_disks: usize, min_disk_size: u64) -> (g: Self)
        ensures
            g.num_disks == num_disks,
            g.min_disk_size == min_disk_size,
    {
        Self { num_disks, min_disk_size }
    }

    /// Returns the total number of superblocks in the pool.
    pub fn num_superblocks(&self) -> (n: u64)
        ensures
            n == self.spec_num_superblocks(),
    {
        if self.num_disks < 2 {
            0
        } else {
            self.min_disk_size / BLOCK_SIZE
        }
    }

    /// Returns the usable size per superblock.
    pub fn superblock_size(&self) -> (s: u64)
        requires
            self.num_disks >= 1,
            self.spec_superblock_size() <= u64::MAX,
        ensures
            s == self.spec_superblock_size(),
    {
        DATA_SIZE * (self.num_disks - 1) as u64
    }

    /// Returns the physical size of the pool, which is the raw total capacity across all disks.
    pub fn physical_size(&self) -> (s: u64)
        requires
            self.spec_physical_size() <= u64::MAX,
        ensures
            s == self.spec_physical_size(),
    {
        let n = self.num_superblocks();
        proof {
            lemma_superblocks_fit_smallest_disk(*self);
            lemma_product_bound(n as int * BLOCK_SIZE, self.num_disks as int);
        }
        n * BLOCK_SIZE * self.num_disks as u64
    }

    /// Returns the logical size of the pool, which is the total usable data capacity.
    pub fn logical_size(&self) -> (s: u64)
        requires
            self.spec_physical_size() <= u64::MAX,
        ensures
            s == self.spec_logical_size(),
    {
        if self.num_disks < 2 {
            0
        } else {
            let n = self.num_superblocks();
            proof {
                lemma_superblocks_fit_smallest_disk(*self);
                lemma_logical_le_physical(*self);
                lemma_product_bound(n as int * DATA_SIZE, (self.num_disks - 1) as int);
            }
            n * DATA_SIZE * (self.num_disks - 1) as u64
        }
    }
}

proof fn lemma_product_bound(a: int, b: int)
    requires
        a >= 0,
        b >= 0,
    ensures
        a * b >= 0,
{
    vstd::arithmetic::mul::lemma_mul_nonnegative(a, b);
}

/// Every superblock has its block on each disk, and all of them fit on the
/// smallest disk.
pub proof fn lemma_superblocks_fit_smallest_disk(g: PoolGeometry)
    ensures
        0 <= g.spec_num_superblocks(),
        g.spec_num_superblocks() * BLOCK_SIZE <= g.min_disk_size,
        g.num_disks >= 2 ==> g.min_disk_size < (g.spec_num_superblocks() + 1) * BLOCK_SIZE,
{
    if g.num_disks >= 2 {
        vstd::arithmetic::div_mod::lemma_fundamental_div_mod(g.min_disk_size as int, BLOCK_SIZE as int);
    }
}

/// The logical size is the number of superblocks times the usable size of
/// one superblock.
pub proof fn lemma_logical_is_superblocks_times_superblock_size(g: PoolGeometry)
    requires
        g.num_disks >= 2,
    ensures
        g.spec_logical_size() == g.spec_num_superblocks() * g.spec_superblock_size(),
{
    vstd::arithmetic::mul::lemma_mul_is_associative(
        g.spec_num_superblocks(),
        DATA_SIZE as int,
        (g.num_disks - 1) as int,
    );
}

/// The pool never offers more usable bytes than it occupies.
pub proof fn lemma_logical_le_physical(g: PoolGeometry)
    ensures
        0 <= g.spec_logical_size() <= g.spec_physical_size(),
{
    let n = g.spec_num_superblocks();
    lemma_superblocks_fit_smallest_disk(g);
    if g.num_disks >= 2 {
        let d = (g.num_disks - 1) as int;
        assert(n * DATA_SIZE * d <= n * BLOCK_SIZE * (d + 1)) by (nonlinear_arith)
            requires
                n >= 0,
                d >= 1,
        ;
    } else {
        assert(n * BLOCK_SIZE * g.num_disks >= 0) by (nonlinear_arith)
            requires
                n >= 0,
        ;
    }
}

} // verus!
