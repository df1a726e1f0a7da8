use libsraid::geometry::{PoolGeometry, BLOCK_SIZE, DATA_SIZE, HASH_SIZE, SUBBLOCK_SIZE, SUBBLOCKS_PER_BLOCK, HASH_BYTES};

#[test]
fn block_layout_constants() {
    assert_eq!(BLOCK_SIZE, 528384);
    assert_eq!(DATA_SIZE + HASH_SIZE, BLOCK_SIZE);
    assert_eq!(SUBBLOCK_SIZE * SUBBLOCKS_PER_BLOCK as u64, DATA_SIZE);
    assert_eq!(HASH_BYTES as u64 * SUBBLOCKS_PER_BLOCK as u64, HASH_SIZE);
}

#[test]
fn four_disks_of_four_terabytes() {
    let g = PoolGeometry::new(4, 4_000_000_000_000);
    assert_eq!(g.num_superblocks(), 7_570_251);
    // 1.5 MiB of user data per superblock.
    assert_eq!(g.superblock_size(), 3 * 512 * 1024);
    assert_eq!(g.physical_size(), 7_570_251 * 528_384 * 4);
    assert_eq!(g.logical_size(), 7_570_251 * 3 * 524_288);
}

#[test]
fn one_disk_has_no_superblocks() {
    let g = PoolGeometry::new(1, 10 * BLOCK_SIZE);
    assert_eq!(g.num_superblocks(), 0);
    assert_eq!(g.superblock_size(), 0);
    assert_eq!(g.physical_size(), 0);
    assert_eq!(g.logical_size(), 0);
}

#[test]
fn partial_block_is_unusable() {
    let g = PoolGeometry::new(3, 2 * BLOCK_SIZE + BLOCK_SIZE - 1);
    assert_eq!(g.num_superblocks(), 2);
    assert_eq!(g.superblock_size(), 2 * DATA_SIZE);
    assert_eq!(g.physical_size(), 2 * BLOCK_SIZE * 3);
    assert_eq!(g.logical_size(), 2 * 2 * DATA_SIZE);
    assert!(g.logical_size() <= g.physical_size());
}
