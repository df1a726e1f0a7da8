use libsraid::catalog::{
    check_deletable, check_disk_count, check_path_nonempty, file_exists_step, ExistsStep, check_free_superblocks, decide_add, ensure_step, geometry_from_disks,
    has_enough_space, min_disk_size, physical_file_unreferenced, plan_file_chunks, required_superblocks,
    resolve_step, summarize, AddAction, DiskInfo, EnsureStep, FileChunk, PoolError, WalkStep,
};
use libsraid::geometry::{PoolGeometry, BLOCK_SIZE, DATA_SIZE};

fn disk(id: i64, size: i64) -> DiskInfo {
    DiskInfo {
        id,
        path: format!("/dev/disk{id}"),
        serial: None,
        device_type: "block".to_string(),
        size,
        block_size: 4096,
    }
}

#[test]
fn geometry_from_catalog() {
    assert_eq!(geometry_from_disks(&vec![]).unwrap_err(), PoolError::NoDisks);
    let g = geometry_from_disks(&vec![disk(1, 900), disk(2, 500), disk(3, 700)]).unwrap();
    assert_eq!(g.num_disks, 3);
    assert_eq!(g.min_disk_size, 500);
}

#[test]
fn smallest_disk() {
    assert_eq!(min_disk_size(&vec![]), 0);
    assert_eq!(min_disk_size(&vec![5, 3, 9]), 3);
}

#[test]
fn disk_count_rules() {
    assert_eq!(check_disk_count(0), Err(PoolError::NoDiskPaths));
    assert_eq!(check_disk_count(1), Err(PoolError::TooFewDisks));
    assert_eq!(check_disk_count(2), Ok(()));
}

#[test]
fn superblocks_needed_round_up() {
    let s = 3 * DATA_SIZE;
    assert_eq!(required_superblocks(0, s), 0);
    assert_eq!(required_superblocks(1, s), 1);
    assert_eq!(required_superblocks(s, s), 1);
    assert_eq!(required_superblocks(s + 1, s), 2);
    assert_eq!(required_superblocks(u64::MAX, 1), u64::MAX);
}

#[test]
fn space_check() {
    let g = PoolGeometry::new(3, 10 * BLOCK_SIZE);
    let s = 2 * DATA_SIZE;
    assert_eq!(has_enough_space(&g, &vec![s, 1, s + 1], 4), Ok(true));
    assert_eq!(has_enough_space(&g, &vec![s, 1, s + 1], 3), Ok(false));
    assert_eq!(has_enough_space(&g, &vec![], 0), Ok(true));
    let one = PoolGeometry::new(1, 10 * BLOCK_SIZE);
    assert_eq!(has_enough_space(&one, &vec![1], 10), Err(PoolError::ZeroSuperblockSize));
}

#[test]
fn free_superblock_check() {
    assert_eq!(check_free_superblocks(2, vec![4, 7]).unwrap(), vec![4, 7]);
    assert_eq!(
        check_free_superblocks(3, vec![4, 7]).unwrap_err(),
        PoolError::NotEnoughFreeSuperblocks { required: 3, available: 2 }
    );
}

#[test]
fn file_chunks() {
    let chunks = plan_file_chunks(25, 10, &vec![7, 3, 9]);
    assert_eq!(
        chunks,
        vec![
            FileChunk { superblock_id: 7, start: 0, end: 10 },
            FileChunk { superblock_id: 3, start: 10, end: 20 },
            FileChunk { superblock_id: 9, start: 20, end: 25 },
        ]
    );
    assert_eq!(plan_file_chunks(0, 10, &vec![]), vec![]);
    assert_eq!(plan_file_chunks(20, 10, &vec![1, 2, 3]).len(), 2);
}

#[test]
fn add_decisions() {
    assert_eq!(decide_add(false, false), Ok(AddAction::Add));
    assert_eq!(decide_add(false, true), Ok(AddAction::Add));
    assert_eq!(decide_add(true, true), Ok(AddAction::Replace));
    assert_eq!(decide_add(true, false), Err(PoolError::FileExists));
}

#[test]
fn path_walk_steps() {
    assert_eq!(resolve_step(0, 2, None), WalkStep::NotFound);
    assert_eq!(resolve_step(0, 2, Some((5, true))), WalkStep::Descend(5));
    assert_eq!(resolve_step(0, 2, Some((5, false))), WalkStep::FileInTheWay);
    assert_eq!(resolve_step(1, 2, Some((6, false))), WalkStep::Found(6));
    assert_eq!(resolve_step(1, 2, Some((6, true))), WalkStep::IsDirectory);
    assert_eq!(ensure_step(None), EnsureStep::Create);
    assert_eq!(ensure_step(Some((3, true))), EnsureStep::Descend(3));
    assert_eq!(ensure_step(Some((3, false))), EnsureStep::FileInTheWay);
}

#[test]
fn deletion_rules() {
    assert_eq!(check_deletable(0), Ok(()));
    assert_eq!(check_deletable(1), Err(PoolError::VirtualFile));
    assert!(physical_file_unreferenced(0));
    assert!(!physical_file_unreferenced(2));
}

#[test]
fn pool_summary() {
    let g = PoolGeometry::new(3, 4 * BLOCK_SIZE + 17);
    let s = summarize(&g, &vec![4 * BLOCK_SIZE + 17, 5 * BLOCK_SIZE, 4 * BLOCK_SIZE + 17]);
    assert_eq!(s.total_disks, 3);
    assert_eq!(s.total_superblocks, 4);
    assert_eq!(s.raw_pool_bytes, 4 * BLOCK_SIZE * 3);
    assert_eq!(s.usable_pool_bytes, 4 * DATA_SIZE * 2);
    assert_eq!(s.logical_superblock_size, 2 * DATA_SIZE);
    assert_eq!(s.raw_block_size, BLOCK_SIZE);
    assert_eq!(s.raw_superblock_size, 3 * BLOCK_SIZE);
    assert!(s.size_mismatch);
    let same = summarize(&g, &vec![4 * BLOCK_SIZE + 17, 4 * BLOCK_SIZE + 17]);
    assert!(!same.size_mismatch);
}

#[test]
fn refusal_messages() {
    let path = ["a", "b", "c.txt"];
    assert_eq!(PoolError::FileExists.message(&path), "File 'a/b/c.txt' already exists in the pool");
    assert_eq!(
        PoolError::FileInTheWay(1).message(&path),
        "Cannot access 'b': a file with the same name already exists"
    );
    assert_eq!(
        PoolError::FileInTheWay(7).message(&path),
        "Cannot access '': a file with the same name already exists"
    );
    assert_eq!(
        PoolError::NotEnoughFreeSuperblocks { required: 12, available: -3 }.message(&[]),
        "Not enough free superblocks. Required: 12, Available: -3"
    );
    assert_eq!(PoolError::IsDirectory.message(&path), "Path 'a/b/c.txt' refers to a directory, not a file");
    assert_eq!(PoolError::VirtualFile.message(&[]), "Cannot delete virtual file");
    assert_eq!(PoolError::NoDisks.message(&[]), "No disks registered in the pool.");
}

#[test]
fn file_exists_steps() {
    assert_eq!(file_exists_step(Some((4, true)), false), ExistsStep::Descend(4));
    assert_eq!(file_exists_step(Some((4, false)), false), ExistsStep::Absent);
    assert_eq!(file_exists_step(None, false), ExistsStep::Absent);
    assert_eq!(file_exists_step(None, true), ExistsStep::Absent);
    assert_eq!(file_exists_step(Some((9, false)), true), ExistsStep::Exists);
    assert_eq!(file_exists_step(Some((9, true)), true), ExistsStep::IsDirectory);
    assert_eq!(check_path_nonempty(0), Err(PoolError::IsDirectory));
    assert_eq!(check_path_nonempty(2), Ok(()));
}
