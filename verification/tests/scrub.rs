use libsraid::geometry::BLOCK_SIZE;
use libsraid::scrub::{ScrubReport, ScrubTally};
use libsraid::superblock::{SubblockRepair, SuperblockScrub};

#[test]
fn tally_counts_damaged_files_and_repairs() {
    let mut t = ScrubTally::new();
    t.begin_file();
    t.record_block_read();
    t.record_block_read();
    let clean = SuperblockScrub { damaged: false, repairable: 0, unrepairable: 0, repairs: vec![] };
    t.record_superblock(&clean);
    t.end_file(1);
    assert_eq!(t.repairable_or_repaired_files, 0);
    assert!(t.damaged_files.is_empty());

    t.begin_file();
    let repaired = SuperblockScrub {
        damaged: false,
        repairable: 2,
        unrepairable: 0,
        repairs: vec![
            SubblockRepair { disk: 0, subblock: 3, data: vec![0; 4096] },
            SubblockRepair { disk: 1, subblock: 9, data: vec![0; 4096] },
        ],
    };
    t.record_superblock(&repaired);
    let broken = SuperblockScrub { damaged: true, repairable: 0, unrepairable: 1, repairs: vec![] };
    t.record_superblock(&broken);
    t.end_file(-12);
    assert_eq!(t.repairable_or_repaired_blocks, 2);
    assert_eq!(t.repairable_or_repaired_files, 1);
    assert_eq!(t.damaged_files, vec!["physical_file_-12".to_string()]);
    assert_eq!(t.raw_bytes_read, 2 * BLOCK_SIZE);
}

#[test]
fn report_counts_supersubblocks_and_files() {
    let mut r = ScrubReport::new();
    r.begin_file();
    r.record_superblock(&SuperblockScrub { damaged: false, repairable: 0, unrepairable: 0, repairs: vec![] });
    r.end_file(1);
    assert!(r.files_with_repairable.is_empty());
    assert!(r.files_with_unrepairable.is_empty());
    assert_eq!(r.file_subblocks_checked, 128);

    r.begin_file();
    assert_eq!(r.file_subblocks_checked, 0);
    r.record_superblock(&SuperblockScrub { damaged: true, repairable: 3, unrepairable: 2, repairs: vec![] });
    r.record_superblock(&SuperblockScrub { damaged: false, repairable: 1, unrepairable: 0, repairs: vec![] });
    r.end_file(7);
    r.begin_file();
    r.record_superblock(&SuperblockScrub { damaged: true, repairable: 0, unrepairable: 4, repairs: vec![] });
    r.end_file(9);

    assert_eq!(r.total_subblocks_checked, 4 * 128);
    assert_eq!(r.repairable_errors, 4);
    assert_eq!(r.total_subblocks_repaired, 4);
    assert_eq!(r.unrepairable_errors, 6);
    assert_eq!(r.files_with_repairable, vec![7]);
    assert_eq!(r.files_with_unrepairable, vec![7, 9]);
    assert_eq!(r.file_unrepairable, 4);
    assert_eq!(r.file_repairable, 0);
}
