use libsraid::geometry::{BLOCK_SIZE, DATA_SIZE, SUBBLOCK_SIZE};
use libsraid::superblock::{
    append_hash_section, classify_digests, classify_vssb, layout_superblock, reconstruct_subblock,
    scrub_superblock, VssbState,
};

fn sample(len: usize, seed: u64) -> Vec<u8> {
    let mut x = seed;
    (0..len)
        .map(|_| {
            x = x.wrapping_mul(6364136223846793005).wrapping_add(1442695040888963407);
            (x >> 33) as u8
        })
        .collect()
}

fn subblock(block: &[u8], i: usize) -> &[u8] {
    &block[i * 4096..(i + 1) * 4096]
}

#[test]
fn layout_spreads_data_and_parity() {
    let data = sample(2 * DATA_SIZE as usize, 7);
    let blocks = layout_superblock(&data, 3);
    assert_eq!(blocks.len(), 3);
    for b in &blocks {
        assert_eq!(b.len() as u64, BLOCK_SIZE);
    }
    assert_eq!(&blocks[0][..DATA_SIZE as usize], &data[..DATA_SIZE as usize]);
    assert_eq!(&blocks[1][..DATA_SIZE as usize], &data[DATA_SIZE as usize..]);
    for k in 0..DATA_SIZE as usize {
        assert_eq!(blocks[2][k], blocks[0][k] ^ blocks[1][k]);
    }
    for (e, b) in blocks.iter().enumerate() {
        for i in 0..128 {
            let expected = blake3::hash(subblock(b, i));
            let at = DATA_SIZE as usize + i * 32;
            assert_eq!(&b[at..at + 32], expected.as_bytes(), "disk {e} subblock {i}");
        }
    }
}

#[test]
fn short_data_is_repeated_to_fill_the_superblock() {
    let data = sample(1000, 3);
    let blocks = layout_superblock(&data, 2);
    for k in 0..DATA_SIZE as usize {
        assert_eq!(blocks[0][k], data[k % 1000]);
        // With one data disk the parity is a copy of it.
        assert_eq!(blocks[1][k], blocks[0][k]);
    }
}

#[test]
fn fresh_superblock_scrubs_clean() {
    let data = sample(3 * DATA_SIZE as usize - 5, 11);
    let blocks = layout_superblock(&data, 4);
    for i in 0..128 {
        assert_eq!(classify_vssb(&blocks, i), VssbState::Intact);
    }
    let report = scrub_superblock(&blocks, false);
    assert!(!report.damaged);
    assert!(report.repairs.is_empty());
    assert_eq!(report.repairable, 0);
    assert_eq!(report.unrepairable, 0);
}

#[test]
fn one_damaged_data_subblock_is_rebuilt() {
    let data = sample(3 * DATA_SIZE as usize, 5);
    let written = layout_superblock(&data, 4);
    let mut read = written.clone();
    let start = 17 * SUBBLOCK_SIZE as usize;
    read[1][start + 100] ^= 0xff;
    read[1][start + 4000] = read[1][start + 4000].wrapping_add(1);
    assert_eq!(classify_vssb(&read, 17), VssbState::Repairable(1));
    let rebuilt = reconstruct_subblock(&read, 17, 1);
    assert_eq!(&rebuilt[..], subblock(&written[1], 17));

    let report = scrub_superblock(&read, false);
    assert!(!report.damaged);
    assert_eq!(report.repairs.len(), 1);
    assert_eq!(report.repairs[0].disk, 1);
    assert_eq!(report.repairs[0].subblock, 17);
    assert_eq!(&report.repairs[0].data[..], subblock(&written[1], 17));

    assert_eq!(report.repairable, 1);
    assert_eq!(report.unrepairable, 0);

    let dry = scrub_superblock(&read, true);
    assert!(!dry.damaged);
    assert!(dry.repairs.is_empty());
    assert_eq!(dry.repairable, 1);
}

#[test]
fn two_damaged_subblocks_are_unrepairable() {
    let data = sample(2 * DATA_SIZE as usize, 9);
    let mut blocks = layout_superblock(&data, 3);
    blocks[0][5 * 4096] ^= 1;
    blocks[1][5 * 4096 + 9] ^= 1;
    blocks[2][90 * 4096] ^= 1;
    assert_eq!(classify_vssb(&blocks, 5), VssbState::Unrepairable);
    assert_eq!(classify_vssb(&blocks, 90), VssbState::Unrepairable);
    let report = scrub_superblock(&blocks, false);
    assert!(report.damaged);
    assert!(report.repairs.is_empty());
    assert_eq!(report.unrepairable, 2);
    assert_eq!(report.repairable, 0);
}

#[test]
fn damaged_parity_alone_is_unrepairable() {
    let data = sample(DATA_SIZE as usize, 13);
    let mut blocks = layout_superblock(&data, 3);
    blocks[2][0] ^= 0x80;
    assert_eq!(classify_vssb(&blocks, 0), VssbState::Unrepairable);
    assert_eq!(classify_vssb(&blocks, 1), VssbState::Intact);
}

#[test]
fn damaged_stored_hash_is_repaired_from_parity() {
    let data = sample(2 * DATA_SIZE as usize, 21);
    let written = layout_superblock(&data, 3);
    let mut read = written.clone();
    let hash_at = DATA_SIZE as usize + 40 * 32;
    read[0][hash_at] ^= 0x55;
    assert_eq!(classify_vssb(&read, 40), VssbState::Repairable(0));
    let rebuilt = reconstruct_subblock(&read, 40, 0);
    assert_eq!(&rebuilt[..], subblock(&written[0], 40));
}

#[test]
fn scattered_damage_on_single_disks_is_recovered() {
    let data = sample(3 * DATA_SIZE as usize, 33);
    let written = layout_superblock(&data, 4);
    let mut read = written.clone();
    read[0][3 * 4096 + 7] ^= 0x01;
    read[1][50 * 4096] ^= 0x10;
    read[2][DATA_SIZE as usize + 99 * 32 + 5] ^= 0x22;
    let report = scrub_superblock(&read, false);
    assert!(!report.damaged);
    assert_eq!(report.repairable, 3);
    let mut fixed = read.clone();
    for r in &report.repairs {
        let at = r.subblock * 4096;
        fixed[r.disk][at..at + 4096].copy_from_slice(&r.data);
    }
    for e in 0..3 {
        assert_eq!(&fixed[e][..DATA_SIZE as usize], &written[e][..DATA_SIZE as usize]);
    }
}

#[test]
fn hash_section_follows_the_data() {
    let section = sample(DATA_SIZE as usize, 41);
    let digests: Vec<Vec<u8>> = (0..128u8).map(|i| vec![i; 32]).collect();
    let block = append_hash_section(section.clone(), &digests);
    assert_eq!(block.len() as u64, BLOCK_SIZE);
    assert_eq!(&block[..DATA_SIZE as usize], &section[..]);
    for i in 0..128usize {
        let at = DATA_SIZE as usize + i * 32;
        assert_eq!(&block[at..at + 32], &digests[i][..]);
    }
}

#[test]
fn classification_from_given_digests() {
    let data = sample(2 * DATA_SIZE as usize, 17);
    let blocks = layout_superblock(&data, 3);
    let stored = |e: usize, i: usize| -> Vec<u8> {
        let at = DATA_SIZE as usize + i * 32;
        blocks[e][at..at + 32].to_vec()
    };
    let good: Vec<Vec<u8>> = (0..3).map(|e| stored(e, 6)).collect();
    assert_eq!(classify_digests(&blocks, 6, &good), VssbState::Intact);
    let mut one_bad = good.clone();
    one_bad[1] = vec![0; 32];
    assert_eq!(classify_digests(&blocks, 6, &one_bad), VssbState::Repairable(1));
    let mut parity_bad = good.clone();
    parity_bad[2] = vec![1; 32];
    assert_eq!(classify_digests(&blocks, 6, &parity_bad), VssbState::Unrepairable);
    let mut two_bad = one_bad.clone();
    two_bad[0] = vec![2; 32];
    assert_eq!(classify_digests(&blocks, 6, &two_bad), VssbState::Unrepairable);
}

#[test]
fn short_data_lays_out_as_its_repetition() {
    let data = sample(5000, 77);
    let padded: Vec<u8> = (0..2 * DATA_SIZE as usize).map(|j| data[j % data.len()]).collect();
    assert_eq!(layout_superblock(&data, 3), layout_superblock(&padded, 3));
}
