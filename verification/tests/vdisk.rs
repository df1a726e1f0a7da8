use libsraid::vdisk::{
    decode_block_table, encode_header, parse_header, plan_segments, MemVDisk, Segment, VDiskCursor, VDiskError, VDiskMeta,
    VDISK_BLOCK_SIZE,
};

const MIB: u64 = 1 << 20;

struct Lcg(u64);

impl Lcg {
    fn next(&mut self) -> u64 {
        self.0 = self.0.wrapping_mul(6364136223846793005).wrapping_add(1442695040888963407);
        self.0 >> 16
    }
}

#[test]
fn create_gives_zeroed_disk_of_whole_blocks() {
    let d = MemVDisk::create(3 * MIB + 1);
    assert_eq!(d.size(), 4 * MIB);
    assert_eq!(d.meta.block_count, 4);
    assert_eq!(d.meta.allocated_block_count, 0);
    assert_eq!(d.file_size(), 4096 + 4 * 8);
    assert_eq!(&d.image[0..4], b"GNAF");
    let all = d.read(0, (4 * MIB) as usize).unwrap();
    assert!(all.iter().all(|&b| b == 0));
}

#[test]
fn read_after_write_within_and_across_blocks() {
    let mut d = MemVDisk::create(4 * MIB);
    let data: Vec<u8> = (0..3000u32).map(|i| (i % 251) as u8).collect();
    let at = MIB - 1000;
    assert_eq!(d.write(at, &data), Ok(3000));
    assert_eq!(d.read(at, 3000).unwrap(), data);
    assert_eq!(d.meta.allocated_block_count, 2);
    assert_eq!(d.file_size(), 4096 + 4 * 8 + 2 * MIB);
    assert_eq!(d.read(at - 10, 10).unwrap(), vec![0u8; 10]);
    assert_eq!(d.read(3 * MIB, 5).unwrap(), vec![0u8; 5]);
}

#[test]
fn vdisk_matches_plain_buffer_after_random_writes() {
    let size = 8 * MIB;
    let mut d = MemVDisk::create(size);
    let mut plain = vec![0u8; size as usize];
    let mut rng = Lcg(42);
    for _ in 0..40 {
        let len = 1 + (rng.next() % (3 * MIB)) as usize;
        let pos = rng.next() % (size - len as u64 + 1);
        let buf: Vec<u8> = (0..len).map(|_| rng.next() as u8).collect();
        plain[pos as usize..pos as usize + len].copy_from_slice(&buf);
        assert_eq!(d.write(pos, &buf), Ok(len));
    }
    assert_eq!(d.read(0, size as usize).unwrap(), plain);
    let reopened = MemVDisk::open(d.image.clone()).ok().expect("reopen");
    assert_eq!(reopened.read(0, size as usize).unwrap(), plain);
    assert_eq!(reopened.meta.block_pointers, d.meta.block_pointers);
}

#[test]
fn read_and_write_errors() {
    let mut d = MemVDisk::create(2 * MIB);
    assert_eq!(d.read(2 * MIB + 1, 1), Err(VDiskError::OffsetOutOfRange));
    assert_eq!(d.read(2 * MIB - 1, 2), Err(VDiskError::ReadExceedsDiskSize));
    assert_eq!(d.read(5 * MIB, 0), Ok(vec![]));
    assert_eq!(d.write(2 * MIB + 1, &[1]), Err(VDiskError::OffsetOutOfRange));
    assert_eq!(d.write(2 * MIB - 1, &[1, 2]), Err(VDiskError::WriteExceedsDiskSize));
    assert_eq!(d.write(0, &[]), Ok(0));
    assert_eq!(d.read_block_with_offset(2, 0, 1), Err(VDiskError::BlockIndexOutOfRange));
    assert_eq!(d.read_block_with_offset(1, MIB as usize, 1), Err(VDiskError::OffsetOutOfRange));
    assert_eq!(d.write_block_with_offset(5, 0, &[1]), Err(VDiskError::BlockIndexOutOfRange));
}

#[test]
fn block_writes_stop_at_block_end_and_commit_later() {
    let mut d = MemVDisk::create(2 * MIB);
    let n = d.write_block_with_offset(1, (MIB - 4) as usize, &[9, 9, 9, 9, 9, 9]).unwrap();
    assert_eq!(n, 4);
    assert_eq!(d.meta.uncommitted_blocks, vec![(1, 4096 + 16)]);
    // Not committed yet: the file still reads as having no block.
    let before = MemVDisk::open(d.image.clone()).ok().expect("open uncommitted");
    assert_eq!(before.read(2 * MIB - 5, 5).unwrap(), vec![0u8; 5]);
    d.commit_changes();
    assert!(d.meta.uncommitted_blocks.is_empty());
    let reopened = MemVDisk::open(d.image.clone()).ok().expect("reopen");
    assert_eq!(reopened.read(2 * MIB - 5, 5).unwrap(), vec![0, 9, 9, 9, 9]);
    assert_eq!(d.read_block_with_offset(1, (MIB - 2) as usize, 10).unwrap(), vec![9, 9]);
}

#[test]
fn header_round_trip_and_errors() {
    let serial = [7u8; 32];
    let h = encode_header(5, 2, &serial);
    assert_eq!(h.len(), 4096);
    let parsed = parse_header(&h).ok().expect("parse");
    assert_eq!(parsed.block_count, 5);
    assert_eq!(parsed.allocated_block_count, 2);
    assert_eq!(parsed.serial, serial.to_vec());
    let mut bad = h.clone();
    bad[0] = b'X';
    assert_eq!(parse_header(&bad).err(), Some(VDiskError::InvalidMagic));
    let mut v2 = h.clone();
    v2[4] = 2;
    assert_eq!(parse_header(&v2).err(), Some(VDiskError::UnsupportedVersion));
    assert_eq!(MemVDisk::open(vec![0u8; 100]).err(), Some(VDiskError::FileTooShort));
}

#[test]
fn block_table_checks() {
    let mut table = Vec::new();
    for p in [0u64, 4096 + 24, 4096 + 24 + MIB] {
        table.extend_from_slice(&p.to_le_bytes());
    }
    let ptrs = decode_block_table(&table, 3);
    assert_eq!(ptrs, vec![0, 4096 + 24, 4096 + 24 + MIB]);
    assert!(VDiskMeta::from_table(3, 2, ptrs.clone()).is_ok());
    assert_eq!(VDiskMeta::from_table(3, 1, ptrs.clone()).err(), Some(VDiskError::CorruptBlockTable));
    assert_eq!(
        VDiskMeta::from_table(3, 2, vec![4096 + 24, 0, 4096 + 24]).err(),
        Some(VDiskError::CorruptBlockTable)
    );
    assert_eq!(VDiskMeta::from_table(3, 1, vec![0, 0, 4096 + 25]).err(), Some(VDiskError::CorruptBlockTable));
}

#[test]
fn planned_block_writes() {
    let mut m = VDiskMeta::from_table(2, 0, vec![0, 0]).ok().expect("empty table");
    let w = m.plan_block_write(1, 10, 5).unwrap();
    assert!(w.fresh);
    assert_eq!(w.pointer, 4096 + 16);
    assert_eq!(w.len, 5);
    let again = m.plan_block_write(1, 0, 3 * MIB as usize).unwrap();
    assert!(!again.fresh);
    assert_eq!(again.len, MIB as usize);
    let r = m.plan_block_read(0, 7, 3).unwrap();
    assert_eq!(r.pointer, 0);
    let writes = m.plan_commit();
    assert_eq!(writes.len(), 2);
    assert_eq!(writes[0].pos, 48);
    assert_eq!(writes[0].value, 1);
    assert_eq!(writes[1].pos, 4096 + 8);
    assert_eq!(writes[1].value, 4096 + 16);
    assert!(m.plan_commit().is_empty());
    assert_eq!(VDISK_BLOCK_SIZE, MIB);
}

#[test]
fn stream_cursor() {
    let mut c = VDiskCursor::new();
    assert_eq!(c.position(), 0);
    assert_eq!(c.seek(10, 100), Ok(()));
    assert_eq!(c.seek(101, 100), Err(VDiskError::SeekOutOfRange));
    assert_eq!(c.position(), 10);
    assert_eq!(c.seek_relative(-20, 100), Err(VDiskError::SeekOutOfRange));
    assert_eq!(c.position(), 10);
    assert_eq!(c.seek_relative(-10, 100), Ok(0));
    assert_eq!(c.seek_relative(i64::MAX, 100), Err(VDiskError::SeekOutOfRange));
    assert_eq!(c.seek_relative(95, 100), Ok(95));
    assert_eq!(c.read_span(10, 100), 5);
    assert_eq!(c.write_span(10, 100), Ok(5));
    c.advance(5);
    assert_eq!(c.read_span(10, 100), 0);
    assert_eq!(c.write_span(1, 100), Err(VDiskError::WriteExceedsDiskSize));
    assert_eq!(c.write_span(0, 100), Ok(0));
    assert_eq!(c.seek_from_end(0, 100), Ok(100));
    assert_eq!(c.seek_from_end(-5, 100), Ok(95));
    assert_eq!(c.position(), 95);
    assert_eq!(c.seek_from_end(-100, 100), Ok(0));
    assert_eq!(c.seek_from_end(-101, 100), Err(VDiskError::SeekOutOfRange));
    assert_eq!(c.seek_from_end(3, 100), Err(VDiskError::SeekOutOfRange));
    assert_eq!(c.position(), 0);
}

#[test]
fn segments_split_at_block_boundaries() {
    let disk = 4 * MIB;
    let segs = plan_segments(MIB - 10, 20 + MIB as usize, disk, false).unwrap();
    assert_eq!(
        segs,
        vec![
            Segment { block_index: 0, block_offset: (MIB - 10) as usize, len: 10 },
            Segment { block_index: 1, block_offset: 0, len: MIB as usize },
            Segment { block_index: 2, block_offset: 0, len: 10 },
        ]
    );
    assert_eq!(plan_segments(5, 0, disk, false).unwrap(), vec![]);
    assert_eq!(plan_segments(disk + 1, 1, disk, false), Err(VDiskError::OffsetOutOfRange));
    assert_eq!(plan_segments(disk - 1, 2, disk, false), Err(VDiskError::ReadExceedsDiskSize));
    assert_eq!(plan_segments(disk - 1, 2, disk, true), Err(VDiskError::WriteExceedsDiskSize));
    assert_eq!(
        plan_segments(disk - 1, 1, disk, true).unwrap(),
        vec![Segment { block_index: 3, block_offset: (MIB - 1) as usize, len: 1 }]
    );
}

#[test]
fn refused_write_leaves_disk_alone() {
    let mut d = MemVDisk::create(3 * MIB);
    d.write(10, &[1, 2, 3]).unwrap();
    let before_size = d.file_size();
    let before_image = d.image.clone();
    assert_eq!(d.write(3 * MIB, &[9]), Err(VDiskError::WriteExceedsDiskSize));
    assert_eq!(d.write(3 * MIB + 1, &[9]), Err(VDiskError::OffsetOutOfRange));
    assert_eq!(d.write(2 * MIB, &[]), Ok(0));
    assert_eq!(d.write_block_with_offset(5, 0, &[1]), Err(VDiskError::BlockIndexOutOfRange));
    assert_eq!(d.write_block_with_offset(2, 0, &[]), Ok(0));
    assert_eq!(d.file_size(), before_size);
    assert_eq!(d.image, before_image);
    assert_eq!(VDiskError::WriteExceedsDiskSize.message(), "Write exceeds disk size");
    assert_eq!(VDiskError::CorruptBlockTable.message(), "Corrupt block table");
}

#[test]
fn last_write_wins_and_stream_reads_all() {
    let size = 3 * MIB;
    let mut d = MemVDisk::create(size);
    let mut model = vec![0u8; size as usize];
    let writes: Vec<(u64, Vec<u8>)> =
        vec![(MIB - 5, vec![1; 10]), (MIB, vec![2; 3]), (2 * MIB + 100, vec![3; 50]), (MIB - 2, vec![4; 1])];
    for (at, bytes) in &writes {
        assert_eq!(d.write(*at, bytes), Ok(bytes.len()));
        model[*at as usize..*at as usize + bytes.len()].copy_from_slice(bytes);
    }
    let mut c = VDiskCursor::new();
    let mut streamed = Vec::new();
    loop {
        let n = c.read_span(65536, size);
        if n == 0 {
            break;
        }
        streamed.extend(d.read(c.position(), n).unwrap());
        c.advance(n);
    }
    assert_eq!(streamed, model);
}

#[test]
fn writes_place_exactly_the_blocks_they_reach() {
    let mut d = MemVDisk::create(4 * MIB);
    let header_and_table = d.file_size();
    assert_eq!(d.meta.allocated_block_count, 0);
    assert_eq!(d.write(MIB - 1, &[7, 7]), Ok(2));
    assert_eq!(d.meta.allocated_block_count, 2);
    assert_eq!(d.file_size(), header_and_table + 2 * MIB);
    assert_ne!(d.meta.block_pointers[0], 0);
    assert_ne!(d.meta.block_pointers[1], 0);
    assert_eq!(d.meta.block_pointers[2], 0);
    let placed = d.meta.block_pointers.clone();
    assert_eq!(d.write(MIB + 5, &[1; 10]), Ok(10));
    assert_eq!(d.meta.allocated_block_count, 2);
    assert_eq!(d.meta.block_pointers, placed);
    assert_eq!(d.write(3 * MIB, &[2; 3]), Ok(3));
    assert_eq!(d.meta.allocated_block_count, 3);
    assert_eq!(d.meta.block_pointers[..2], placed[..2]);
    assert_eq!(d.meta.block_pointers[2], 0);
}

#[test]
fn stream_reads_the_whole_disk() {
    let mut d = MemVDisk::create(2 * MIB);
    d.write(MIB - 3, &[5; 6]).unwrap();
    let mut c = VDiskCursor::new();
    let mut all = Vec::new();
    loop {
        let chunk = d.stream_read(&mut c, 300_000).unwrap();
        if chunk.is_empty() {
            break;
        }
        all.extend(chunk);
    }
    assert_eq!(all.len() as u64, 2 * MIB);
    assert_eq!(all, d.read(0, 2 * MIB as usize).unwrap());
    assert_eq!(&all[(MIB - 3) as usize..(MIB + 3) as usize], &[5; 6]);
    assert_eq!(c.position(), 2 * MIB);
}
