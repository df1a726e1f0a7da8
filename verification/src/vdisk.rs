//! A sparse virtual disk stored in a file: a 4 KiB header, a table of block
//! pointers, then the 1 MiB blocks that have been written, in the order they
//! were first written. Blocks never written read as zeros.
//!
//! File format (integers little-endian):
//! magic "GNAF" (4 bytes), version (u32), serial (32 bytes), block count
//! (u64), allocated block count (u64), padded to 4 KiB; then one u64 file
//! offset per block (0 for a block never written); then the blocks.
use vstd::prelude::*;
use vstd::bytes::{
    spec_u64_from_le_bytes, spec_u64_to_le_bytes, spec_u32_from_le_bytes, spec_u32_to_le_bytes,
    u64_from_le_bytes, u64_to_le_bytes, u32_from_le_bytes, u32_to_le_bytes,
    lemma_auto_spec_u64_to_from_le_bytes, lemma_auto_spec_u32_to_from_le_bytes,
};
use vstd::slice::{slice_subrange, slice_to_vec};

verus! {

/// Size of one block of a virtual disk.
pub const VDISK_BLOCK_SIZE: u64 = 1048576;
/// Size of the header at the start of the file.
pub const VDISK_HEADER_SIZE: u64 = 4096;
/// Format version written and accepted.
pub const VDISK_VERSION: u32 = 1;
/// Offset of the serial in the header.
pub const SERIAL_OFFSET: u64 = 8;
/// Length of the serial.
pub const SERIAL_LEN: u64 = 32;
/// Offset of the block count in the header.
pub const BLOCK_COUNT_OFFSET: u64 = 40;
/// Offset of the allocated block count in the header.
pub const ALLOCATED_BLOCKS_OFFSET: u64 = 48;

/// Why a virtual disk operation was refused.
#[derive(Debug, Clone, Copy, PartialEq, Eq, Structural)]
pub enum VDiskError {
    /// The file does not start with "GNAF".
    InvalidMagic,
    /// The file has another format version.
    UnsupportedVersion,
    /// A block index past the last block.
    BlockIndexOutOfRange,
    /// An offset past the end of a block or of the disk.
    OffsetOutOfRange,
    /// A read that would go past the end of the disk.
    ReadExceedsDiskSize,
    /// A write that would go past the end of the disk.
    WriteExceedsDiskSize,
    /// A seek past the end of the disk.
    SeekOutOfRange,
    /// The backing file ends before the header, the table or a block.
    FileTooShort,
    /// The table places two blocks at the same offset, places a block out of
    /// the block area, or does not agree with the allocated block count.
    CorruptBlockTable,
}

impl VDiskError {
    /// The message shown when a virtual disk operation is refused.
    pub fn message(&self) -> (m: String)
        ensures
            match *self {
                VDiskError::InvalidMagic => m@ == "Invalid magic number"@,
                VDiskError::UnsupportedVersion => m@ == "Unsupported version"@,
                VDiskError::BlockIndexOutOfRange => m@ == "Block index out of range"@,
                VDiskError::OffsetOutOfRange => m@ == "Offset out of range"@,
                VDiskError::ReadExceedsDiskSize => m@ == "Read exceeds disk size"@,
                VDiskError::WriteExceedsDiskSize => m@ == "Write exceeds disk size"@,
                VDiskError::SeekOutOfRange => m@ == "Seek position out of range"@,
                VDiskError::FileTooShort => m@ == "File too short"@,
                VDiskError::CorruptBlockTable => m@ == "Corrupt block table"@,
            },
    {
        match *self {
            VDiskError::InvalidMagic => String::from_str("Invalid magic number"),
            VDiskError::UnsupportedVersion => String::from_str("Unsupported version"),
            VDiskError::BlockIndexOutOfRange => String::from_str("Block index out of range"),
            VDiskError::OffsetOutOfRange => String::from_str("Offset out of range"),
            VDiskError::ReadExceedsDiskSize => String::from_str("Read exceeds disk size"),
            VDiskError::WriteExceedsDiskSize => String::from_str("Write exceeds disk size"),
            VDiskError::SeekOutOfRange => String::from_str("Seek position out of range"),
            VDiskError::FileTooShort => String::from_str("File too short"),
            VDiskError::CorruptBlockTable => String::from_str("Corrupt block table"),
        }
    }
}

/// The little-endian `u64` stored at `pos`.
pub open spec fn u64_at(bytes: Seq<u8>, pos: int) -> u64 {
    spec_u64_from_le_bytes(bytes.subrange(pos, pos + 8))
}

/// The header starts with the magic "GNAF".
pub open spec fn magic_ok(header: Seq<u8>) -> bool {
    &&& header[0] == 71u8
    &&& header[1] == 78u8
    &&& header[2] == 65u8
    &&& header[3] == 70u8
}

/// The format version that the header records.
pub open spec fn header_version(header: Seq<u8>) -> u32 {
    spec_u32_from_le_bytes(header.subrange(4, 8))
}

/// The fields of a virtual disk header.
pub struct VDiskHeader {
    pub block_count: u64,
    pub allocated_block_count: u64,
    pub serial: Vec<u8>,
}

/// `r` is what the header bytes `h` say.
pub open spec fn header_parse_is(h: Seq<u8>, r: Result<VDiskHeader, VDiskError>) -> bool {
    if !magic_ok(h) {
        r == Err::<VDiskHeader, VDiskError>(VDiskError::InvalidMagic)
    } else if header_version(h) != VDISK_VERSION {
        r == Err::<VDiskHeader, VDiskError>(VDiskError::UnsupportedVersion)
    } else {
        r matches Ok(hd) && hd.block_count == u64_at(h, BLOCK_COUNT_OFFSET as int)
            && hd.allocated_block_count == u64_at(h, ALLOCATED_BLOCKS_OFFSET as int)
            && hd.serial@ == h.subrange(SERIAL_OFFSET as int, SERIAL_OFFSET + SERIAL_LEN)
    }
}

/// Reads the fields of a 4 KiB header, checking its magic and version.
pub fn parse_header(header: &[u8]) -> (r: Result<VDiskHeader, VDiskError>)
    requires
        header@.len() == VDISK_HEADER_SIZE,
    ensures
        header_parse_is(header@, r),
{
    if !(header[0] == 71u8 && header[1] == 78u8 && header[2] == 65u8 && header[3] == 70u8) {
        return Err(VDiskError::InvalidMagic);
    }
    let version = u32_from_le_bytes(slice_subrange(header, 4, 8));
    if version != VDISK_VERSION {
        return Err(VDiskError::UnsupportedVersion);
    }
    let block_count = u64_from_le_bytes(slice_subrange(header, 40, 48));
    let allocated_block_count = u64_from_le_bytes(slice_subrange(header, 48, 56));
    let serial = slice_to_vec(slice_subrange(header, 8, 40));
    Ok(VDiskHeader { block_count, allocated_block_count, serial })
}

/// Writes `value` little-endian over the 8 bytes at `pos`.
fn put_u64(buf: &mut Vec<u8>, pos: usize, value: u64)
    requires
        pos + 8 <= old(buf)@.len(),
    ensures
        final(buf)@.len() == old(buf)@.len(),
        forall|j: int|
            0 <= j < old(buf)@.len() && !(pos <= j < pos + 8) ==> #[trigger] final(buf)@[j] == old(buf)@[j],
        final(buf)@.subrange(pos as int, pos + 8) == spec_u64_to_le_bytes(value),
        u64_at(final(buf)@, pos as int) == value,
{
    let bytes = u64_to_le_bytes(value);
    let n = buf.len();
    let mut k: usize = 0;
    while k < 8
        invariant
            n == buf@.len(),
            bytes@ == spec_u64_to_le_bytes(value),
            bytes@.len() == 8,
            pos + 8 <= buf@.len(),
            buf@.len() == old(buf)@.len(),
            0 <= k <= 8,
            forall|j: int|
                0 <= j < old(buf)@.len() && !(pos <= j < pos + k) ==> #[trigger] buf@[j] == old(buf)@[j],
            forall|j: int| pos <= j < pos + k ==> #[trigger] buf@[j] == bytes@[j - pos],
        decreases 8 - k,
    {
        buf.set(pos + k, bytes[k]);
        k = k + 1;
    }
    assert(buf@.subrange(pos as int, pos + 8) =~= bytes@);
    proof {
        lemma_auto_spec_u64_to_from_le_bytes();
    }
}

/// The 4 KiB header recording the given fields, zero elsewhere.
pub open spec fn header_encodes(h: Seq<u8>, block_count: u64, allocated: u64, serial: Seq<u8>) -> bool {
    &&& h.len() == VDISK_HEADER_SIZE
    &&& magic_ok(h)
    &&& header_version(h) == VDISK_VERSION
    &&& h.subrange(SERIAL_OFFSET as int, SERIAL_OFFSET + SERIAL_LEN) == serial
    &&& u64_at(h, BLOCK_COUNT_OFFSET as int) == block_count
    &&& u64_at(h, ALLOCATED_BLOCKS_OFFSET as int) == allocated
}

/// Builds the header of a virtual disk.
pub fn encode_header(block_count: u64, allocated: u64, serial: &[u8]) -> (h: Vec<u8>)
    requires
        serial@.len() == SERIAL_LEN,
    ensures
        header_encodes(h@, block_count, allocated, serial@),
        forall|j: int| 56 <= j < VDISK_HEADER_SIZE ==> #[trigger] h@[j] == 0u8,
{
    let mut h: Vec<u8> = vec![0u8; 4096];
    h.set(0, 71u8);
    h.set(1, 78u8);
    h.set(2, 65u8);
    h.set(3, 70u8);
    let version = u32_to_le_bytes(VDISK_VERSION);
    h.set(4, version[0]);
    h.set(5, version[1]);
    h.set(6, version[2]);
    h.set(7, version[3]);
    let mut k: usize = 0;
    while k < 32
        invariant
            h@.len() == 4096,
            serial@.len() == 32,
            version@ == spec_u32_to_le_bytes(VDISK_VERSION),
            version@.len() == 4,
            h@[0] == 71u8 && h@[1] == 78u8 && h@[2] == 65u8 && h@[3] == 70u8,
            h@.subrange(4, 8) == version@,
            0 <= k <= 32,
            forall|j: int| 8 <= j < 8 + k ==> #[trigger] h@[j] == serial@[j - 8],
            forall|j: int| 40 <= j < 4096 ==> #[trigger] h@[j] == 0u8,
        decreases 32 - k,
    {
        h.set(8 + k, serial[k]);
        k = k + 1;
        assert(h@.subrange(4, 8) =~= version@);
    }
    let ghost before = h@;
    put_u64(&mut h, 40, block_count);
    let ghost mid = h@;
    put_u64(&mut h, 48, allocated);
    assert(h@.subrange(40, 48) =~= mid.subrange(40, 48));
    proof {
        lemma_auto_spec_u32_to_from_le_bytes();
        assert(h@.subrange(4, 8) =~= before.subrange(4, 8));
        assert(h@.subrange(8, 40) =~= serial@);
        assert(magic_ok(h@));
        assert(header_version(h@) == VDISK_VERSION);
        assert(h@.subrange(SERIAL_OFFSET as int, SERIAL_OFFSET + SERIAL_LEN) == serial@);
        assert(u64_at(h@, BLOCK_COUNT_OFFSET as int) == block_count);
        assert(u64_at(h@, ALLOCATED_BLOCKS_OFFSET as int) == allocated);
    }
    h
}

/// Reading back a header gives the fields it was built from.
pub proof fn lemma_header_roundtrip(h: Seq<u8>, block_count: u64, allocated: u64, serial: Seq<u8>)
    requires
        header_encodes(h, block_count, allocated, serial),
    ensures
        magic_ok(h),
        header_version(h) == VDISK_VERSION,
        u64_at(h, BLOCK_COUNT_OFFSET as int) == block_count,
        u64_at(h, ALLOCATED_BLOCKS_OFFSET as int) == allocated,
        h.subrange(SERIAL_OFFSET as int, SERIAL_OFFSET + SERIAL_LEN) == serial,
{
}

/// Offset of the first block in a file with `block_count` table entries.
pub open spec fn data_start(block_count: int) -> int {
    VDISK_HEADER_SIZE + 8 * block_count
}

/// Length of a file with `block_count` table entries and `allocated` blocks.
pub open spec fn layout_size(block_count: int, allocated: int) -> int {
    data_start(block_count) + allocated * VDISK_BLOCK_SIZE
}

/// Number of blocks that have a place in the file.
pub open spec fn count_placed(ptrs: Seq<u64>) -> nat
    decreases ptrs.len(),
{
    if ptrs.len() == 0 {
        0
    } else {
        count_placed(ptrs.drop_last()) + if ptrs.last() != 0 { 1nat } else { 0nat }
    }
}

/// Block pointer `p` designates slot `k` of the block area.
pub open spec fn slot_of(block_count: int, p: int) -> int {
    (p - data_start(block_count)) / (VDISK_BLOCK_SIZE as int)
}

/// Every block pointer is 0 or the start of its own slot among the first
/// `allocated` slots of the block area, and `allocated` blocks have a place.
pub open spec fn pointers_placed(block_count: int, allocated: int, ptrs: Seq<u64>) -> bool {
    &&& forall|i: int|
        0 <= i < ptrs.len() && ptrs[i] != 0 ==> {
            &&& data_start(block_count) <= #[trigger] ptrs[i]
            &&& (ptrs[i] - data_start(block_count)) % (VDISK_BLOCK_SIZE as int) == 0
            &&& slot_of(block_count, ptrs[i] as int) < allocated
        }
    &&& forall|i: int, j: int|
        0 <= i < ptrs.len() && 0 <= j < ptrs.len() && i != j && ptrs[i] != 0 ==> #[trigger] ptrs[i]
            != #[trigger] ptrs[j]
    &&& count_placed(ptrs) == allocated
}

/// The blocks placed since the last commit: each is a placed block, listed once.
pub open spec fn uncommitted_ok(ptrs: Seq<u64>, unc: Seq<(u64, u64)>) -> bool {
    &&& forall|u: int|
        0 <= u < unc.len() ==> {
            &&& (#[trigger] unc[u]).0 < ptrs.len()
            &&& ptrs[unc[u].0 as int] == unc[u].1
            &&& unc[u].1 != 0
        }
    &&& forall|u: int, v: int| 0 <= u < unc.len() && 0 <= v < unc.len() && u != v ==> (#[trigger] unc[u]).0 != (#[trigger] unc[v]).0
}

/// Where the blocks of a virtual disk are: its block count, the number of
/// blocks placed in the file, one file offset per block (0 for a block never
/// written), and the blocks placed since the table was last written out.
pub struct VDiskMeta {
    pub block_count: u64,
    pub allocated_block_count: u64,
    pub block_pointers: Vec<u64>,
    pub uncommitted_blocks: Vec<(u64, u64)>,
}

/// How to read part of one block: `len` bytes from the block at `pointer`
/// (a block never written, at pointer 0, reads as zeros).
#[derive(Debug, Clone, Copy, PartialEq, Eq, Structural)]
pub struct BlockRead {
    pub len: usize,
    pub pointer: u64,
}

/// How to write part of one block: `len` bytes into the block at `pointer`;
/// a `fresh` block is placed at the end of the file, and the bytes of it that
/// are not written are zeros.
#[derive(Debug, Clone, Copy, PartialEq, Eq, Structural)]
pub struct BlockWrite {
    pub len: usize,
    pub pointer: u64,
    pub fresh: bool,
}

/// One little-endian `u64` to write at `pos` of the file.
#[derive(Debug, Clone, Copy, PartialEq, Eq, Structural)]
pub struct CommitWrite {
    pub pos: u64,
    pub value: u64,
}

/// Bytes of block `block_offset..` that a request of `len` bytes covers.
pub open spec fn span_in_block(block_offset: int, len: int) -> int {
    if block_offset + len > VDISK_BLOCK_SIZE {
        VDISK_BLOCK_SIZE - block_offset
    } else {
        len
    }
}

proof fn lemma_slot_distinct(bc: int, p: int, q: int)
    requires
        data_start(bc) <= p,
        data_start(bc) <= q,
        (p - data_start(bc)) % (VDISK_BLOCK_SIZE as int) == 0,
        (q - data_start(bc)) % (VDISK_BLOCK_SIZE as int) == 0,
        p != q,
    ensures
        p + VDISK_BLOCK_SIZE <= q || q + VDISK_BLOCK_SIZE <= p,
        slot_of(bc, p) != slot_of(bc, q),
{
    let b = VDISK_BLOCK_SIZE as int;
    let ds = data_start(bc);
    vstd::arithmetic::div_mod::lemma_fundamental_div_mod(p - ds, b);
    vstd::arithmetic::div_mod::lemma_fundamental_div_mod(q - ds, b);
    let kp = (p - ds) / b;
    let kq = (q - ds) / b;
    assert(p - ds == b * kp);
    assert(q - ds == b * kq);
    assert(kp != kq);
    if kp < kq {
        assert(b * kp + b <= b * kq) by (nonlinear_arith)
            requires
                kp < kq,
                b > 0,
        ;
    } else {
        assert(b * kq + b <= b * kp) by (nonlinear_arith)
            requires
                kq < kp,
                b > 0,
        ;
    }
}

/// Placed blocks do not overlap, and each lies within the block area.
pub proof fn lemma_placed_blocks_disjoint(bc: int, alloc: int, ptrs: Seq<u64>, i: int, j: int)
    requires
        pointers_placed(bc, alloc, ptrs),
        0 <= i < ptrs.len(),
        0 <= j < ptrs.len(),
        ptrs[i] != 0,
    ensures
        data_start(bc) <= ptrs[i],
        ptrs[i] + VDISK_BLOCK_SIZE <= layout_size(bc, alloc),
        i != j && ptrs[j] != 0 ==> ptrs[i] + VDISK_BLOCK_SIZE <= ptrs[j] || ptrs[j] + VDISK_BLOCK_SIZE
            <= ptrs[i],
{
    let b = VDISK_BLOCK_SIZE as int;
    let ds = data_start(bc);
    let p = ptrs[i] as int;
    vstd::arithmetic::div_mod::lemma_fundamental_div_mod(p - ds, b);
    let k = (p - ds) / b;
    assert(p - ds == b * k);
    assert(p + b <= ds + alloc * b) by (nonlinear_arith)
        requires
            p - ds == b * k,
            k < alloc,
            b > 0,
    ;
    if i != j && ptrs[j] != 0 {
        assert(ptrs[i] != ptrs[j]);
        lemma_slot_distinct(bc, ptrs[i] as int, ptrs[j] as int);
    }
}

proof fn lemma_count_placed_update(ptrs: Seq<u64>, i: int, v: u64)
    requires
        0 <= i < ptrs.len(),
        ptrs[i] == 0,
        v != 0,
    ensures
        count_placed(ptrs.update(i, v)) == count_placed(ptrs) + 1,
    decreases ptrs.len(),
{
    let n = ptrs.len() as int;
    if i == n - 1 {
        assert(ptrs.update(i, v).drop_last() =~= ptrs.drop_last());
    } else {
        lemma_count_placed_update(ptrs.drop_last(), i, v);
        assert(ptrs.update(i, v).drop_last() =~= ptrs.drop_last().update(i, v));
    }
}

proof fn lemma_count_placed_bound(ptrs: Seq<u64>, i: int)
    requires
        0 <= i < ptrs.len(),
        ptrs[i] == 0,
    ensures
        count_placed(ptrs) < ptrs.len(),
    decreases ptrs.len(),
{
    lemma_count_placed_le(ptrs.drop_last());
    if i < ptrs.len() - 1 {
        lemma_count_placed_bound(ptrs.drop_last(), i);
    }
}

proof fn lemma_count_placed_le(ptrs: Seq<u64>)
    ensures
        count_placed(ptrs) <= ptrs.len(),
    decreases ptrs.len(),
{
    if ptrs.len() > 0 {
        lemma_count_placed_le(ptrs.drop_last());
    }
}

impl VDiskMeta {
    /// Size of the disk in bytes.
    pub open spec fn spec_disk_size(&self) -> int {
        self.block_count * VDISK_BLOCK_SIZE
    }

    /// Length of the backing file.
    pub open spec fn spec_file_size(&self) -> int {
        layout_size(self.block_count as int, self.allocated_block_count as int)
    }

    /// The pointers and counts agree: every block written has its own place
    /// in the file, and the file could hold every block without overflow.
    pub open spec fn wf(&self) -> bool {
        &&& self.block_pointers@.len() == self.block_count
        &&& layout_size(self.block_count as int, self.block_count as int) <= u64::MAX
        &&& pointers_placed(self.block_count as int, self.allocated_block_count as int, self.block_pointers@)
        &&& uncommitted_ok(self.block_pointers@, self.uncommitted_blocks@)
    }

    /// Returns the size of the backing file.
    pub fn file_size(&self) -> (size: u64)
        requires
            self.wf(),
        ensures
            size == self.spec_file_size(),
    {
        proof {
            lemma_count_placed_le(self.block_pointers@);
            assert(self.allocated_block_count * VDISK_BLOCK_SIZE <= self.block_count * VDISK_BLOCK_SIZE)
                by (nonlinear_arith)
                requires
                    self.allocated_block_count <= self.block_count,
            ;
        }
        4096 + self.block_count * 8 + self.allocated_block_count * VDISK_BLOCK_SIZE
    }

    /// Returns the size of the disk.
    pub fn disk_size(&self) -> (size: u64)
        requires
            self.wf(),
        ensures
            size == self.spec_disk_size(),
    {
        self.block_count * VDISK_BLOCK_SIZE
    }

    /// Plans the read of up to `len` bytes of block `block_index` from
    /// `offset` on; the read stops at the end of the block.
    pub fn plan_block_read(&self, block_index: u64, offset: usize, len: usize) -> (r: Result<BlockRead, VDiskError>)
        requires
            self.wf(),
        ensures
            block_index >= self.block_count ==> r == Err::<BlockRead, VDiskError>(VDiskError::BlockIndexOutOfRange),
            block_index < self.block_count && offset >= VDISK_BLOCK_SIZE ==> r == Err::<BlockRead, VDiskError>(
                VDiskError::OffsetOutOfRange,
            ),
            block_index < self.block_count && offset < VDISK_BLOCK_SIZE ==> r == Ok::<BlockRead, VDiskError>(
                BlockRead {
                    len: span_in_block(offset as int, len as int) as usize,
                    pointer: self.block_pointers@[block_index as int],
                },
            ),
    {
        if block_index >= self.block_count {
            return Err(VDiskError::BlockIndexOutOfRange);
        }
        if offset >= VDISK_BLOCK_SIZE as usize {
            return Err(VDiskError::OffsetOutOfRange);
        }
        let n = if len > VDISK_BLOCK_SIZE as usize - offset { VDISK_BLOCK_SIZE as usize - offset } else { len };
        let count = self.block_pointers.len();
        assert(block_index < count);
        Ok(BlockRead { len: n, pointer: self.block_pointers[block_index as usize] })
    }

    /// Plans the write of up to `len` bytes into block `block_index` from
    /// `offset` on; the write stops at the end of the block. A block never
    /// written before is placed at the end of the file and recorded as not
    /// yet committed.
    pub fn plan_block_write(&mut self, block_index: u64, offset: usize, len: usize) -> (r: Result<BlockWrite, VDiskError>)
        requires
            old(self).wf(),
        ensures
            final(self).wf(),
            final(self).block_count == old(self).block_count,
            block_index >= old(self).block_count ==> r == Err::<BlockWrite, VDiskError>(VDiskError::BlockIndexOutOfRange),
            block_index < old(self).block_count && offset >= VDISK_BLOCK_SIZE ==> r == Err::<BlockWrite, VDiskError>(
                VDiskError::OffsetOutOfRange,
            ),
            r is Err ==> *final(self) == *old(self),
            r matches Ok(w) && !w.fresh ==> *final(self) == *old(self),
            block_index < old(self).block_count && offset < VDISK_BLOCK_SIZE ==> r is Ok,
            r matches Ok(w) ==> {
                let n = span_in_block(offset as int, len as int);
                let old_ptr = old(self).block_pointers@[block_index as int];
                &&& w.len == n
                &&& (n == 0 || old_ptr != 0) ==> {
                    &&& final(self).block_pointers@ == old(self).block_pointers@
                    &&& final(self).allocated_block_count == old(self).allocated_block_count
                    &&& final(self).uncommitted_blocks@ == old(self).uncommitted_blocks@
                    &&& !w.fresh
                    &&& n > 0 ==> w.pointer == old_ptr
                }
                &&& (n > 0 && old_ptr == 0) ==> {
                    &&& w.fresh
                    &&& w.pointer == old(self).spec_file_size()
                    &&& final(self).block_pointers@ == old(self).block_pointers@.update(block_index as int, w.pointer)
                    &&& final(self).allocated_block_count == old(self).allocated_block_count + 1
                    &&& final(self).uncommitted_blocks@ == old(self).uncommitted_blocks@.push((block_index, w.pointer))
                }
            },
    {
        if block_index >= self.block_count {
            return Err(VDiskError::BlockIndexOutOfRange);
        }
        if offset >= VDISK_BLOCK_SIZE as usize {
            return Err(VDiskError::OffsetOutOfRange);
        }
        let n = if len > VDISK_BLOCK_SIZE as usize - offset { VDISK_BLOCK_SIZE as usize - offset } else { len };
        if n == 0 {
            return Ok(BlockWrite { len: 0, pointer: 0, fresh: false });
        }
        let count = self.block_pointers.len();
        assert(block_index < count);
        let bi = block_index as usize;
        let pointer = self.block_pointers[bi];
        if pointer != 0 {
            return Ok(BlockWrite { len: n, pointer, fresh: false });
        }
        let ghost old_self = *self;
        proof {
            lemma_count_placed_bound(self.block_pointers@, bi as int);
        }
        let place = self.file_size();
        proof {
            let bc = self.block_count as int;
            let a = self.allocated_block_count as int;
            assert(a < bc);
            assert(a * VDISK_BLOCK_SIZE + VDISK_BLOCK_SIZE <= bc * VDISK_BLOCK_SIZE) by (nonlinear_arith)
                requires
                    a < bc,
            ;
            assert((place - data_start(bc)) == a * VDISK_BLOCK_SIZE);
            vstd::arithmetic::div_mod::lemma_mod_multiples_basic(a, VDISK_BLOCK_SIZE as int);
            vstd::arithmetic::div_mod::lemma_div_multiples_vanish(a, VDISK_BLOCK_SIZE as int);
        }
        self.block_pointers.set(bi, place);
        self.uncommitted_blocks.push((block_index, place));
        self.allocated_block_count = self.allocated_block_count + 1;
        proof {
            let bc = self.block_count as int;
            let old_ptrs = old_self.block_pointers@;
            let ptrs = self.block_pointers@;
            lemma_count_placed_update(old_ptrs, bi as int, place);
            assert(ptrs == old_ptrs.update(bi as int, place));
            assert forall|i: int| 0 <= i < ptrs.len() && ptrs[i] != 0 implies {
                &&& data_start(bc) <= #[trigger] ptrs[i]
                &&& (ptrs[i] - data_start(bc)) % (VDISK_BLOCK_SIZE as int) == 0
                &&& slot_of(bc, ptrs[i] as int) < self.allocated_block_count
            } by {
                if i != bi {
                    assert(ptrs[i] == old_ptrs[i]);
                }
            }
            assert forall|i: int, j: int|
                0 <= i < ptrs.len() && 0 <= j < ptrs.len() && i != j && ptrs[i] != 0 implies #[trigger] ptrs[i]
                != #[trigger] ptrs[j] by {
                if i == bi {
                    if ptrs[j] != 0 {
                        assert(old_ptrs[j] == ptrs[j]);
                        lemma_placed_blocks_disjoint(bc, old_self.allocated_block_count as int, old_ptrs, j, j);
                    }
                } else if j == bi {
                    assert(old_ptrs[i] == ptrs[i]);
                    lemma_placed_blocks_disjoint(bc, old_self.allocated_block_count as int, old_ptrs, i, i);
                } else {
                    assert(old_ptrs[i] == ptrs[i] && old_ptrs[j] == ptrs[j]);
                }
            }
            let unc = self.uncommitted_blocks@;
            let old_unc = old_self.uncommitted_blocks@;
            assert forall|u: int| 0 <= u < unc.len() implies {
                &&& (#[trigger] unc[u]).0 < ptrs.len()
                &&& ptrs[unc[u].0 as int] == unc[u].1
                &&& unc[u].1 != 0
            } by {
                if u < old_unc.len() {
                    assert(unc[u] == old_unc[u]);
                    assert(old_ptrs[old_unc[u].0 as int] != 0);
                }
            }
            assert forall|u: int, v: int| 0 <= u < unc.len() && 0 <= v < unc.len() && u != v implies (#[trigger] unc[u]).0
                != (#[trigger] unc[v]).0 by {
                if u < old_unc.len() && v < old_unc.len() {
                    assert(unc[u] == old_unc[u] && unc[v] == old_unc[v]);
                } else if u < old_unc.len() {
                    assert(unc[u] == old_unc[u]);
                    assert(old_ptrs[old_unc[u].0 as int] != 0);
                } else if v < old_unc.len() {
                    assert(unc[v] == old_unc[v]);
                    assert(old_ptrs[old_unc[v].0 as int] != 0);
                }
            }
        }
        Ok(BlockWrite { len: n, pointer: place, fresh: true })
    }
}

/// Entries ordered by strictly increasing block index.
pub open spec fn sorted_by_block(v: Seq<(u64, u64)>) -> bool {
    forall|a: int, b: int| 0 <= a < b < v.len() ==> (#[trigger] v[a]).0 < (#[trigger] v[b]).0
}

/// Inserts `e` into entries ordered by block index, keeping the order.
fn insert_by_block_index(out: &mut Vec<(u64, u64)>, e: (u64, u64))
    requires
        sorted_by_block(old(out)@),
        forall|t: int| 0 <= t < old(out)@.len() ==> (#[trigger] old(out)@[t]).0 != e.0,
    ensures
        sorted_by_block(final(out)@),
        final(out)@.to_multiset() == old(out)@.to_multiset().insert(e),
{
    broadcast use vstd::seq_lib::group_to_multiset_ensures;
    let mut k: usize = 0;
    while k < out.len() && out[k].0 < e.0
        invariant
            0 <= k <= out@.len(),
            forall|t: int| 0 <= t < k ==> (#[trigger] out@[t]).0 < e.0,
        decreases out@.len() - k,
    {
        k = k + 1;
    }
    let ghost before = out@;
    proof {
        assert forall|t: int| k <= t < before.len() implies (#[trigger] before[t]).0 > e.0 by {
            if t > k {
                assert(before[k as int].0 < before[t].0);
            }
        }
    }
    out.insert(k, e);
    proof {
        assert(out@ == before.insert(k as int, e));
        assert forall|a: int, b: int| 0 <= a < b < out@.len() implies (#[trigger] out@[a]).0 < (#[trigger] out@[b]).0 by {
            if a < k && b < k {
                assert(out@[a] == before[a] && out@[b] == before[b]);
            } else if a < k && b == k {
                assert(out@[a] == before[a]);
            } else if a < k {
                assert(out@[a] == before[a] && out@[b] == before[b - 1]);
            } else if a == k {
                assert(out@[b] == before[b - 1]);
            } else {
                assert(out@[a] == before[a - 1] && out@[b] == before[b - 1]);
            }
        }
    }
}

/// Orders entries with distinct block indices by block index.
fn sort_by_block_index(v: &Vec<(u64, u64)>) -> (out: Vec<(u64, u64)>)
    requires
        forall|u: int, w: int| 0 <= u < v@.len() && 0 <= w < v@.len() && u != w ==> (#[trigger] v@[u]).0
            != (#[trigger] v@[w]).0,
    ensures
        sorted_by_block(out@),
        out@.to_multiset() == v@.to_multiset(),
{
    broadcast use vstd::seq_lib::group_to_multiset_ensures;
    let mut out: Vec<(u64, u64)> = Vec::new();
    let mut i: usize = 0;
    assert(v@.take(0).to_multiset() =~= out@.to_multiset());
    while i < v.len()
        invariant
            forall|u: int, w: int| 0 <= u < v@.len() && 0 <= w < v@.len() && u != w ==> (#[trigger] v@[u]).0
                != (#[trigger] v@[w]).0,
            0 <= i <= v@.len(),
            sorted_by_block(out@),
            out@.to_multiset() == v@.take(i as int).to_multiset(),
        decreases v@.len() - i,
    {
        let e = v[i];
        proof {
            assert forall|t: int| 0 <= t < out@.len() implies (#[trigger] out@[t]).0 != e.0 by {
                assert(out@.contains(out@[t]));
                vstd::seq_lib::to_multiset_contains(out@, out@[t]);
                vstd::seq_lib::to_multiset_contains(v@.take(i as int), out@[t]);
                assert(v@.take(i as int).contains(out@[t]));
                let u = choose|u: int| 0 <= u < i && v@.take(i as int)[u] == out@[t];
                assert(v@[u] == out@[t]);
            }
        }
        insert_by_block_index(&mut out, e);
        proof {
            assert(v@.take(i + 1) =~= v@.take(i as int).push(e));
            vstd::seq_lib::to_multiset_build(v@.take(i as int), e);
        }
        i = i + 1;
    }
    assert(v@.take(v@.len() as int) =~= v@);
    out
}

/// The write of the table entry of one placed block.
pub open spec fn table_write(e: (u64, u64)) -> CommitWrite {
    CommitWrite { pos: (VDISK_HEADER_SIZE + 8 * e.0) as u64, value: e.1 }
}

/// The writes that record in the file the blocks placed since the last
/// commit: the allocated block count, then the table entry of each block.
pub open spec fn commit_writes_ok(writes: Seq<CommitWrite>, allocated: u64, unc: Seq<(u64, u64)>) -> bool {
    &&& unc.len() == 0 ==> writes.len() == 0
    &&& unc.len() > 0 ==> {
        &&& writes.len() == unc.len() + 1
        &&& writes[0] == (CommitWrite { pos: ALLOCATED_BLOCKS_OFFSET, value: allocated })
        &&& forall|a: int, b: int| 1 <= a < b < writes.len() ==> (#[trigger] writes[a]).pos < (#[trigger] writes[b]).pos
        &&& forall|k: int| 1 <= k < writes.len() ==> unc.map_values(|e: (u64, u64)| table_write(e)).contains(#[trigger] writes[k])
        &&& forall|u: int| 0 <= u < unc.len() ==> writes.contains(table_write(#[trigger] unc[u]))
    }
}

impl VDiskMeta {
    /// Plans the writes that record the blocks placed since the last commit,
    /// table entries in order of block index, and forgets them.
    pub fn plan_commit(&mut self) -> (writes: Vec<CommitWrite>)
        requires
            old(self).wf(),
        ensures
            final(self).wf(),
            final(self).block_count == old(self).block_count,
            final(self).allocated_block_count == old(self).allocated_block_count,
            final(self).block_pointers@ == old(self).block_pointers@,
            final(self).uncommitted_blocks@.len() == 0,
            commit_writes_ok(writes@, old(self).allocated_block_count, old(self).uncommitted_blocks@),
    {
        let mut writes: Vec<CommitWrite> = Vec::new();
        if self.uncommitted_blocks.len() == 0 {
            return writes;
        }
        let ghost unc = self.uncommitted_blocks@;
        writes.push(CommitWrite { pos: 48, value: self.allocated_block_count });
        let sorted = sort_by_block_index(&self.uncommitted_blocks);
        let mut i: usize = 0;
        while i < sorted.len()
            invariant
                self.wf(),
                unc == self.uncommitted_blocks@,
                sorted_by_block(sorted@),
                sorted@.to_multiset() == unc.to_multiset(),
                0 <= i <= sorted@.len(),
                writes@.len() == i + 1,
                writes@[0] == (CommitWrite { pos: ALLOCATED_BLOCKS_OFFSET, value: self.allocated_block_count }),
                forall|k: int| 1 <= k < writes@.len() ==> (#[trigger] writes@[k]).pos == VDISK_HEADER_SIZE + 8
                    * sorted@[k - 1].0 && writes@[k].value == sorted@[k - 1].1,
            decreases sorted@.len() - i,
        {
            let e = sorted[i];
            proof {
                broadcast use vstd::seq_lib::group_to_multiset_ensures;
                assert(sorted@.contains(sorted@[i as int]));
                vstd::seq_lib::to_multiset_contains(sorted@, sorted@[i as int]);
                vstd::seq_lib::to_multiset_contains(unc, sorted@[i as int]);
                assert(unc.contains(sorted@[i as int]));
                let u = choose|u: int| 0 <= u < unc.len() && unc[u] == sorted@[i as int];
                assert(e.0 < self.block_count);
                assert(8 * e.0 + 4096 <= layout_size(self.block_count as int, self.block_count as int)) by (nonlinear_arith)
                    requires
                        e.0 < self.block_count,
                        layout_size(self.block_count as int, self.block_count as int) == 4096 + 8 * self.block_count
                            + self.block_count * VDISK_BLOCK_SIZE,
                ;
            }
            writes.push(CommitWrite { pos: 4096 + e.0 * 8, value: e.1 });
            i = i + 1;
        }
        proof {
            broadcast use vstd::seq_lib::group_to_multiset_ensures;
            vstd::seq_lib::to_multiset_len(sorted@);
            vstd::seq_lib::to_multiset_len(unc);
            assert(sorted@.len() == unc.len());
            assert forall|a: int, b: int| 1 <= a < b < writes@.len() implies (#[trigger] writes@[a]).pos
                < (#[trigger] writes@[b]).pos by {
                assert(sorted@[a - 1].0 < sorted@[b - 1].0);
            }
            let tw = unc.map_values(|e: (u64, u64)| table_write(e));
            assert forall|k: int| 1 <= k < writes@.len() implies tw.contains(#[trigger] writes@[k]) by {
                assert(sorted@.contains(sorted@[k - 1]));
                vstd::seq_lib::to_multiset_contains(sorted@, sorted@[k - 1]);
                vstd::seq_lib::to_multiset_contains(unc, sorted@[k - 1]);
                assert(unc.contains(sorted@[k - 1]));
                let u = choose|u: int| 0 <= u < unc.len() && unc[u] == sorted@[k - 1];
                assert(tw[u] == writes@[k]);
            }
            assert forall|u: int| 0 <= u < unc.len() implies writes@.contains(table_write(#[trigger] unc[u])) by {
                assert(unc.contains(unc[u]));
                vstd::seq_lib::to_multiset_contains(unc, unc[u]);
                vstd::seq_lib::to_multiset_contains(sorted@, unc[u]);
                assert(sorted@.contains(unc[u]));
                let k = choose|k: int| 0 <= k < sorted@.len() && sorted@[k] == unc[u];
                assert(writes@[k + 1] == table_write(unc[u]));
            }
        }
        self.uncommitted_blocks = Vec::new();
        writes
    }
}

/// Byte `p` of a disk whose blocks are placed at `ptrs` in the file `image`:
/// zero for a block never written.
pub open spec fn disk_byte(image: Seq<u8>, ptrs: Seq<u64>, p: int) -> u8 {
    let ptr = ptrs[p / (VDISK_BLOCK_SIZE as int)];
    if ptr == 0 {
        0u8
    } else {
        image[ptr + p % (VDISK_BLOCK_SIZE as int)]
    }
}

/// `c` with the bytes at `at..at + data.len()` replaced by `data`.
pub open spec fn overwrite(c: Seq<u8>, at: int, data: Seq<u8>) -> Seq<u8> {
    Seq::new(c.len(), |p: int| if at <= p < at + data.len() { data[p - at] } else { c[p] })
}

/// Some block placed since the last commit is block `i`.
pub open spec fn is_uncommitted(unc: Seq<(u64, u64)>, i: int) -> bool {
    exists|u: int| 0 <= u < unc.len() && (#[trigger] unc[u]).0 == i
}

/// The table entry of block `i` in the file.
pub open spec fn table_entry(image: Seq<u8>, i: int) -> u64 {
    u64_at(image, VDISK_HEADER_SIZE + 8 * i)
}

proof fn lemma_position(p: int, bc: int)
    requires
        0 <= p < bc * VDISK_BLOCK_SIZE,
    ensures
        0 <= p / (VDISK_BLOCK_SIZE as int) < bc,
        0 <= p % (VDISK_BLOCK_SIZE as int) < VDISK_BLOCK_SIZE,
        p == (p / (VDISK_BLOCK_SIZE as int)) * VDISK_BLOCK_SIZE + p % (VDISK_BLOCK_SIZE as int),
{
}

proof fn lemma_position_in_block(p: int, q: int, r: int)
    requires
        0 <= r < VDISK_BLOCK_SIZE,
        p == q * VDISK_BLOCK_SIZE + r,
    ensures
        p / (VDISK_BLOCK_SIZE as int) == q,
        p % (VDISK_BLOCK_SIZE as int) == r,
{
    vstd::arithmetic::div_mod::lemma_fundamental_div_mod_converse(p, VDISK_BLOCK_SIZE as int, q, r);
}

/// A virtual disk whose backing file is held in memory.
pub struct MemVDisk {
    pub meta: VDiskMeta,
    pub serial: Vec<u8>,
    pub image: Vec<u8>,
}

/// Writing into block `b` placed it if it had no place yet, and changed no
/// other block's place: `after` has block `b` placed, at the place it had if
/// it had one, and one more block allocated if it had none.
pub open spec fn places_block(before: VDiskMeta, after: VDiskMeta, b: int) -> bool {
    let p = before.block_pointers@;
    let q = after.block_pointers@;
    &&& q.len() == p.len()
    &&& 0 <= b < p.len()
    &&& forall|i: int| 0 <= i < p.len() && i != b ==> #[trigger] q[i] == p[i]
    &&& q[b] != 0
    &&& p[b] != 0 ==> q[b] == p[b]
    &&& after.allocated_block_count == before.allocated_block_count + if p[b] == 0 {
        1int
    } else {
        0int
    }
}

/// Block `i` holds some of the bytes `a..b` of the disk.
pub open spec fn block_meets(i: int, a: int, b: int) -> bool {
    &&& a < b
    &&& i * VDISK_BLOCK_SIZE < b
    &&& a < (i + 1) * VDISK_BLOCK_SIZE
}

/// Number of blocks that hold some of the bytes `a..b` and have no place.
pub open spec fn unplaced_met(ptrs: Seq<u64>, a: int, b: int) -> nat
    decreases ptrs.len(),
{
    if ptrs.len() == 0 {
        0
    } else {
        unplaced_met(ptrs.drop_last(), a, b) + if ptrs.last() == 0 && block_meets(ptrs.len() - 1, a, b) {
            1nat
        } else {
            0nat
        }
    }
}

/// Writing the bytes `a..b` placed exactly the blocks they reach that had no
/// place yet: every block they reach has a place, every other block and
/// every block placed before keeps its place, and the allocated count grows
/// by the number of blocks newly placed.
pub open spec fn places_blocks_of(before: VDiskMeta, after: VDiskMeta, a: int, b: int) -> bool {
    let p = before.block_pointers@;
    let q = after.block_pointers@;
    &&& q.len() == p.len()
    &&& forall|i: int| 0 <= i < p.len() && block_meets(i, a, b) ==> #[trigger] q[i] != 0
    &&& forall|i: int| 0 <= i < p.len() && !block_meets(i, a, b) ==> #[trigger] q[i] == p[i]
    &&& forall|i: int| 0 <= i < p.len() && p[i] != 0 ==> #[trigger] q[i] == p[i]
    &&& after.allocated_block_count == before.allocated_block_count + unplaced_met(p, a, b)
}

proof fn lemma_unplaced_met_same(ptrs: Seq<u64>, a: int, b1: int, b2: int)
    requires
        forall|i: int| 0 <= i < ptrs.len() ==> block_meets(i, a, b1) == block_meets(i, a, b2),
    ensures
        unplaced_met(ptrs, a, b1) == unplaced_met(ptrs, a, b2),
    decreases ptrs.len(),
{
    if ptrs.len() > 0 {
        lemma_unplaced_met_same(ptrs.drop_last(), a, b1, b2);
        assert(block_meets(ptrs.len() - 1, a, b1) == block_meets(ptrs.len() - 1, a, b2));
    }
}

proof fn lemma_unplaced_met_extend(ptrs: Seq<u64>, a: int, b1: int, b2: int, bi: int)
    requires
        0 <= bi < ptrs.len(),
        !block_meets(bi, a, b1),
        forall|i: int| 0 <= i < ptrs.len() ==> block_meets(i, a, b2) == (block_meets(i, a, b1) || i == bi),
    ensures
        unplaced_met(ptrs, a, b2) == unplaced_met(ptrs, a, b1) + if ptrs[bi] == 0 {
            1int
        } else {
            0int
        },
    decreases ptrs.len(),
{
    let l = ptrs.len() - 1;
    let d = ptrs.drop_last();
    if bi == l {
        assert forall|i: int| 0 <= i < d.len() implies block_meets(i, a, b1) == block_meets(i, a, b2) by {
            assert(block_meets(i, a, b2) == (block_meets(i, a, b1) || i == bi));
        }
        lemma_unplaced_met_same(d, a, b1, b2);
    } else {
        assert(d[bi] == ptrs[bi]);
        lemma_unplaced_met_extend(d, a, b1, b2, bi);
        assert(block_meets(l, a, b2) == block_meets(l, a, b1));
    }
}

proof fn lemma_unplaced_met_empty(ptrs: Seq<u64>, a: int)
    ensures
        unplaced_met(ptrs, a, a) == 0,
    decreases ptrs.len(),
{
    if ptrs.len() > 0 {
        lemma_unplaced_met_empty(ptrs.drop_last(), a);
    }
}

/// Writing `n` bytes of block `bi` from its offset `bo`, at disk position
/// `pos`, extends the bytes written so far, `a..pos`, by block `bi` alone.
proof fn lemma_meets_step(a: int, pos: int, bi: int, bo: int, n: int)
    requires
        0 <= a <= pos,
        pos == bi * VDISK_BLOCK_SIZE + bo,
        0 <= bo < VDISK_BLOCK_SIZE,
        0 < n <= VDISK_BLOCK_SIZE - bo,
        pos == a || bo == 0,
    ensures
        !block_meets(bi, a, pos),
        forall|i: int| block_meets(i, a, pos + n) == (block_meets(i, a, pos) || i == bi),
{
    assert forall|i: int| block_meets(i, a, pos + n) == (block_meets(i, a, pos) || i == bi) by {
        if block_meets(i, a, pos + n) && !block_meets(i, a, pos) {
            assert(i * VDISK_BLOCK_SIZE < pos + n);
            assert(i * VDISK_BLOCK_SIZE < (bi + 1) * VDISK_BLOCK_SIZE);
            if pos == a {
                assert(a < (i + 1) * VDISK_BLOCK_SIZE);
                assert(bi * VDISK_BLOCK_SIZE < (i + 1) * VDISK_BLOCK_SIZE);
            } else {
                assert(i * VDISK_BLOCK_SIZE >= pos);
            }
        }
    }
}

impl MemVDisk {
    /// The file holds the header, the table as last committed, and the
    /// placed blocks.
    pub open spec fn image_ok(&self) -> bool {
        let bc = self.meta.block_count as int;
        let ptrs = self.meta.block_pointers@;
        let unc = self.meta.uncommitted_blocks@;
        &&& self.meta.wf()
        &&& layout_size(bc, bc) <= usize::MAX
        &&& self.serial@.len() == SERIAL_LEN
        &&& self.image@.len() == self.meta.spec_file_size()
        &&& magic_ok(self.image@)
        &&& header_version(self.image@) == VDISK_VERSION
        &&& self.image@.subrange(SERIAL_OFFSET as int, SERIAL_OFFSET + SERIAL_LEN) == self.serial@
        &&& u64_at(self.image@, BLOCK_COUNT_OFFSET as int) == bc
        &&& u64_at(self.image@, ALLOCATED_BLOCKS_OFFSET as int) == self.meta.allocated_block_count - unc.len()
        &&& forall|i: int|
            0 <= i < bc ==> #[trigger] table_entry(self.image@, i) == if is_uncommitted(unc, i) {
                0
            } else {
                ptrs[i]
            }
    }

    /// The bytes of the disk.
    pub open spec fn contents(&self) -> Seq<u8> {
        Seq::new(
            (self.meta.block_count * VDISK_BLOCK_SIZE) as nat,
            |p: int| disk_byte(self.image@, self.meta.block_pointers@, p),
        )
    }

    /// Nothing has been placed since the table was last written out.
    pub open spec fn committed(&self) -> bool {
        self.meta.uncommitted_blocks@.len() == 0
    }

    /// Creates an empty virtual disk of at least `size` bytes: a whole
    /// number of 1 MiB blocks, all reading as zeros.
    pub fn create(size: u64) -> (d: Self)
        requires
            size <= u64::MAX - (VDISK_BLOCK_SIZE - 1),
            ({
                let bc = (size + VDISK_BLOCK_SIZE - 1) / (VDISK_BLOCK_SIZE as int);
                layout_size(bc, bc) <= usize::MAX && layout_size(bc, bc) <= u64::MAX
            }),
        ensures
            d.image_ok(),
            d.committed(),
            d.meta.block_count == (size + VDISK_BLOCK_SIZE - 1) / (VDISK_BLOCK_SIZE as int),
            d.meta.allocated_block_count == 0,
            d.contents() == Seq::new((d.meta.block_count * VDISK_BLOCK_SIZE) as nat, |p: int| 0u8),
    {
        let block_count = (size + VDISK_BLOCK_SIZE - 1) / VDISK_BLOCK_SIZE;
        let serial: Vec<u8> = vec![0u8; 32];
        let header = encode_header(block_count, 0, serial.as_slice());
        let mut image = header;
        let table_len = (block_count * 8) as usize;
        let mut k: usize = 0;
        assert(image@.subrange(0, 4096) =~= image@);
        while k < table_len
            invariant
                table_len == block_count * 8,
                0 <= k <= table_len,
                image@.len() == VDISK_HEADER_SIZE + k,
                header_encodes(image@.subrange(0, 4096), block_count, 0, serial@),
                forall|j: int| 4096 <= j < 4096 + k ==> #[trigger] image@[j] == 0u8,
            decreases table_len - k,
        {
            let ghost before = image@;
            image.push(0u8);
            assert(image@.subrange(0, 4096) =~= before.subrange(0, 4096));
            k = k + 1;
        }
        let mut pointers: Vec<u64> = Vec::new();
        let mut i: u64 = 0;
        while i < block_count
            invariant
                0 <= i <= block_count,
                pointers@.len() == i,
                forall|j: int| 0 <= j < i ==> #[trigger] pointers@[j] == 0u64,
            decreases block_count - i,
        {
            pointers.push(0u64);
            i = i + 1;
        }
        let meta = VDiskMeta {
            block_count,
            allocated_block_count: 0,
            block_pointers: pointers,
            uncommitted_blocks: Vec::new(),
        };
        let d = MemVDisk { meta, serial, image };
        proof {
            let h = image@.subrange(0, 4096);
            assert(image@.subrange(0, 4) =~= h.subrange(0, 4));
            assert(header_version(image@) == header_version(h)) by {
                assert(image@.subrange(4, 8) =~= h.subrange(4, 8));
            }
            assert(image@.subrange(8, 40) =~= h.subrange(8, 40));
            assert(image@.subrange(40, 48) =~= h.subrange(40, 48));
            assert(image@.subrange(48, 56) =~= h.subrange(48, 56));
            assert(count_placed(pointers@) == 0) by {
                lemma_count_placed_zero(pointers@);
            }
            assert forall|j: int| 0 <= j < block_count implies #[trigger] table_entry(image@, j) == 0 by {
                assert(image@.subrange(4096 + 8 * j, 4096 + 8 * j + 8) =~= seq![0u8, 0u8, 0u8, 0u8, 0u8, 0u8, 0u8, 0u8]);
                lemma_u64_zero();
            }
            assert(d.contents() =~= Seq::new((block_count * VDISK_BLOCK_SIZE) as nat, |p: int| 0u8)) by {
                assert forall|p: int| 0 <= p < block_count * VDISK_BLOCK_SIZE implies
                    #[trigger] disk_byte(image@, pointers@, p) == 0u8 by {
                    lemma_position(p, block_count as int);
                }
            }
        }
        d
    }

    /// Size of the disk in bytes.
    pub fn size(&self) -> (s: u64)
        requires
            self.image_ok(),
        ensures
            s == self.contents().len(),
    {
        self.meta.disk_size()
    }

    /// Size of the backing file.
    pub fn file_size(&self) -> (s: u64)
        requires
            self.image_ok(),
        ensures
            s == self.image@.len(),
    {
        self.meta.file_size()
    }

    /// Reads up to `len` bytes of block `block_index` from `offset` on; the
    /// read stops at the end of the block.
    pub fn read_block_with_offset(&self, block_index: u64, offset: usize, len: usize) -> (r: Result<Vec<u8>, VDiskError>)
        requires
            self.image_ok(),
        ensures
            block_index >= self.meta.block_count ==> r == Err::<Vec<u8>, VDiskError>(VDiskError::BlockIndexOutOfRange),
            block_index < self.meta.block_count && offset >= VDISK_BLOCK_SIZE ==> r == Err::<Vec<u8>, VDiskError>(
                VDiskError::OffsetOutOfRange,
            ),
            block_index < self.meta.block_count && offset < VDISK_BLOCK_SIZE ==> (r matches Ok(bytes)
                && bytes@ == self.contents().subrange(
                block_index * VDISK_BLOCK_SIZE + offset,
                block_index * VDISK_BLOCK_SIZE + offset + span_in_block(offset as int, len as int),
            )),
    {
        let plan = self.meta.plan_block_read(block_index, offset, len)?;
        let ghost base = block_index * VDISK_BLOCK_SIZE + offset;
        let ghost c = self.contents();
        proof {
            assert(block_index * VDISK_BLOCK_SIZE + VDISK_BLOCK_SIZE <= self.meta.block_count * VDISK_BLOCK_SIZE)
                by (nonlinear_arith)
                requires
                    block_index < self.meta.block_count,
            ;
        }
        let mut out: Vec<u8> = Vec::new();
        if plan.pointer == 0 {
            let mut j: usize = 0;
            while j < plan.len
                invariant
                    self.image_ok(),
                    c == self.contents(),
                    plan.pointer == 0,
                    plan.pointer == self.meta.block_pointers@[block_index as int],
                    block_index < self.meta.block_count,
                    offset + plan.len <= VDISK_BLOCK_SIZE,
                    base == block_index * VDISK_BLOCK_SIZE + offset,
                    base + plan.len <= c.len(),
                    0 <= j <= plan.len,
                    out@ == c.subrange(base, base + j),
                decreases plan.len - j,
            {
                proof {
                    lemma_position_in_block(base + j, block_index as int, offset + j);
                }
                out.push(0u8);
                j = j + 1;
                assert(out@ =~= c.subrange(base, base + j));
            }
        } else {
            proof {
                lemma_placed_blocks_disjoint(self.meta.block_count as int, self.meta.allocated_block_count as int,
                    self.meta.block_pointers@, block_index as int, block_index as int);
            }
            let ilen = self.image.len();
            assert(plan.pointer + VDISK_BLOCK_SIZE <= ilen);
            let start = (plan.pointer as usize) + offset;
            let mut j: usize = 0;
            while j < plan.len
                invariant
                    self.image_ok(),
                    c == self.contents(),
                    plan.pointer != 0,
                    plan.pointer == self.meta.block_pointers@[block_index as int],
                    plan.pointer + VDISK_BLOCK_SIZE <= self.image@.len(),
                    ilen == self.image@.len(),
                    start == plan.pointer + offset,
                    block_index < self.meta.block_count,
                    offset + plan.len <= VDISK_BLOCK_SIZE,
                    base == block_index * VDISK_BLOCK_SIZE + offset,
                    base + plan.len <= c.len(),
                    0 <= j <= plan.len,
                    out@ == c.subrange(base, base + j),
                decreases plan.len - j,
            {
                proof {
                    lemma_position_in_block(base + j, block_index as int, offset + j);
                }
                out.push(self.image[start + j]);
                j = j + 1;
                assert(out@ =~= c.subrange(base, base + j));
            }
        }
        Ok(out)
    }
}

proof fn lemma_count_placed_zero(ptrs: Seq<u64>)
    requires
        forall|j: int| 0 <= j < ptrs.len() ==> #[trigger] ptrs[j] == 0u64,
    ensures
        count_placed(ptrs) == 0,
    decreases ptrs.len(),
{
    if ptrs.len() > 0 {
        lemma_count_placed_zero(ptrs.drop_last());
    }
}

proof fn lemma_u64_zero()
    ensures
        spec_u64_from_le_bytes(seq![0u8, 0u8, 0u8, 0u8, 0u8, 0u8, 0u8, 0u8]) == 0,
{
    lemma_auto_spec_u64_to_from_le_bytes();
    let z = spec_u64_to_le_bytes(0u64);
    assert(z =~= seq![0u8, 0u8, 0u8, 0u8, 0u8, 0u8, 0u8, 0u8]) by {
        vstd::bytes::spec_u64_to_le_bytes_to_open(0u64);
        assert((0u64 & 0xff) as u8 == 0u8) by (bit_vector);
        assert(((0u64 >> 8) & 0xff) as u8 == 0u8) by (bit_vector);
        assert(((0u64 >> 16) & 0xff) as u8 == 0u8) by (bit_vector);
        assert(((0u64 >> 24) & 0xff) as u8 == 0u8) by (bit_vector);
        assert(((0u64 >> 32) & 0xff) as u8 == 0u8) by (bit_vector);
        assert(((0u64 >> 40) & 0xff) as u8 == 0u8) by (bit_vector);
        assert(((0u64 >> 48) & 0xff) as u8 == 0u8) by (bit_vector);
        assert(((0u64 >> 56) & 0xff) as u8 == 0u8) by (bit_vector);
    }
}

/// Disk bytes seen through the block pointers `ptrs` in the file `image`.
pub open spec fn disk_view(image: Seq<u8>, ptrs: Seq<u64>, bc: int) -> Seq<u8> {
    Seq::new((bc * VDISK_BLOCK_SIZE) as nat, |p: int| disk_byte(image, ptrs, p))
}

/// Writing bytes inside a placed block changes exactly those bytes of the disk.
proof fn lemma_in_place_view(
    old_image: Seq<u8>,
    new_image: Seq<u8>,
    ptrs: Seq<u64>,
    bc: int,
    alloc: int,
    bi: int,
    off: int,
    data: Seq<u8>,
)
    requires
        pointers_placed(bc, alloc, ptrs),
        ptrs.len() == bc,
        0 <= bi < bc,
        ptrs[bi] != 0,
        0 <= off,
        off + data.len() <= VDISK_BLOCK_SIZE,
        old_image.len() == layout_size(bc, alloc),
        new_image.len() == old_image.len(),
        forall|t: int|
            0 <= t < new_image.len() ==> #[trigger] new_image[t] == if ptrs[bi] + off <= t < ptrs[bi] + off
                + data.len() {
                data[t - ptrs[bi] - off]
            } else {
                old_image[t]
            },
    ensures
        disk_view(new_image, ptrs, bc) == overwrite(disk_view(old_image, ptrs, bc), bi * VDISK_BLOCK_SIZE + off, data),
{
    let b = VDISK_BLOCK_SIZE as int;
    let nv = disk_view(new_image, ptrs, bc);
    let ov = overwrite(disk_view(old_image, ptrs, bc), bi * b + off, data);
    assert forall|p: int| 0 <= p < bc * b implies nv[p] == ov[p] by {
        lemma_position(p, bc);
        let q = p / b;
        let r = p % b;
        if ptrs[q] != 0 {
            lemma_placed_blocks_disjoint(bc, alloc, ptrs, q, bi);
        }
        if q == bi {
            assert(bi * b + off <= p < bi * b + off + data.len() <==> off <= r < off + data.len());
        } else {
            assert(!(bi * b + off <= p < bi * b + off + data.len()));
        }
    }
    assert(nv =~= ov);
}

/// Placing a new block at the end of the file, filled with zeros but for
/// the bytes written, changes exactly those bytes of the disk.
proof fn lemma_fresh_block_view(
    old_image: Seq<u8>,
    new_image: Seq<u8>,
    ptrs: Seq<u64>,
    bc: int,
    alloc: int,
    bi: int,
    off: int,
    data: Seq<u8>,
)
    requires
        pointers_placed(bc, alloc, ptrs),
        ptrs.len() == bc,
        0 <= bi < bc,
        ptrs[bi] == 0,
        0 <= off,
        off + data.len() <= VDISK_BLOCK_SIZE,
        old_image.len() == layout_size(bc, alloc),
        new_image.len() == old_image.len() + VDISK_BLOCK_SIZE,
        old_image.len() <= u64::MAX,
        forall|t: int| 0 <= t < old_image.len() ==> #[trigger] new_image[t] == old_image[t],
        forall|r: int|
            0 <= r < VDISK_BLOCK_SIZE ==> #[trigger] new_image[old_image.len() + r] == if off <= r < off
                + data.len() {
                data[r - off]
            } else {
                0u8
            },
    ensures
        disk_view(new_image, ptrs.update(bi, old_image.len() as u64), bc) == overwrite(
            disk_view(old_image, ptrs, bc),
            bi * VDISK_BLOCK_SIZE + off,
            data,
        ),
{
    let b = VDISK_BLOCK_SIZE as int;
    let nptrs = ptrs.update(bi, old_image.len() as u64);
    let nv = disk_view(new_image, nptrs, bc);
    let ov = overwrite(disk_view(old_image, ptrs, bc), bi * b + off, data);
    assert forall|p: int| 0 <= p < bc * b implies nv[p] == ov[p] by {
        lemma_position(p, bc);
        let q = p / b;
        let r = p % b;
        if q == bi {
            assert(bi * b + off <= p < bi * b + off + data.len() <==> off <= r < off + data.len());
            assert(new_image[old_image.len() + r] == new_image[nptrs[q] + r]);
        } else {
            assert(!(bi * b + off <= p < bi * b + off + data.len()));
            if ptrs[q] != 0 {
                lemma_placed_blocks_disjoint(bc, alloc, ptrs, q, q);
                assert(new_image[ptrs[q] + r] == old_image[ptrs[q] + r]);
            }
        }
    }
    assert(nv =~= ov);
}

impl MemVDisk {
    /// Writes up to `src.len()` bytes into block `block_index` from `offset`
    /// on; the write stops at the end of the block. A block never written
    /// before is placed at the end of the file, zero but for what is written.
    pub fn write_block_with_offset(&mut self, block_index: u64, offset: usize, src: &[u8]) -> (r: Result<usize, VDiskError>)
        requires
            old(self).image_ok(),
        ensures
            final(self).image_ok(),
            final(self).meta.block_count == old(self).meta.block_count,
            block_index >= old(self).meta.block_count ==> r == Err::<usize, VDiskError>(VDiskError::BlockIndexOutOfRange),
            block_index < old(self).meta.block_count && offset >= VDISK_BLOCK_SIZE ==> r == Err::<usize, VDiskError>(
                VDiskError::OffsetOutOfRange,
            ),
            r is Err || src@.len() == 0 ==> *final(self) == *old(self),
            block_index < old(self).meta.block_count && offset < VDISK_BLOCK_SIZE ==> (r matches Ok(n)
                && n == span_in_block(offset as int, src@.len() as int)
                && final(self).contents() == overwrite(
                old(self).contents(),
                block_index * VDISK_BLOCK_SIZE + offset,
                src@.take(n as int),
            )),
            r matches Ok(n) && n > 0 ==> places_block(
                old(self).meta,
                final(self).meta,
                block_index as int,
            ),
    {
        let ghost old_image = self.image@;
        let ghost old_meta = self.meta;
        let w = self.meta.plan_block_write(block_index, offset, src.len())?;
        let ghost bc = self.meta.block_count as int;
        let ghost data = src@.take(w.len as int);
        let ghost new_meta = self.meta;
        let ghost serial = self.serial;
        if w.len == 0 {
            proof {
                assert(overwrite(disk_view(old_image, old_meta.block_pointers@, bc), block_index * VDISK_BLOCK_SIZE + offset, data)
                    =~= disk_view(old_image, old_meta.block_pointers@, bc));
            }
            return Ok(0);
        }
        let n = w.len;
        if w.fresh {
            proof {
                lemma_count_placed_le(self.meta.block_pointers@);
            }
            let mut k: usize = 0;
            while k < offset
                invariant
                    self.meta == new_meta,
                    self.serial == serial,
                    old_image.len() <= self.image@.len(),
                    self.image@.len() == old_image.len() + k,
                    0 <= k <= offset,
                    forall|t: int| 0 <= t < old_image.len() ==> #[trigger] self.image@[t] == old_image[t],
                    forall|t: int| 0 <= t < k ==> #[trigger] self.image@[old_image.len() + t] == 0u8,
                decreases offset - k,
            {
                self.image.push(0u8);
                k = k + 1;
            }
            let mut j: usize = 0;
            while j < n
                invariant
                    self.meta == new_meta,
                    self.serial == serial,
                    n <= src@.len(),
                    offset + n <= VDISK_BLOCK_SIZE,
                    self.image@.len() == old_image.len() + offset + j,
                    0 <= j <= n,
                    forall|t: int| 0 <= t < old_image.len() ==> #[trigger] self.image@[t] == old_image[t],
                    forall|t: int| 0 <= t < offset ==> #[trigger] self.image@[old_image.len() + t] == 0u8,
                    forall|t: int| 0 <= t < j ==> #[trigger] self.image@[old_image.len() + offset + t] == src@[t],
                decreases n - j,
            {
                self.image.push(src[j]);
                j = j + 1;
            }
            let tail = VDISK_BLOCK_SIZE as usize - offset - n;
            let mut k: usize = 0;
            while k < tail
                invariant
                    self.meta == new_meta,
                    self.serial == serial,
                    n <= src@.len(),
                    offset + n + tail == VDISK_BLOCK_SIZE,
                    self.image@.len() == old_image.len() + offset + n + k,
                    0 <= k <= tail,
                    forall|t: int| 0 <= t < old_image.len() ==> #[trigger] self.image@[t] == old_image[t],
                    forall|t: int| 0 <= t < offset ==> #[trigger] self.image@[old_image.len() + t] == 0u8,
                    forall|t: int| 0 <= t < n ==> #[trigger] self.image@[old_image.len() + offset + t] == src@[t],
                    forall|t: int| 0 <= t < k ==> #[trigger] self.image@[old_image.len() + offset + n + t] == 0u8,
                decreases tail - k,
            {
                self.image.push(0u8);
                k = k + 1;
            }
            proof {
                let ol = old_image.len() as int;
                assert forall|r: int| 0 <= r < VDISK_BLOCK_SIZE implies #[trigger] self.image@[ol + r] == if offset
                    <= r < offset + data.len() {
                    data[r - offset]
                } else {
                    0u8
                } by {
                    if r < offset {
                        assert(self.image@[ol + r] == 0u8);
                    } else if r < offset + n {
                        assert(self.image@[ol + offset + (r - offset)] == src@[r - offset]);
                    } else {
                        assert(self.image@[ol + offset + n + (r - offset - n)] == 0u8);
                    }
                }
                lemma_fresh_block_view(old_image, self.image@, old_meta.block_pointers@, bc,
                    old_meta.allocated_block_count as int, block_index as int, offset as int, data);
                self.lemma_table_kept(old_image, old_meta);
                self.lemma_header_kept(old_image);
                let unc = self.meta.uncommitted_blocks@;
                let old_unc = old_meta.uncommitted_blocks@;
                assert(unc == old_unc.push((block_index, w.pointer)));
                assert forall|i: int| 0 <= i < bc implies #[trigger] table_entry(self.image@, i) == if is_uncommitted(unc, i) {
                    0
                } else {
                    self.meta.block_pointers@[i]
                } by {
                    assert(table_entry(self.image@, i) == table_entry(old_image, i));
                    if i == block_index {
                        assert(unc[old_unc.len() as int].0 == i);
                        if is_uncommitted(old_unc, i) {
                            let u = choose|u: int| 0 <= u < old_unc.len() && (#[trigger] old_unc[u]).0 == i;
                            assert(old_meta.block_pointers@[i] == old_unc[u].1);
                        }
                    } else {
                        if is_uncommitted(unc, i) {
                            let u = choose|u: int| 0 <= u < unc.len() && (#[trigger] unc[u]).0 == i;
                            assert(u < old_unc.len());
                            assert(old_unc[u].0 == i);
                        }
                        if is_uncommitted(old_unc, i) {
                            let u = choose|u: int| 0 <= u < old_unc.len() && (#[trigger] old_unc[u]).0 == i;
                            assert(unc[u].0 == i);
                        }
                    }
                }
            }
        } else {
            proof {
                lemma_placed_blocks_disjoint(bc, old_meta.allocated_block_count as int,
                    old_meta.block_pointers@, block_index as int, block_index as int);
            }
            let ilen = self.image.len();
            let start = (w.pointer as usize) + offset;
            let mut j: usize = 0;
            while j < n
                invariant
                    self.meta == new_meta,
                    self.serial == serial,
                    ilen == self.image@.len(),
                    self.image@.len() == old_image.len(),
                    start == w.pointer + offset,
                    start + n <= w.pointer + VDISK_BLOCK_SIZE,
                    w.pointer + VDISK_BLOCK_SIZE <= ilen,
                    n <= src@.len(),
                    0 <= j <= n,
                    forall|t: int|
                        0 <= t < self.image@.len() ==> #[trigger] self.image@[t] == if start <= t < start + j {
                            src@[t - start]
                        } else {
                            old_image[t]
                        },
                decreases n - j,
            {
                self.image.set(start + j, src[j]);
                j = j + 1;
            }
            proof {
                lemma_in_place_view(old_image, self.image@, old_meta.block_pointers@, bc,
                    old_meta.allocated_block_count as int, block_index as int, offset as int, data);
                self.lemma_table_kept(old_image, old_meta);
                self.lemma_header_kept(old_image);
                assert forall|i: int| 0 <= i < bc implies #[trigger] table_entry(self.image@, i) == table_entry(old_image, i) by {}
            }
        }
        Ok(n)
    }

    /// Keeping the first 56 bytes keeps the header fields.
    proof fn lemma_header_kept(&self, old_image: Seq<u8>)
        requires
            self.image@.subrange(0, 56) == old_image.subrange(0, 56),
            old_image.len() >= 56,
            self.image@.len() >= 56,
        ensures
            magic_ok(self.image@) == magic_ok(old_image),
            header_version(self.image@) == header_version(old_image),
            self.image@.subrange(SERIAL_OFFSET as int, SERIAL_OFFSET + SERIAL_LEN) == old_image.subrange(SERIAL_OFFSET as int, SERIAL_OFFSET + SERIAL_LEN),
            u64_at(self.image@, BLOCK_COUNT_OFFSET as int) == u64_at(old_image, BLOCK_COUNT_OFFSET as int),
            u64_at(self.image@, ALLOCATED_BLOCKS_OFFSET as int) == u64_at(old_image, ALLOCATED_BLOCKS_OFFSET as int),
    {
        let a = self.image@.subrange(0, 56);
        assert(self.image@[0] == a[0] && self.image@[1] == a[1] && self.image@[2] == a[2] && self.image@[3] == a[3]);
        assert(old_image[0] == a[0] && old_image[1] == a[1] && old_image[2] == a[2] && old_image[3] == a[3]);
        assert(self.image@.subrange(4, 8) =~= old_image.subrange(4, 8)) by {
            assert forall|t: int| 0 <= t < 4 implies self.image@.subrange(4, 8)[t] == old_image.subrange(4, 8)[t] by {
                assert(a[4 + t] == self.image@[4 + t]);
            }
        }
        assert(self.image@.subrange(8, 40) =~= old_image.subrange(8, 40)) by {
            assert forall|t: int| 0 <= t < 32 implies self.image@.subrange(8, 40)[t] == old_image.subrange(8, 40)[t] by {
                assert(a[8 + t] == self.image@[8 + t]);
            }
        }
        assert(self.image@.subrange(40, 48) =~= old_image.subrange(40, 48)) by {
            assert forall|t: int| 0 <= t < 8 implies self.image@.subrange(40, 48)[t] == old_image.subrange(40, 48)[t] by {
                assert(a[40 + t] == self.image@[40 + t]);
            }
        }
        assert(self.image@.subrange(48, 56) =~= old_image.subrange(48, 56)) by {
            assert forall|t: int| 0 <= t < 8 implies self.image@.subrange(48, 56)[t] == old_image.subrange(48, 56)[t] by {
                assert(a[48 + t] == self.image@[48 + t]);
            }
        }
    }

    /// Writing at or past the start of the block area keeps the header and
    /// the table as they were.
    proof fn lemma_table_kept(&self, old_image: Seq<u8>, old_meta: VDiskMeta)
        requires
            ({
                let bc = old_meta.block_count as int;
                forall|t: int| 0 <= t < data_start(bc) ==> #[trigger] self.image@[t] == old_image[t]
            }),
            old_image.len() >= data_start(old_meta.block_count as int),
            self.image@.len() >= old_image.len(),
        ensures
            forall|pos: int| 0 <= pos && pos + 8 <= data_start(old_meta.block_count as int) ==> #[trigger] u64_at(self.image@, pos)
                == u64_at(old_image, pos),
            self.image@.subrange(0, 56) == old_image.subrange(0, 56),
    {
        let bc = old_meta.block_count as int;
        assert forall|pos: int| 0 <= pos && pos + 8 <= data_start(bc) implies #[trigger] u64_at(self.image@, pos)
            == u64_at(old_image, pos) by {
            assert(self.image@.subrange(pos, pos + 8) =~= old_image.subrange(pos, pos + 8));
        }
        assert(self.image@.subrange(0, 56) =~= old_image.subrange(0, 56));
    }
}

/// Some write among `writes[1..k]` is to the table entry of block `i`.
pub open spec fn entry_written(writes: Seq<CommitWrite>, k: int, i: int) -> bool {
    exists|t: int| 1 <= t < k && (#[trigger] writes[t]).pos == VDISK_HEADER_SIZE + 8 * i
}

impl MemVDisk {
    /// Writes out the blocks placed since the last commit: the allocated
    /// block count and their table entries, in order of block index.
    pub fn commit_changes(&mut self)
        requires
            old(self).image_ok(),
        ensures
            final(self).image_ok(),
            final(self).committed(),
            final(self).meta.block_count == old(self).meta.block_count,
            final(self).meta.allocated_block_count == old(self).meta.allocated_block_count,
            final(self).meta.block_pointers@ == old(self).meta.block_pointers@,
            final(self).contents() == old(self).contents(),
    {
        let ghost old_image = self.image@;
        let ghost old_meta = self.meta;
        let ghost bc = old_meta.block_count as int;
        let ghost ds = data_start(bc);
        let ghost ptrs = old_meta.block_pointers@;
        let ghost unc = old_meta.uncommitted_blocks@;
        let writes = self.meta.plan_commit();
        let ghost new_meta = self.meta;
        let ghost serial = self.serial;
        proof {
            lemma_count_placed_le(ptrs);
        }
        let mut k: usize = 0;
        while k < writes.len()
            invariant
                self.meta == new_meta,
                self.serial == serial,
                new_meta.block_pointers@ == ptrs,
                new_meta.block_count == bc,
                bc * 8 + 4096 <= usize::MAX,
                ds == data_start(bc),
                commit_writes_ok(writes@, old_meta.allocated_block_count, unc),
                uncommitted_ok(ptrs, unc),
                ptrs.len() == bc,
                0 <= k <= writes@.len(),
                self.image@.len() == old_image.len(),
                old_image.len() >= ds,
                forall|t: int| ds <= t < old_image.len() ==> #[trigger] self.image@[t] == old_image[t],
                forall|t: int| 0 <= t < 48 ==> #[trigger] self.image@[t] == old_image[t],
                u64_at(self.image@, ALLOCATED_BLOCKS_OFFSET as int) == if k > 0 {
                    old_meta.allocated_block_count
                } else {
                    u64_at(old_image, ALLOCATED_BLOCKS_OFFSET as int)
                },
                forall|i: int|
                    0 <= i < bc ==> #[trigger] table_entry(self.image@, i) == if entry_written(writes@, k as int, i) {
                        ptrs[i]
                    } else {
                        table_entry(old_image, i)
                    },
            decreases writes@.len() - k,
        {
            let wr = writes[k];
            let ghost before = self.image@;
            proof {
                if k > 0 {
                    let tw = unc.map_values(|e: (u64, u64)| table_write(e));
                    assert(tw.contains(writes@[k as int]));
                    let u = choose|u: int| 0 <= u < tw.len() && tw[u] == writes@[k as int];
                    assert(unc[u].0 < bc);
                    assert(wr.pos == VDISK_HEADER_SIZE + 8 * unc[u].0);
                    assert(wr.value == ptrs[unc[u].0 as int]);
                }
            }
            put_u64(&mut self.image, wr.pos as usize, wr.value);
            proof {
                let img = self.image@;
                assert forall|i: int| 0 <= i < bc implies #[trigger] table_entry(img, i) == if entry_written(writes@, k + 1, i) {
                    ptrs[i]
                } else {
                    table_entry(old_image, i)
                } by {
                    let pos = VDISK_HEADER_SIZE + 8 * i;
                    if wr.pos == pos {
                        assert(k >= 1);
                        assert(entry_written(writes@, k + 1, i));
                        let tw = unc.map_values(|e: (u64, u64)| table_write(e));
                        let u = choose|u: int| 0 <= u < tw.len() && tw[u] == writes@[k as int];
                        assert(unc[u].0 == i);
                        assert(table_entry(img, i) == wr.value);
                        assert(wr.value == ptrs[i]);
                    } else {
                        if k == 0 {
                            assert(wr.pos == 48);
                        } else {
                            let tw = unc.map_values(|e: (u64, u64)| table_write(e));
                            let u = choose|u: int| 0 <= u < tw.len() && tw[u] == writes@[k as int];
                            assert(wr.pos == VDISK_HEADER_SIZE + 8 * unc[u].0);
                        }
                        assert(wr.pos + 8 <= pos || pos + 8 <= wr.pos);
                        assert(img.subrange(pos, pos + 8) =~= before.subrange(pos, pos + 8));
                        if entry_written(writes@, k + 1, i) && !entry_written(writes@, k as int, i) {
                            let t = choose|t: int| 1 <= t < k + 1 && (#[trigger] writes@[t]).pos == VDISK_HEADER_SIZE + 8 * i;
                            assert(t == k);
                        }
                        if entry_written(writes@, k as int, i) {
                            let t = choose|t: int| 1 <= t < k && (#[trigger] writes@[t]).pos == VDISK_HEADER_SIZE + 8 * i;
                            assert(entry_written(writes@, k + 1, i));
                        }
                        assert(entry_written(writes@, k + 1, i) == entry_written(writes@, k as int, i));
                        assert(table_entry(img, i) == table_entry(before, i));
                    }
                }
                if k > 0 {
                    assert(img.subrange(48, 56) =~= before.subrange(48, 56));
                }
            }
            k = k + 1;
        }
        proof {
            let img = self.image@;
            let nunc = self.meta.uncommitted_blocks@;
            assert(nunc.len() == 0);
            assert forall|i: int| 0 <= i < bc implies #[trigger] table_entry(img, i) == if is_uncommitted(nunc, i) {
                0
            } else {
                ptrs[i]
            } by {
                if is_uncommitted(unc, i) {
                    let u = choose|u: int| 0 <= u < unc.len() && (#[trigger] unc[u]).0 == i;
                    assert(writes@.contains(table_write(unc[u])));
                    let t = choose|t: int| 0 <= t < writes@.len() && writes@[t] == table_write(unc[u]);
                    assert(t >= 1);
                    assert(entry_written(writes@, writes@.len() as int, i));
                } else if entry_written(writes@, writes@.len() as int, i) {
                    let t = choose|t: int| 1 <= t < writes@.len() && (#[trigger] writes@[t]).pos == VDISK_HEADER_SIZE + 8 * i;
                    let tw = unc.map_values(|e: (u64, u64)| table_write(e));
                    assert(tw.contains(writes@[t]));
                    let u = choose|u: int| 0 <= u < tw.len() && tw[u] == writes@[t];
                    assert(unc[u].0 == i);
                    assert(false);
                }
            }
            assert(img.subrange(0, 48) =~= old_image.subrange(0, 48));
            assert(img[0] == old_image[0] && img[1] == old_image[1] && img[2] == old_image[2] && img[3] == old_image[3]);
            assert(img.subrange(4, 8) =~= old_image.subrange(4, 8));
            assert(img.subrange(8, 40) =~= old_image.subrange(8, 40));
            assert(img.subrange(40, 48) =~= old_image.subrange(40, 48));
            assert(disk_view(img, ptrs, bc) =~= disk_view(old_image, ptrs, bc)) by {
                assert forall|p: int| 0 <= p < bc * VDISK_BLOCK_SIZE implies disk_byte(img, ptrs, p) == disk_byte(old_image, ptrs, p) by {
                    lemma_position(p, bc);
                    let q = p / (VDISK_BLOCK_SIZE as int);
                    if ptrs[q] != 0 {
                        lemma_placed_blocks_disjoint(bc, old_meta.allocated_block_count as int, ptrs, q, q);
                    }
                }
            }
        }
    }
}

proof fn lemma_overwrite_extend(c: Seq<u8>, at: int, src: Seq<u8>, done: int, n: int)
    requires
        0 <= done,
        0 <= n,
        done + n <= src.len(),
        0 <= at,
        at + src.len() <= c.len(),
    ensures
        overwrite(overwrite(c, at, src.take(done)), at + done, src.subrange(done, done + n)) == overwrite(
            c,
            at,
            src.take(done + n),
        ),
{
    assert(overwrite(overwrite(c, at, src.take(done)), at + done, src.subrange(done, done + n)) =~= overwrite(
        c,
        at,
        src.take(done + n),
    ));
}

impl MemVDisk {
    /// Reads `len` bytes of the disk from `offset` on.
    pub fn read(&self, offset: u64, len: usize) -> (r: Result<Vec<u8>, VDiskError>)
        requires
            self.image_ok(),
            offset + len <= u64::MAX,
        ensures
            len == 0 ==> (r matches Ok(bytes) && bytes@.len() == 0),
            len > 0 && offset > self.contents().len() ==> r == Err::<Vec<u8>, VDiskError>(VDiskError::OffsetOutOfRange),
            len > 0 && offset <= self.contents().len() && offset + len > self.contents().len() ==> r == Err::<
                Vec<u8>,
                VDiskError,
            >(VDiskError::ReadExceedsDiskSize),
            len > 0 && offset + len <= self.contents().len() ==> (r matches Ok(bytes) && bytes@ == self.contents().subrange(
                offset as int,
                offset + len,
            )),
    {
        if len == 0 {
            return Ok(Vec::new());
        }
        let disk_size = self.meta.disk_size();
        if offset > disk_size {
            return Err(VDiskError::OffsetOutOfRange);
        }
        if offset + len as u64 > disk_size {
            return Err(VDiskError::ReadExceedsDiskSize);
        }
        let ghost c = self.contents();
        let mut out: Vec<u8> = Vec::new();
        let mut pos: u64 = offset;
        while out.len() < len
            invariant
                self.image_ok(),
                c == self.contents(),
                disk_size == c.len(),
                offset + len <= disk_size,
                out@.len() <= len,
                pos == offset + out@.len(),
                out@ == c.subrange(offset as int, pos as int),
            decreases len - out@.len(),
        {
            let bi = pos / VDISK_BLOCK_SIZE;
            let bo = (pos % VDISK_BLOCK_SIZE) as usize;
            proof {
                lemma_position(pos as int, self.meta.block_count as int);
            }
            let mut chunk = self.read_block_with_offset(bi, bo, len - out.len())?;
            let got = chunk.len();
            out.append(&mut chunk);
            pos = pos + got as u64;
            assert(out@ =~= c.subrange(offset as int, pos as int));
        }
        Ok(out)
    }

    /// Writes `src` to the disk at `offset`, placing the blocks it reaches for
    /// the first time, then commits the table.
    pub fn write(&mut self, offset: u64, src: &[u8]) -> (r: Result<usize, VDiskError>)
        requires
            old(self).image_ok(),
            offset + src@.len() <= u64::MAX,
        ensures
            final(self).image_ok(),
            final(self).meta.block_count == old(self).meta.block_count,
            r is Err || src@.len() == 0 ==> *final(self) == *old(self),
            src@.len() == 0 ==> r == Ok::<usize, VDiskError>(0),
            src@.len() > 0 && offset > old(self).contents().len() ==> r == Err::<usize, VDiskError>(VDiskError::OffsetOutOfRange),
            src@.len() > 0 && offset <= old(self).contents().len() && offset + src@.len() > old(self).contents().len()
                ==> r == Err::<usize, VDiskError>(VDiskError::WriteExceedsDiskSize),
            src@.len() > 0 && offset + src@.len() <= old(self).contents().len() ==> {
                &&& r == Ok::<usize, VDiskError>(src@.len() as usize)
                &&& final(self).contents() == overwrite(old(self).contents(), offset as int, src@)
                &&& final(self).committed()
                &&& places_blocks_of(old(self).meta, final(self).meta, offset as int, offset + src@.len())
            },
    {
        let ghost old_meta = self.meta;
        let len = src.len();
        if len == 0 {
            return Ok(0);
        }
        let disk_size = self.meta.disk_size();
        if offset > disk_size {
            return Err(VDiskError::OffsetOutOfRange);
        }
        if offset + len as u64 > disk_size {
            return Err(VDiskError::WriteExceedsDiskSize);
        }
        let ghost c = self.contents();
        let ghost bc = self.meta.block_count;
        let mut done: usize = 0;
        let mut pos: u64 = offset;
        assert(overwrite(c, offset as int, src@.take(0)) =~= c);
        proof {
            lemma_unplaced_met_empty(old_meta.block_pointers@, offset as int);
        }
        while done < len
            invariant
                self.image_ok(),
                self.meta.block_count == bc,
                disk_size == c.len(),
                c.len() == bc * VDISK_BLOCK_SIZE,
                len == src@.len(),
                offset + len <= disk_size,
                done <= len,
                pos == offset + done,
                self.contents() == overwrite(c, offset as int, src@.take(done as int)),
                old_meta.block_count == bc,
                places_blocks_of(old_meta, self.meta, offset as int, pos as int),
                done == 0 || done == len || pos % VDISK_BLOCK_SIZE == 0,
            decreases len - done,
        {
            let bi = pos / VDISK_BLOCK_SIZE;
            let bo = (pos % VDISK_BLOCK_SIZE) as usize;
            proof {
                lemma_position(pos as int, bc as int);
            }
            let piece = slice_subrange(src, done, len);
            let ghost prev_meta = self.meta;
            let n = self.write_block_with_offset(bi, bo, piece)?;
            proof {
                assert(piece@.take(n as int) =~= src@.subrange(done as int, done + n));
                lemma_overwrite_extend(c, offset as int, src@, done as int, n as int);
                let p = old_meta.block_pointers@;
                let q = self.meta.block_pointers@;
                lemma_meets_step(offset as int, pos as int, bi as int, bo as int, n as int);
                lemma_unplaced_met_extend(p, offset as int, pos as int, pos + n, bi as int);
                assert(prev_meta.block_pointers@[bi as int] == p[bi as int]);
                assert forall|i: int| 0 <= i < p.len() && block_meets(i, offset as int, pos + n) implies #[trigger] q[i]
                    != 0 by {
                    if i != bi {
                        assert(q[i] == prev_meta.block_pointers@[i]);
                    }
                }
                assert forall|i: int| 0 <= i < p.len() && !block_meets(i, offset as int, pos + n) implies #[trigger] q[i]
                    == p[i] by {
                    assert(q[i] == prev_meta.block_pointers@[i]);
                }
                assert forall|i: int| 0 <= i < p.len() && p[i] != 0 implies #[trigger] q[i] == p[i] by {
                    if i != bi {
                        assert(q[i] == prev_meta.block_pointers@[i]);
                    }
                }
                if done + n < len {
                    assert((pos + n) % (VDISK_BLOCK_SIZE as int) == 0) by {
                        assert(pos + n == (bi + 1) * VDISK_BLOCK_SIZE);
                        vstd::arithmetic::div_mod::lemma_mod_multiples_basic(bi + 1, VDISK_BLOCK_SIZE as int);
                    }
                }
            }
            done = done + n;
            pos = pos + n as u64;
        }
        self.commit_changes();
        assert(src@.take(len as int) =~= src@);
        Ok(len)
    }
}

/// Reads the table of block pointers.
pub fn decode_block_table(table: &[u8], block_count: u64) -> (ptrs: Vec<u64>)
    requires
        table@.len() == 8 * block_count,
    ensures
        ptrs@.len() == block_count,
        forall|i: int| 0 <= i < block_count ==> #[trigger] ptrs@[i] == u64_at(table@, 8 * i),
{
    let mut ptrs: Vec<u64> = Vec::new();
    let mut i: u64 = 0;
    let tlen = table.len();
    while i < block_count
        invariant
            tlen == table@.len(),
            table@.len() == 8 * block_count,
            0 <= i <= block_count,
            ptrs@.len() == i,
            forall|j: int| 0 <= j < i ==> #[trigger] ptrs@[j] == u64_at(table@, 8 * j),
        decreases block_count - i,
    {
        let at = (i * 8) as usize;
        let v = u64_from_le_bytes(slice_subrange(table, at, at + 8));
        ptrs.push(v);
        i = i + 1;
    }
    ptrs
}

/// A table of `ptrs` for `block_count` blocks, `allocated` of them placed,
/// describes a well-formed disk whose file size fits in a `u64`.
pub open spec fn table_consistent(block_count: u64, allocated: u64, ptrs: Seq<u64>) -> bool {
    &&& ptrs.len() == block_count
    &&& layout_size(block_count as int, block_count as int) <= u64::MAX
    &&& layout_size(block_count as int, block_count as int) <= usize::MAX
    &&& pointers_placed(block_count as int, allocated as int, ptrs)
}

proof fn lemma_aligned_slot(bc: int, p: int)
    requires
        data_start(bc) <= p,
        (p - data_start(bc)) % (VDISK_BLOCK_SIZE as int) == 0,
    ensures
        p == data_start(bc) + slot_of(bc, p) * VDISK_BLOCK_SIZE,
        slot_of(bc, p) >= 0,
{
    vstd::arithmetic::div_mod::lemma_fundamental_div_mod(p - data_start(bc), VDISK_BLOCK_SIZE as int);
}

impl VDiskMeta {
    /// Builds the block map of a disk read from its file, refusing a table
    /// that places two blocks at the same offset, places a block outside the
    /// block area, or disagrees with the allocated block count.
    ///
    /// The refusal is deliberate: on such a table a write through one block
    /// would change the bytes of another, or place a new block over an old
    /// one, so the disk would no longer read back what was written to it.
    /// Opening it is refused rather than risking the data it holds.
    pub fn from_table(block_count: u64, allocated: u64, ptrs: Vec<u64>) -> (r: Result<VDiskMeta, VDiskError>)
        requires
            ptrs@.len() == block_count,
        ensures
            table_consistent(block_count, allocated, ptrs@) ==> (r matches Ok(m) && m.wf() && m.block_count
                == block_count && m.allocated_block_count == allocated && m.block_pointers@ == ptrs@
                && m.uncommitted_blocks@.len() == 0),
            !table_consistent(block_count, allocated, ptrs@) ==> r == Err::<VDiskMeta, VDiskError>(
                VDiskError::CorruptBlockTable,
            ),
    {
        let ghost bc = block_count as int;
        let ghost a = allocated as int;
        let b = VDISK_BLOCK_SIZE;
        if block_count > (u64::MAX - 4096) / (VDISK_BLOCK_SIZE + 8) {
            proof {
                assert(layout_size(bc, bc) > u64::MAX) by (nonlinear_arith)
                    requires
                        bc > (u64::MAX - 4096) / (VDISK_BLOCK_SIZE + 8),
                        layout_size(bc, bc) == 4096 + bc * (VDISK_BLOCK_SIZE + 8),
                ;
            }
            return Err(VDiskError::CorruptBlockTable);
        }
        proof {
            assert(layout_size(bc, bc) <= u64::MAX) by (nonlinear_arith)
                requires
                    bc <= (u64::MAX - 4096) / (VDISK_BLOCK_SIZE + 8),
                    layout_size(bc, bc) == 4096 + bc * (VDISK_BLOCK_SIZE + 8),
            ;
        }
        if 4096 + block_count * (VDISK_BLOCK_SIZE + 8) > usize::MAX as u64 {
            return Err(VDiskError::CorruptBlockTable);
        }
        if allocated > block_count {
            proof {
                lemma_count_placed_le(ptrs@);
            }
            return Err(VDiskError::CorruptBlockTable);
        }
        let ds: u64 = 4096 + block_count * 8;
        let n = ptrs.len();
        assert(allocated <= n);
        let mut seen: Vec<bool> = vec![false; allocated as usize];
        let mut count: u64 = 0;
        let mut i: usize = 0;
        while i < n
            invariant
                n == ptrs@.len(),
                n == bc,
                bc == block_count,
                a == allocated,
                a <= bc,
                layout_size(bc, bc) <= u64::MAX,
                ds == data_start(bc),
                b == VDISK_BLOCK_SIZE,
                0 <= i <= n,
                seen@.len() == a,
                count == count_placed(ptrs@.take(i as int)),
                count <= i,
                forall|j: int|
                    0 <= j < i && ptrs@[j] != 0 ==> {
                        &&& data_start(bc) <= #[trigger] ptrs@[j]
                        &&& (ptrs@[j] - data_start(bc)) % (VDISK_BLOCK_SIZE as int) == 0
                        &&& slot_of(bc, ptrs@[j] as int) < a
                        &&& seen@[slot_of(bc, ptrs@[j] as int)]
                    },
                forall|k: int|
                    0 <= k < a && #[trigger] seen@[k] ==> exists|j: int|
                        0 <= j < i && ptrs@[j] != 0 && slot_of(bc, ptrs@[j] as int) == k,
                forall|j1: int, j2: int|
                    0 <= j1 < i && 0 <= j2 < i && j1 != j2 && ptrs@[j1] != 0 ==> #[trigger] ptrs@[j1]
                        != #[trigger] ptrs@[j2],
            decreases n - i,
        {
            proof {
                assert(ptrs@.take(i + 1).drop_last() =~= ptrs@.take(i as int));
            }
            let p = ptrs[i];
            if p != 0 {
                if p < ds {
                    return Err(VDiskError::CorruptBlockTable);
                }
                let d = p - ds;
                if d % b != 0 {
                    return Err(VDiskError::CorruptBlockTable);
                }
                let k = d / b;
                if k >= allocated {
                    return Err(VDiskError::CorruptBlockTable);
                }
                if seen[k as usize] {
                    proof {
                        let j = choose|j: int| 0 <= j < i && ptrs@[j] != 0 && slot_of(bc, ptrs@[j] as int) == k;
                        lemma_aligned_slot(bc, ptrs@[j] as int);
                        lemma_aligned_slot(bc, p as int);
                        assert(ptrs@[j] == ptrs@[i as int]);
                    }
                    return Err(VDiskError::CorruptBlockTable);
                }
                let ghost old_seen = seen@;
                seen.set(k as usize, true);
                count = count + 1;
                proof {
                    assert(slot_of(bc, p as int) == k);
                    assert forall|j1: int, j2: int|
                        0 <= j1 < i + 1 && 0 <= j2 < i + 1 && j1 != j2 && ptrs@[j1] != 0 implies #[trigger] ptrs@[j1]
                        != #[trigger] ptrs@[j2] by {
                        if j1 == i && ptrs@[j2] != 0 {
                            assert(old_seen[slot_of(bc, ptrs@[j2] as int)]);
                        } else if j2 == i {
                            assert(old_seen[slot_of(bc, ptrs@[j1] as int)]);
                        }
                    }
                    assert forall|k2: int|
                        0 <= k2 < a && #[trigger] seen@[k2] implies exists|j: int|
                            0 <= j < i + 1 && ptrs@[j] != 0 && slot_of(bc, ptrs@[j] as int) == k2 by {
                        if k2 != k {
                            assert(old_seen[k2]);
                            let j = choose|j: int| 0 <= j < i && ptrs@[j] != 0 && slot_of(bc, ptrs@[j] as int) == k2;
                            assert(0 <= j < i + 1 && ptrs@[j] != 0 && slot_of(bc, ptrs@[j] as int) == k2);
                        } else {
                            assert(ptrs@[i as int] != 0 && slot_of(bc, ptrs@[i as int] as int) == k2);
                        }
                    }
                }
            }
            i = i + 1;
        }
        assert(ptrs@.take(n as int) =~= ptrs@);
        if count != allocated {
            return Err(VDiskError::CorruptBlockTable);
        }
        Ok(VDiskMeta {
            block_count,
            allocated_block_count: allocated,
            block_pointers: ptrs,
            uncommitted_blocks: Vec::new(),
        })
    }
}

/// The table of block pointers that a file holds for `bc` blocks.
pub open spec fn table_of(image: Seq<u8>, bc: int) -> Seq<u64> {
    Seq::new(bc as nat, |i: int| table_entry(image, i))
}

/// What opening the file `image` gives: its block count, its allocated
/// block count and its table, or why it cannot be opened.
pub open spec fn open_outcome(image: Seq<u8>) -> Result<(u64, u64, Seq<u64>), VDiskError> {
    if image.len() < VDISK_HEADER_SIZE {
        Err(VDiskError::FileTooShort)
    } else if !magic_ok(image) {
        Err(VDiskError::InvalidMagic)
    } else if header_version(image) != VDISK_VERSION {
        Err(VDiskError::UnsupportedVersion)
    } else {
        let bc = u64_at(image, BLOCK_COUNT_OFFSET as int);
        let alloc = u64_at(image, ALLOCATED_BLOCKS_OFFSET as int);
        if image.len() < data_start(bc as int) {
            Err(VDiskError::FileTooShort)
        } else if !table_consistent(bc, alloc, table_of(image, bc as int)) {
            Err(VDiskError::CorruptBlockTable)
        } else if image.len() < layout_size(bc as int, alloc as int) {
            Err(VDiskError::FileTooShort)
        } else {
            Ok((bc, alloc, table_of(image, bc as int)))
        }
    }
}

impl MemVDisk {
    /// Opens a virtual disk from the bytes of its file. Bytes past the last
    /// placed block are dropped. A file whose table `from_table` would refuse,
    /// or which ends before its last placed block, is refused: the disk held
    /// in memory must hold every placed block.
    pub fn open(image: Vec<u8>) -> (r: Result<MemVDisk, VDiskError>)
        ensures
            match open_outcome(image@) {
                Err(e) => r == Err::<MemVDisk, VDiskError>(e),
                Ok((bc, alloc, ptrs)) => r matches Ok(d) && d.image_ok() && d.committed() && d.meta.block_count == bc
                    && d.meta.allocated_block_count == alloc && d.meta.block_pointers@ == ptrs && d.contents()
                    == disk_view(image@, ptrs, bc as int),
            },
    {
        let mut image = image;
        let ghost orig = image@;
        if image.len() < 4096 {
            return Err(VDiskError::FileTooShort);
        }
        let header = slice_subrange(image.as_slice(), 0, 4096);
        proof {
            let h = header@;
            assert(h[0] == orig[0] && h[1] == orig[1] && h[2] == orig[2] && h[3] == orig[3]);
            assert(h.subrange(4, 8) =~= orig.subrange(4, 8));
            assert(h.subrange(8, 40) =~= orig.subrange(8, 40));
            assert(h.subrange(40, 48) =~= orig.subrange(40, 48));
            assert(h.subrange(48, 56) =~= orig.subrange(48, 56));
        }
        let hdr = parse_header(header)?;
        let bc = hdr.block_count;
        let alloc = hdr.allocated_block_count;
        if bc > ((image.len() - 4096) / 8) as u64 {
            return Err(VDiskError::FileTooShort);
        }
        let table_end = 4096 + (bc as usize) * 8;
        let table = slice_subrange(image.as_slice(), 4096, table_end);
        let ptrs = decode_block_table(table, bc);
        proof {
            assert(ptrs@ =~= table_of(orig, bc as int)) by {
                assert forall|i: int| 0 <= i < bc implies ptrs@[i] == table_entry(orig, i) by {
                    assert(table@.subrange(8 * i, 8 * i + 8) =~= orig.subrange(4096 + 8 * i, 4096 + 8 * i + 8));
                }
            }
        }
        let meta = VDiskMeta::from_table(bc, alloc, ptrs)?;
        let file_len = meta.file_size();
        if (image.len() as u64) < file_len {
            return Err(VDiskError::FileTooShort);
        }
        image.truncate(file_len as usize);
        let d = MemVDisk { meta, serial: hdr.serial, image };
        proof {
            let img = d.image@;
            let ptrs = d.meta.block_pointers@;
            lemma_count_placed_le(ptrs);
            assert(img.subrange(0, 56) =~= orig.subrange(0, 56));
            assert(img[0] == orig[0] && img[1] == orig[1] && img[2] == orig[2] && img[3] == orig[3]);
            assert(img.subrange(4, 8) =~= orig.subrange(4, 8));
            assert(img.subrange(8, 40) =~= orig.subrange(8, 40));
            assert(img.subrange(40, 48) =~= orig.subrange(40, 48));
            assert(img.subrange(48, 56) =~= orig.subrange(48, 56));
            assert forall|i: int| 0 <= i < bc implies #[trigger] table_entry(img, i) == if is_uncommitted(
                d.meta.uncommitted_blocks@,
                i,
            ) {
                0
            } else {
                ptrs[i]
            } by {
                assert(img.subrange(4096 + 8 * i, 4096 + 8 * i + 8) =~= orig.subrange(4096 + 8 * i, 4096 + 8 * i + 8));
                assert(table_of(orig, bc as int)[i] == table_entry(orig, i));
            }
            assert(d.contents() =~= disk_view(orig, ptrs, bc as int)) by {
                assert forall|p: int| 0 <= p < bc * VDISK_BLOCK_SIZE implies disk_byte(img, ptrs, p) == disk_byte(orig, ptrs, p) by {
                    lemma_position(p, bc as int);
                    let q = p / (VDISK_BLOCK_SIZE as int);
                    if ptrs[q] != 0 {
                        lemma_placed_blocks_disjoint(bc as int, alloc as int, ptrs, q, q);
                    }
                }
            }
        }
        Ok(d)
    }
}

/// Reopen law: the file of a disk whose table is committed opens again as
/// the same disk, with the same bytes.
pub proof fn lemma_committed_disk_reopens(d: MemVDisk)
    requires
        d.image_ok(),
        d.committed(),
    ensures
        open_outcome(d.image@) == Ok::<(u64, u64, Seq<u64>), VDiskError>(
            (d.meta.block_count, d.meta.allocated_block_count, d.meta.block_pointers@),
        ),
        disk_view(d.image@, d.meta.block_pointers@, d.meta.block_count as int) == d.contents(),
{
    let bc = d.meta.block_count as int;
    lemma_count_placed_le(d.meta.block_pointers@);
    assert(table_of(d.image@, bc) =~= d.meta.block_pointers@) by {
        assert forall|i: int| 0 <= i < bc implies table_of(d.image@, bc)[i] == d.meta.block_pointers@[i] by {
            assert(table_entry(d.image@, i) == d.meta.block_pointers@[i]);
        }
    }
    assert(disk_view(d.image@, d.meta.block_pointers@, bc) =~= d.contents());
}

proof fn lemma_none_placed(ptrs: Seq<u64>)
    requires
        count_placed(ptrs) == 0,
    ensures
        forall|j: int| 0 <= j < ptrs.len() ==> #[trigger] ptrs[j] == 0u64,
    decreases ptrs.len(),
{
    if ptrs.len() > 0 {
        lemma_none_placed(ptrs.drop_last());
        assert forall|j: int| 0 <= j < ptrs.len() implies #[trigger] ptrs[j] == 0u64 by {
            if j < ptrs.len() - 1 {
                assert(ptrs.drop_last()[j] == ptrs[j]);
            }
        }
    }
}

/// Reopen law for a disk kept in a file: the file of a committed disk, read
/// the way a file-backed disk opens it (`parse_header` on its first 4 KiB,
/// `decode_block_table` on the table after it, then
/// `VDiskMeta::from_table`), has a valid header with the disk's block count
/// and allocated count, a table holding the disk's block pointers, and a
/// table that `from_table` accepts.
pub proof fn lemma_file_reopens(d: MemVDisk)
    requires
        d.image_ok(),
        d.committed(),
    ensures
        ({
            let h = d.image@.subrange(0, VDISK_HEADER_SIZE as int);
            let bc = d.meta.block_count;
            let table = d.image@.subrange(VDISK_HEADER_SIZE as int, data_start(bc as int));
            &&& magic_ok(h)
            &&& header_version(h) == VDISK_VERSION
            &&& u64_at(h, BLOCK_COUNT_OFFSET as int) == bc
            &&& u64_at(h, ALLOCATED_BLOCKS_OFFSET as int) == d.meta.allocated_block_count
            &&& table.len() == 8 * bc
            &&& forall|i: int| 0 <= i < bc ==> #[trigger] u64_at(table, 8 * i) == d.meta.block_pointers@[i]
            &&& table_consistent(bc, d.meta.allocated_block_count, d.meta.block_pointers@)
        }),
{
    lemma_committed_disk_reopens(d);
    let image = d.image@;
    let h = image.subrange(0, VDISK_HEADER_SIZE as int);
    let bc = d.meta.block_count as int;
    let table = image.subrange(VDISK_HEADER_SIZE as int, data_start(bc));
    assert(h.subrange(4, 8) =~= image.subrange(4, 8));
    assert(h.subrange(40, 48) =~= image.subrange(40, 48));
    assert(h.subrange(48, 56) =~= image.subrange(48, 56));
    assert forall|i: int| 0 <= i < bc implies #[trigger] u64_at(table, 8 * i) == d.meta.block_pointers@[i] by {
        assert(table.subrange(8 * i, 8 * i + 8) =~= image.subrange(4096 + 8 * i, 4096 + 8 * i + 8));
        assert(table_of(image, bc)[i] == table_entry(image, i));
    }
}

/// A disk just created has no block placed: every pointer of its table is
/// 0 and its file is the header and the table alone.
pub proof fn lemma_fresh_disk_is_empty(d: MemVDisk)
    requires
        d.image_ok(),
        d.meta.allocated_block_count == 0,
    ensures
        forall|i: int| 0 <= i < d.meta.block_count ==> #[trigger] d.meta.block_pointers@[i] == 0u64,
        d.image@.len() == VDISK_HEADER_SIZE + 8 * d.meta.block_count,
{
    lemma_none_placed(d.meta.block_pointers@);
}

/// Read-after-write law: after writing `src` at `at`, the bytes at `at`
/// are `src`, and every other byte is what it was.
pub proof fn lemma_read_after_write(c: Seq<u8>, at: int, src: Seq<u8>)
    requires
        0 <= at,
        at + src.len() <= c.len(),
    ensures
        overwrite(c, at, src).len() == c.len(),
        overwrite(c, at, src).subrange(at, at + src.len()) == src,
        forall|p: int| 0 <= p < c.len() && !(at <= p < at + src.len()) ==> #[trigger] overwrite(c, at, src)[p] == c[p],
{
    assert(overwrite(c, at, src).subrange(at, at + src.len()) =~= src);
}

/// The disk `c` after the writes `ws` (each a position and the bytes
/// written there), in order.
pub open spec fn apply_writes(c: Seq<u8>, ws: Seq<(int, Seq<u8>)>) -> Seq<u8>
    decreases ws.len(),
{
    if ws.len() == 0 {
        c
    } else {
        overwrite(apply_writes(c, ws.drop_last()), ws.last().0, ws.last().1)
    }
}

/// Byte `p` as the last of the writes `ws` that covers it put it there, or
/// as it was in `c` when none does.
pub open spec fn last_write_byte(c: Seq<u8>, ws: Seq<(int, Seq<u8>)>, p: int) -> u8
    decreases ws.len(),
{
    if ws.len() == 0 {
        c[p]
    } else if ws.last().0 <= p < ws.last().0 + ws.last().1.len() {
        ws.last().1[p - ws.last().0]
    } else {
        last_write_byte(c, ws.drop_last(), p)
    }
}

/// Successive writes compose: when each disk in `disks` is the one before it
/// with the matching write of `ws` applied (as `MemVDisk::write` ensures of
/// its contents), the last disk is the first with all the writes applied.
pub proof fn lemma_writes_compose(disks: Seq<Seq<u8>>, ws: Seq<(int, Seq<u8>)>)
    requires
        disks.len() == ws.len() + 1,
        forall|k: int| 0 <= k < ws.len() ==> #[trigger] disks[k + 1] == overwrite(disks[k], ws[k].0, ws[k].1),
    ensures
        disks.last() == apply_writes(disks[0], ws),
    decreases ws.len(),
{
    if ws.len() > 0 {
        let d = disks.drop_last();
        let w = ws.drop_last();
        assert forall|k: int| 0 <= k < w.len() implies #[trigger] d[k + 1] == overwrite(d[k], w[k].0, w[k].1) by {
            assert(disks[k + 1] == overwrite(disks[k], ws[k].0, ws[k].1));
        }
        lemma_writes_compose(d, w);
        let k = ws.len() - 1;
        assert(disks[k + 1] == overwrite(disks[k], ws[k].0, ws[k].1));
    }
}

/// Flat-array law: after a sequence of writes, every byte of the disk is the
/// one the last write covering it put there, or what it was before them all
/// (zero on a disk just created).
pub proof fn lemma_last_write_wins(c: Seq<u8>, ws: Seq<(int, Seq<u8>)>, p: int)
    requires
        0 <= p < c.len(),
    ensures
        apply_writes(c, ws).len() == c.len(),
        apply_writes(c, ws)[p] == last_write_byte(c, ws, p),
    decreases ws.len(),
{
    if ws.len() > 0 {
        lemma_last_write_wins(c, ws.drop_last(), p);
    }
}

/// Flat-array law for a disk just created: after any sequence of writes
/// (each disk in `disks` the one before it with the matching write of `ws`
/// applied, the first all zeros as `MemVDisk::create` ensures), the disk is
/// the zero array with the writes applied in order, and each byte is the
/// one the last write covering it put there, or zero.
pub proof fn lemma_created_disk_after_writes(disks: Seq<Seq<u8>>, ws: Seq<(int, Seq<u8>)>)
    requires
        disks.len() == ws.len() + 1,
        disks[0] == Seq::new(disks[0].len(), |p: int| 0u8),
        forall|k: int| 0 <= k < ws.len() ==> #[trigger] disks[k + 1] == overwrite(disks[k], ws[k].0, ws[k].1),
    ensures
        disks.last() == apply_writes(disks[0], ws),
        disks.last().len() == disks[0].len(),
        forall|p: int| 0 <= p < disks[0].len() ==> #[trigger] disks.last()[p] == last_write_byte(disks[0], ws, p),
        forall|p: int|
            0 <= p < disks[0].len() && (forall|k: int|
                0 <= k < ws.len() ==> !((#[trigger] ws[k]).0 <= p < ws[k].0 + ws[k].1.len())) ==> #[trigger] disks.last()[p]
                == 0u8,
{
    lemma_writes_compose(disks, ws);
    assert forall|p: int| 0 <= p < disks[0].len() implies #[trigger] disks.last()[p] == last_write_byte(
        disks[0],
        ws,
        p,
    ) by {
        lemma_last_write_wins(disks[0], ws, p);
    }
    lemma_apply_writes_len(disks[0], ws);
    assert forall|p: int|
        0 <= p < disks[0].len() && (forall|k: int|
            0 <= k < ws.len() ==> !((#[trigger] ws[k]).0 <= p < ws[k].0 + ws[k].1.len())) implies #[trigger] disks.last()[p]
        == 0u8 by {
        lemma_last_write_wins(disks[0], ws, p);
        lemma_uncovered_byte(disks[0], ws, p);
    }
}

proof fn lemma_apply_writes_len(c: Seq<u8>, ws: Seq<(int, Seq<u8>)>)
    ensures
        apply_writes(c, ws).len() == c.len(),
    decreases ws.len(),
{
    if ws.len() > 0 {
        lemma_apply_writes_len(c, ws.drop_last());
    }
}

proof fn lemma_uncovered_byte(c: Seq<u8>, ws: Seq<(int, Seq<u8>)>, p: int)
    requires
        forall|k: int| 0 <= k < ws.len() ==> !((#[trigger] ws[k]).0 <= p < ws[k].0 + ws[k].1.len()),
    ensures
        last_write_byte(c, ws, p) == c[p],
    decreases ws.len(),
{
    if ws.len() > 0 {
        let d = ws.drop_last();
        assert forall|k: int| 0 <= k < d.len() implies !((#[trigger] d[k]).0 <= p < d[k].0 + d[k].1.len()) by {
            assert(d[k] == ws[k]);
        }
        lemma_uncovered_byte(c, d, p);
        assert(!(ws[ws.len() - 1].0 <= p < ws[ws.len() - 1].0 + ws[ws.len() - 1].1.len()));
    }
}

/// The bytes that a stream reads from position `pos` on, `chunk` bytes per
/// read, until a read returns nothing: each read takes what
/// `VDiskCursor::read_span` gives, the chunk or what is left of the disk.
pub open spec fn stream_bytes(c: Seq<u8>, pos: int, chunk: int) -> Seq<u8>
    decreases c.len() - pos,
{
    if pos >= c.len() || chunk <= 0 || pos < 0 {
        Seq::empty()
    } else {
        let n = if chunk <= c.len() - pos { chunk } else { c.len() - pos };
        c.subrange(pos, pos + n) + stream_bytes(c, pos + n, chunk)
    }
}

/// Stream law: reading a disk as a stream, chunk after chunk until the end,
/// gives every byte of it from the starting position on.
pub proof fn lemma_stream_reads_rest(c: Seq<u8>, pos: int, chunk: int)
    requires
        0 <= pos <= c.len(),
        chunk > 0,
    ensures
        stream_bytes(c, pos, chunk) == c.subrange(pos, c.len() as int),
    decreases c.len() - pos,
{
    if pos < c.len() {
        let n = if chunk <= c.len() - pos { chunk } else { c.len() - pos };
        lemma_stream_reads_rest(c, pos + n, chunk);
        assert(c.subrange(pos, pos + n) + c.subrange(pos + n, c.len() as int) =~= c.subrange(pos, c.len() as int));
    } else {
        assert(c.subrange(pos, c.len() as int) =~= Seq::<u8>::empty());
    }
}

/// The part of a disk-level read or write that falls in one block.
#[derive(Debug, Clone, Copy, PartialEq, Eq, Structural)]
pub struct Segment {
    pub block_index: u64,
    pub block_offset: usize,
    pub len: usize,
}

/// The pieces, block by block and in order, of `remaining` bytes of the disk
/// from position `pos` on.
pub open spec fn segments_from(pos: int, remaining: int) -> Seq<Segment>
    decreases remaining,
{
    if remaining <= 0 || pos < 0 {
        Seq::empty()
    } else {
        let b = VDISK_BLOCK_SIZE as int;
        let n = span_in_block(pos % b, remaining);
        seq![Segment { block_index: (pos / b) as u64, block_offset: (pos % b) as usize, len: n as usize }]
            + segments_from(pos + n, remaining - n)
    }
}

/// The disk position where a segment starts.
pub open spec fn seg_start(s: Segment) -> int {
    s.block_index * VDISK_BLOCK_SIZE + s.block_offset
}

/// The segments of a request tile it: each lies within one block and is not
/// empty, the first starts where the request starts, each starts where the
/// previous one ends, and the last ends where the request ends.
pub proof fn lemma_segments_tile(pos: int, rem: int)
    requires
        0 <= pos,
        0 <= rem,
        pos + rem <= u64::MAX,
    ensures
        ({
            let segs = segments_from(pos, rem);
            &&& rem == 0 ==> segs.len() == 0
            &&& rem > 0 ==> {
                &&& segs.len() > 0
                &&& seg_start(segs[0]) == pos
                &&& seg_start(segs.last()) + segs.last().len == pos + rem
            }
            &&& forall|k: int|
                0 <= k < segs.len() ==> 0 < (#[trigger] segs[k]).len && segs[k].block_offset + segs[k].len
                    <= VDISK_BLOCK_SIZE
            &&& forall|j: int, k: int|
                0 <= j && k == j + 1 && k < segs.len() ==> seg_start(#[trigger] segs[k]) == seg_start(
                    #[trigger] segs[j],
                ) + segs[j].len
        }),
    decreases rem,
{
    if rem > 0 {
        let b = VDISK_BLOCK_SIZE as int;
        vstd::arithmetic::div_mod::lemma_fundamental_div_mod(pos, b);
        let n = span_in_block(pos % b, rem);
        let s0 = Segment { block_index: (pos / b) as u64, block_offset: (pos % b) as usize, len: n as usize };
        let rest = segments_from(pos + n, rem - n);
        let segs = segments_from(pos, rem);
        assert(segs == seq![s0] + rest);
        assert(seg_start(s0) == pos);
        lemma_segments_tile(pos + n, rem - n);
        assert forall|k: int| 0 <= k < segs.len() implies 0 < (#[trigger] segs[k]).len && segs[k].block_offset
            + segs[k].len <= VDISK_BLOCK_SIZE by {
            if k > 0 {
                assert(segs[k] == rest[k - 1]);
            }
        }
        assert forall|j: int, k: int| 0 <= j && k == j + 1 && k < segs.len() implies seg_start(
            #[trigger] segs[k],
        ) == seg_start(#[trigger] segs[j]) + segs[j].len by {
            assert(segs[k] == rest[k - 1]);
            if j > 0 {
                assert(segs[j] == rest[j - 1]);
            }
        }
        if rem - n > 0 {
            assert(segs.last() == rest.last());
        } else {
            assert(segs.len() == 1);
        }
    }
}

/// Splits `len` bytes of a disk of `disk_size` bytes from `offset` on into
/// their pieces in each block, refusing a request that starts or ends past
/// the end of the disk as a read does (or, when `writing`, as a write does).
pub fn plan_segments(offset: u64, len: usize, disk_size: u64, writing: bool) -> (r: Result<Vec<Segment>, VDiskError>)
    requires
        offset + len <= u64::MAX,
    ensures
        len == 0 ==> (r matches Ok(segs) && segs@.len() == 0),
        len > 0 && offset > disk_size ==> r == Err::<Vec<Segment>, VDiskError>(VDiskError::OffsetOutOfRange),
        len > 0 && offset <= disk_size && offset + len > disk_size ==> r == Err::<Vec<Segment>, VDiskError>(
            if writing {
                VDiskError::WriteExceedsDiskSize
            } else {
                VDiskError::ReadExceedsDiskSize
            },
        ),
        len > 0 && offset + len <= disk_size ==> (r matches Ok(segs) && segs@ == segments_from(
            offset as int,
            len as int,
        )),
{
    if len == 0 {
        return Ok(Vec::new());
    }
    if offset > disk_size {
        return Err(VDiskError::OffsetOutOfRange);
    }
    if offset + len as u64 > disk_size {
        return Err(
            if writing {
                VDiskError::WriteExceedsDiskSize
            } else {
                VDiskError::ReadExceedsDiskSize
            },
        );
    }
    let mut segs: Vec<Segment> = Vec::new();
    let mut pos: u64 = offset;
    let mut rem: usize = len;
    assert(segs@ + segments_from(pos as int, rem as int) =~= segments_from(offset as int, len as int));
    while rem > 0
        invariant
            offset + len <= u64::MAX,
            pos + rem == offset + len,
            segs@ + segments_from(pos as int, rem as int) == segments_from(offset as int, len as int),
        decreases rem,
    {
        let bo = (pos % VDISK_BLOCK_SIZE) as usize;
        let room = VDISK_BLOCK_SIZE as usize - bo;
        let n = if rem > room { room } else { rem };
        let ghost before = segs@;
        let seg = Segment { block_index: pos / VDISK_BLOCK_SIZE, block_offset: bo, len: n };
        segs.push(seg);
        proof {
            assert(segments_from(pos as int, rem as int) == seq![seg] + segments_from(pos + n, rem - n));
            assert(segs@ + segments_from(pos + n, rem - n) =~= before + (seq![seg] + segments_from(pos + n, rem - n)));
        }
        pos = pos + n as u64;
        rem = rem - n;
    }
    assert(segs@ + segments_from(pos as int, 0) =~= segs@);
    Ok(segs)
}

impl MemVDisk {
    /// Reads as a stream at `cursor`: up to `buf_len` bytes from its
    /// position, none at the end of the disk, and moves past them. Reading
    /// on until nothing comes back yields `stream_bytes` of the disk.
    pub fn stream_read(&self, cursor: &mut VDiskCursor, buf_len: usize) -> (r: Result<Vec<u8>, VDiskError>)
        requires
            self.image_ok(),
            old(cursor).position <= self.contents().len(),
        ensures
            ({
                let c = self.contents();
                let pos = old(cursor).position as int;
                let n: int = if pos >= c.len() {
                    0
                } else if buf_len <= c.len() - pos {
                    buf_len as int
                } else {
                    c.len() - pos
                };
                &&& r matches Ok(bytes) && bytes@ == c.subrange(pos, pos + n)
                &&& final(cursor).position == pos + n
                &&& buf_len > 0 ==> (r matches Ok(bytes) && bytes@ + stream_bytes(c, pos + n, buf_len as int)
                    == stream_bytes(c, pos, buf_len as int))
            }),
    {
        let size = self.size();
        let n = cursor.read_span(buf_len, size);
        let ghost c = self.contents();
        let ghost pos = cursor.position as int;
        if n == 0 {
            proof {
                assert(c.subrange(pos, pos) =~= Seq::<u8>::empty());
                if buf_len > 0 {
                    assert(Seq::<u8>::empty() + stream_bytes(c, pos, buf_len as int) =~= stream_bytes(
                        c,
                        pos,
                        buf_len as int,
                    ));
                }
            }
            return Ok(Vec::new());
        }
        let bytes = self.read(cursor.position, n)?;
        cursor.advance(n);
        Ok(bytes)
    }
}

/// The position of a stream over a virtual disk.
pub struct VDiskCursor {
    pub position: u64,
}

impl VDiskCursor {
    /// A stream at the start of the disk.
    pub fn new() -> (c: Self)
        ensures
            c.position == 0,
    {
        VDiskCursor { position: 0 }
    }

    /// Returns the current position.
    pub fn position(&self) -> (p: u64)
        ensures
            p == self.position,
    {
        self.position
    }

    /// Moves to `pos`, which may be the end of the disk but not past it.
    pub fn seek(&mut self, pos: u64, disk_size: u64) -> (r: Result<(), VDiskError>)
        ensures
            pos > disk_size ==> r == Err::<(), VDiskError>(VDiskError::SeekOutOfRange) && final(self).position
                == old(self).position,
            pos <= disk_size ==> r == Ok::<(), VDiskError>(()) && final(self).position == pos,
    {
        if pos > disk_size {
            return Err(VDiskError::SeekOutOfRange);
        }
        self.position = pos;
        Ok(())
    }

    /// Moves by `offset` bytes from the current position; a target before
    /// byte 0 or past the end of the disk is refused and the position kept.
    pub fn seek_relative(&mut self, offset: i64, disk_size: u64) -> (r: Result<u64, VDiskError>)
        requires
            offset != i64::MIN,
        ensures
            ({
                let target: int = old(self).position + offset;
                &&& (target < 0 || target > disk_size) ==> r == Err::<u64, VDiskError>(VDiskError::SeekOutOfRange)
                    && final(self).position == old(self).position
                &&& 0 <= target <= disk_size ==> r == Ok::<u64, VDiskError>(target as u64) && final(self).position
                    == target
            }),
    {
        let new_pos = if offset >= 0 {
            match self.position.checked_add(offset as u64) {
                Some(p) => p,
                None => {
                    return Err(VDiskError::SeekOutOfRange);
                },
            }
        } else {
            let back = (-offset) as u64;
            if back > self.position {
                return Err(VDiskError::SeekOutOfRange);
            }
            self.position - back
        };
        self.seek(new_pos, disk_size)?;
        Ok(new_pos)
    }

    /// Moves to `offset` bytes from the end of the disk: `offset` may not be
    /// positive, nor reach before byte 0.
    pub fn seek_from_end(&mut self, offset: i64, disk_size: u64) -> (r: Result<u64, VDiskError>)
        requires
            offset != i64::MIN,
        ensures
            offset > 0 || -offset > disk_size ==> r == Err::<u64, VDiskError>(VDiskError::SeekOutOfRange)
                && final(self).position == old(self).position,
            offset <= 0 && -offset <= disk_size ==> r == Ok::<u64, VDiskError>((disk_size + offset) as u64)
                && final(self).position == disk_size + offset,
    {
        if offset > 0 || (-offset) as u64 > disk_size {
            return Err(VDiskError::SeekOutOfRange);
        }
        let ret = disk_size - (-offset) as u64;
        self.seek(ret, disk_size)?;
        Ok(ret)
    }

    /// Number of bytes a read of `buf_len` bytes takes from the current
    /// position: none at or past the end of the disk.
    pub fn read_span(&self, buf_len: usize, disk_size: u64) -> (n: usize)
        ensures
            self.position >= disk_size ==> n == 0,
            self.position < disk_size ==> n == if buf_len <= disk_size - self.position {
                buf_len as int
            } else {
                disk_size - self.position
            },
    {
        if self.position >= disk_size {
            return 0;
        }
        let remaining = disk_size - self.position;
        if (buf_len as u64) <= remaining {
            buf_len
        } else {
            remaining as usize
        }
    }

    /// Number of bytes a write of `buf_len` bytes puts at the current
    /// position; a write of something at or past the end of the disk is
    /// refused.
    pub fn write_span(&self, buf_len: usize, disk_size: u64) -> (r: Result<usize, VDiskError>)
        requires
            self.position <= disk_size,
        ensures
            self.position >= disk_size && buf_len > 0 ==> r == Err::<usize, VDiskError>(VDiskError::WriteExceedsDiskSize),
            !(self.position >= disk_size && buf_len > 0) ==> r == Ok::<usize, VDiskError>(
                if buf_len <= disk_size - self.position {
                    buf_len
                } else {
                    (disk_size - self.position) as usize
                },
            ),
    {
        if self.position >= disk_size && buf_len > 0 {
            return Err(VDiskError::WriteExceedsDiskSize);
        }
        let remaining = disk_size - self.position;
        if (buf_len as u64) <= remaining {
            Ok(buf_len)
        } else {
            Ok(remaining as usize)
        }
    }

    /// Moves forward over `n` bytes just read or written.
    pub fn advance(&mut self, n: usize)
        requires
            old(self).position + n <= u64::MAX,
        ensures
            final(self).position == old(self).position + n,
    {
        self.position = self.position + n as u64;
    }
}

} // verus!
