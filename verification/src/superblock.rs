//! How a superblock is laid out over the disks of a pool, and how a
//! superblock read back from the disks is checked and repaired.
use vstd::prelude::*;
use vstd::slice::slice_subrange;
use crate::geometry::{BLOCK_SIZE, DATA_SIZE, SUBBLOCK_SIZE, SUBBLOCKS_PER_BLOCK, HASH_BYTES};
use crate::hashing::{blake3_digest, blake3_hash};
use crate::parity::{
    xor_column, xor_column_except, lemma_xor_column_same, lemma_xor_except_same,
    lemma_parity_rebuilds_any_block,
};

verus! {

/// The byte contents of a list of blocks.
pub open spec fn block_views(v: Seq<Vec<u8>>) -> Seq<Seq<u8>> {
    Seq::new(v.len(), |e: int| v[e]@)
}

/// Byte `p` of `data` repeated from its start until it fills the superblock.
pub open spec fn padded_byte(data: Seq<u8>, p: int) -> u8 {
    data[p % (data.len() as int)]
}

/// Subblock `i` of the data section of a block.
pub open spec fn subblock_of(block: Seq<u8>, i: int) -> Seq<u8> {
    block.subrange(i * SUBBLOCK_SIZE, i * SUBBLOCK_SIZE + SUBBLOCK_SIZE)
}

/// The hash stored for subblock `i` in the hash section of a block.
pub open spec fn stored_hash_of(block: Seq<u8>, i: int) -> Seq<u8> {
    block.subrange(DATA_SIZE + i * HASH_BYTES, DATA_SIZE + i * HASH_BYTES + HASH_BYTES)
}

/// The stored hash of subblock `i` is the hash of its contents.
pub open spec fn subblock_sound(block: Seq<u8>, i: int) -> bool {
    blake3_digest(subblock_of(block, i)) == stored_hash_of(block, i)
}

/// A block of full size whose hash section matches each of its subblocks.
pub open spec fn block_sealed(block: Seq<u8>) -> bool {
    &&& block.len() == BLOCK_SIZE
    &&& forall|i: int| 0 <= i < SUBBLOCKS_PER_BLOCK ==> #[trigger] subblock_sound(block, i)
}

/// The parity block (the last one) is the XOR of the data blocks over the
/// whole data section.
pub open spec fn parity_holds(blocks: Seq<Seq<u8>>) -> bool {
    forall|k: int|
        0 <= k < DATA_SIZE ==> #[trigger] blocks[blocks.len() - 1][k] == xor_column(
            blocks,
            blocks.len() - 1,
            k,
        )
}

/// `blocks` is what `layout_superblock` writes for `data` on `n` disks: the
/// data, repeated from its start to fill the superblock, laid out
/// horizontally over the `n - 1` data disks; their XOR on the last disk;
/// every block sealed with the hashes of its subblocks.
pub open spec fn is_layout_of(blocks: Seq<Seq<u8>>, data: Seq<u8>, n: int) -> bool {
    &&& blocks.len() == n
    &&& n >= 2
    &&& forall|e: int| 0 <= e < n ==> #[trigger] block_sealed(blocks[e])
    &&& forall|d: int, k: int|
        0 <= d < n - 1 && 0 <= k < DATA_SIZE ==> #[trigger] blocks[d][k] == padded_byte(
            data,
            d * DATA_SIZE + k,
        )
    &&& parity_holds(blocks)
}

proof fn lemma_xor_column_push(blocks: Seq<Seq<u8>>, extra: Seq<u8>, upto: int, k: int)
    requires
        upto == blocks.len(),
    ensures
        xor_column(blocks.push(extra), upto + 1, k) == xor_column(blocks, upto, k) ^ extra[k],
{
    lemma_xor_column_same(blocks.push(extra), blocks, upto, k);
}

/// Appends to a full data section the hash section made of the given
/// digests, one per subblock, in order.
pub fn append_hash_section(section: Vec<u8>, digests: &Vec<Vec<u8>>) -> (block: Vec<u8>)
    requires
        section@.len() == DATA_SIZE,
        digests@.len() == SUBBLOCKS_PER_BLOCK,
        forall|j: int| 0 <= j < SUBBLOCKS_PER_BLOCK ==> (#[trigger] digests@[j])@.len() == HASH_BYTES,
    ensures
        block@.len() == BLOCK_SIZE,
        block@.subrange(0, DATA_SIZE as int) == section@,
        forall|j: int| 0 <= j < SUBBLOCKS_PER_BLOCK ==> #[trigger] stored_hash_of(block@, j) == digests@[j]@,
{
    let ghost data = section@;
    let mut block = section;
    let mut i: usize = 0;
    while i < SUBBLOCKS_PER_BLOCK
        invariant
            0 <= i <= SUBBLOCKS_PER_BLOCK,
            digests@.len() == SUBBLOCKS_PER_BLOCK,
            forall|j: int| 0 <= j < SUBBLOCKS_PER_BLOCK ==> (#[trigger] digests@[j])@.len() == HASH_BYTES,
            block@.len() == DATA_SIZE + i * HASH_BYTES,
            block@.subrange(0, DATA_SIZE as int) == data,
            forall|j: int| 0 <= j < i ==> #[trigger] stored_hash_of(block@, j) == digests@[j]@,
        decreases SUBBLOCKS_PER_BLOCK - i,
    {
        let ghost before = block@;
        block.extend_from_slice(digests[i].as_slice());
        proof {
            assert(block@.subrange(0, DATA_SIZE as int) =~= data) by {
                assert(block@.subrange(0, DATA_SIZE as int) =~= before.subrange(0, DATA_SIZE as int));
            }
            assert forall|j: int| 0 <= j < i + 1 implies #[trigger] stored_hash_of(block@, j)
                == digests@[j]@ by {
                if j < i {
                    assert(stored_hash_of(block@, j) =~= stored_hash_of(before, j));
                } else {
                    assert(stored_hash_of(block@, j) =~= digests@[j]@);
                }
            }
        }
        i = i + 1;
    }
    block
}

/// Appends to a full data section the hash section that covers it.
fn seal_block(section: Vec<u8>) -> (block: Vec<u8>)
    requires
        section@.len() == DATA_SIZE,
    ensures
        block@.subrange(0, DATA_SIZE as int) == section@,
        block_sealed(block@),
{
    let ghost data = section@;
    let mut digests: Vec<Vec<u8>> = Vec::new();
    let mut i: usize = 0;
    while i < SUBBLOCKS_PER_BLOCK
        invariant
            0 <= i <= SUBBLOCKS_PER_BLOCK,
            section@ == data,
            data.len() == DATA_SIZE,
            digests@.len() == i,
            forall|j: int| 0 <= j < i ==> (#[trigger] digests@[j])@ == blake3_digest(subblock_of(data, j)),
            forall|j: int| 0 <= j < i ==> (#[trigger] digests@[j])@.len() == HASH_BYTES,
        decreases SUBBLOCKS_PER_BLOCK - i,
    {
        let start: usize = i * 4096;
        assert(start + 4096 <= DATA_SIZE);
        let piece = slice_subrange(section.as_slice(), start, start + SUBBLOCK_SIZE as usize);
        assert(piece@ =~= subblock_of(data, i as int));
        let digest = blake3_hash(piece);
        digests.push(digest);
        i = i + 1;
    }
    let block = append_hash_section(section, &digests);
    proof {
        assert forall|j: int| 0 <= j < SUBBLOCKS_PER_BLOCK implies #[trigger] subblock_sound(
            block@,
            j,
        ) by {
            assert(subblock_of(block@, j) =~= subblock_of(data, j));
            assert(stored_hash_of(block@, j) == digests@[j]@);
        }
    }
    block
}

/// Lays out the data of one superblock over `num_disks` disks and returns
/// the block to write on each disk at the superblock's offset.
///
/// Data shorter than the superblock is padded by repeating it from its
/// start. The data fills the data disks horizontally (the first 512 KiB on
/// the first disk, and so on); the last disk holds their XOR; each block ends
/// with the BLAKE3 hashes of its 128 subblocks.
pub fn layout_superblock(data: &[u8], num_disks: usize) -> (blocks: Vec<Vec<u8>>)
    requires
        num_disks >= 2,
        DATA_SIZE * (num_disks - 1) <= usize::MAX,
        0 < data@.len() <= DATA_SIZE * (num_disks - 1),
    ensures
        is_layout_of(block_views(blocks@), data@, num_disks as int),
{
    let n_data: usize = num_disks - 1;
    let len: usize = data.len();
    let mut parity: Vec<u8> = vec![0u8; DATA_SIZE as usize];
    let mut blocks: Vec<Vec<u8>> = Vec::new();
    let mut pos: usize = 0;
    let mut d: usize = 0;
    while d < n_data
        invariant
            0 <= d <= n_data,
            n_data == num_disks - 1,
            DATA_SIZE * n_data <= usize::MAX,
            len == data@.len(),
            len > 0,
            pos == d * DATA_SIZE,
            blocks@.len() == d,
            parity@.len() == DATA_SIZE,
            forall|e: int| 0 <= e < d ==> #[trigger] block_sealed(blocks@[e]@),
            forall|e: int, k: int|
                0 <= e < d && 0 <= k < DATA_SIZE ==> #[trigger] blocks@[e]@[k] == padded_byte(
                    data@,
                    e * DATA_SIZE + k,
                ),
            forall|k: int|
                0 <= k < DATA_SIZE ==> #[trigger] parity@[k] == xor_column(
                    block_views(blocks@),
                    d as int,
                    k,
                ),
        decreases n_data - d,
    {
        proof {
            assert((d + 1) * DATA_SIZE <= DATA_SIZE * n_data) by (nonlinear_arith)
                requires
                    d < n_data,
            ;
            assert((d + 1) * DATA_SIZE == d * DATA_SIZE + DATA_SIZE) by (nonlinear_arith);
        }
        let mut section: Vec<u8> = Vec::with_capacity(DATA_SIZE as usize);
        let mut k: usize = 0;
        while k < DATA_SIZE as usize
            invariant
                0 <= k <= DATA_SIZE,
                d < n_data,
                (d + 1) * DATA_SIZE <= usize::MAX,
                (d + 1) * DATA_SIZE == d * DATA_SIZE + DATA_SIZE,
                len == data@.len(),
                len > 0,
                pos == d * DATA_SIZE + k,
                section@.len() == k,
                parity@.len() == DATA_SIZE,
                forall|j: int|
                    0 <= j < k ==> #[trigger] section@[j] == padded_byte(data@, d * DATA_SIZE + j),
                forall|j: int|
                    0 <= j < DATA_SIZE ==> #[trigger] parity@[j] == if j < k {
                        xor_column(block_views(blocks@), d as int, j) ^ section@[j]
                    } else {
                        xor_column(block_views(blocks@), d as int, j)
                    },
            decreases DATA_SIZE - k,
        {
            let b = data[pos % len];
            section.push(b);
            let p = parity[k] ^ b;
            parity.set(k, p);
            k = k + 1;
            pos = pos + 1;
        }
        let block = seal_block(section);
        let ghost old_views = block_views(blocks@);
        blocks.push(block);
        proof {
            assert(block_views(blocks@) =~= old_views.push(block@));
            assert forall|j: int| 0 <= j < DATA_SIZE implies #[trigger] parity@[j] == xor_column(
                block_views(blocks@),
                d + 1,
                j,
            ) by {
                lemma_xor_column_push(old_views, block@, d as int, j);
                assert(block@[j] == block@.subrange(0, DATA_SIZE as int)[j]);
            }
            assert forall|e: int, k2: int|
                0 <= e < d + 1 && 0 <= k2 < DATA_SIZE implies #[trigger] blocks@[e]@[k2]
                == padded_byte(data@, e * DATA_SIZE + k2) by {
                if e == d {
                    assert(blocks@[e]@[k2] == blocks@[e]@.subrange(0, DATA_SIZE as int)[k2]);
                }
            }
        }
        d = d + 1;
    }
    let parity_block = seal_block(parity);
    let ghost data_views = block_views(blocks@);
    blocks.push(parity_block);
    proof {
        let views = block_views(blocks@);
        assert(views =~= data_views.push(parity_block@));
        assert forall|k: int| 0 <= k < DATA_SIZE implies #[trigger] views[views.len() - 1][k]
            == xor_column(views, views.len() - 1, k) by {
            lemma_xor_column_same(views, data_views, n_data as int, k);
            assert(parity_block@[k] == parity_block@.subrange(0, DATA_SIZE as int)[k]);
        }
        assert forall|e: int| 0 <= e < num_disks implies #[trigger] block_sealed(views[e]) by {}
    }
    blocks
}

/// A freshly laid-out superblock holds the data itself: byte `p` of the data
/// is byte `p % 512 KiB` of data disk `p / 512 KiB`.
pub proof fn lemma_layout_holds_data(blocks: Seq<Seq<u8>>, data: Seq<u8>, n: int, p: int)
    requires
        is_layout_of(blocks, data, n),
        data.len() <= DATA_SIZE * (n - 1),
        0 <= p < data.len(),
    ensures
        blocks[p / (DATA_SIZE as int)][p % (DATA_SIZE as int)] == data[p],
{
    let d = p / (DATA_SIZE as int);
    let k = p % (DATA_SIZE as int);
    vstd::arithmetic::div_mod::lemma_fundamental_div_mod(p, DATA_SIZE as int);
    assert(d * DATA_SIZE + k == p) by (nonlinear_arith)
        requires
            p == (DATA_SIZE as int) * d + k,
    ;
    assert(d < n - 1) by (nonlinear_arith)
        requires
            p == (DATA_SIZE as int) * d + k,
            0 <= k,
            p < DATA_SIZE * (n - 1),
    ;
    vstd::arithmetic::div_mod::lemma_small_mod(p as nat, data.len());
    assert(blocks[d][k] == padded_byte(data, d * DATA_SIZE + k));
}

/// What scrubbing concludes about one vertical supersubblock (the subblocks
/// at the same position on every disk).
#[derive(Debug, Clone, Copy, PartialEq, Eq, Structural)]
pub enum VssbState {
    /// Every subblock matches its stored hash.
    Intact,
    /// Only the subblock on this data disk mismatches, and the parity
    /// subblock matches: it can be rebuilt.
    Repairable(usize),
    /// Two or more subblocks mismatch, or the one that does is the parity.
    Unrepairable,
}

/// Disk `d` holds the only subblock of the supersubblock `i` that mismatches
/// its stored hash.
pub open spec fn only_unsound(blocks: Seq<Seq<u8>>, i: int, d: int) -> bool {
    &&& 0 <= d < blocks.len()
    &&& !subblock_sound(blocks[d], i)
    &&& forall|e: int| 0 <= e < blocks.len() && e != d ==> #[trigger] subblock_sound(blocks[e], i)
}

/// The state of the vertical supersubblock `i` of a superblock.
pub open spec fn vssb_state(blocks: Seq<Seq<u8>>, i: int) -> VssbState {
    let n = blocks.len() as int;
    if forall|e: int| 0 <= e < n ==> #[trigger] subblock_sound(blocks[e], i) {
        VssbState::Intact
    } else if exists|d: int| only_unsound(blocks, i, d) && d < n - 1 {
        VssbState::Repairable((choose|d: int| only_unsound(blocks, i, d) && d < n - 1) as usize)
    } else {
        VssbState::Unrepairable
    }
}

/// The subblock `i` of disk `lost` rebuilt as the XOR of the subblocks at the
/// same position on all other disks, parity included.
pub open spec fn rebuilt_subblock(blocks: Seq<Seq<u8>>, i: int, lost: int) -> Seq<u8> {
    Seq::new(
        SUBBLOCK_SIZE as nat,
        |j: int| xor_column_except(blocks, lost, blocks.len() as int, i * SUBBLOCK_SIZE + j),
    )
}

/// Every block read has the full block size.
pub open spec fn all_blocks_full(blocks: Seq<Vec<u8>>) -> bool {
    forall|e: int| 0 <= e < blocks.len() ==> (#[trigger] blocks[e])@.len() == BLOCK_SIZE
}

/// Compares two byte strings.
fn bytes_equal(a: &[u8], b: &[u8]) -> (eq: bool)
    ensures
        eq == (a@ == b@),
{
    if a.len() != b.len() {
        return false;
    }
    let mut j: usize = 0;
    while j < a.len()
        invariant
            a@.len() == b@.len(),
            0 <= j <= a@.len(),
            forall|t: int| 0 <= t < j ==> a@[t] == b@[t],
        decreases a@.len() - j,
    {
        if a[j] != b[j] {
            return false;
        }
        j = j + 1;
    }
    assert(a@ =~= b@);
    true
}

/// Only the check on disk `d` fails.
pub open spec fn only_failed(ok: Seq<bool>, d: int) -> bool {
    &&& 0 <= d < ok.len()
    &&& !ok[d]
    &&& forall|e: int| 0 <= e < ok.len() && e != d ==> #[trigger] ok[e]
}

/// The state of a supersubblock from whether the subblock on each disk
/// matches its stored hash (the last disk holding the parity).
pub open spec fn state_from_checks(ok: Seq<bool>) -> VssbState {
    let n = ok.len() as int;
    if forall|e: int| 0 <= e < n ==> #[trigger] ok[e] {
        VssbState::Intact
    } else if exists|d: int| only_failed(ok, d) && d < n - 1 {
        VssbState::Repairable((choose|d: int| only_failed(ok, d) && d < n - 1) as usize)
    } else {
        VssbState::Unrepairable
    }
}

/// Whether each digest equals the hash stored for subblock `i` on its disk.
pub open spec fn digest_checks(blocks: Seq<Seq<u8>>, i: int, digests: Seq<Seq<u8>>) -> Seq<bool> {
    Seq::new(blocks.len(), |e: int| digests[e] == stored_hash_of(blocks[e], i))
}

/// The byte contents of a list of digests.
pub open spec fn digest_views(v: Seq<Vec<u8>>) -> Seq<Seq<u8>> {
    Seq::new(v.len(), |e: int| v[e]@)
}

/// Decides the state of a supersubblock from the checks of its subblocks.
fn classify_checks(ok: &Vec<bool>) -> (state: VssbState)
    requires
        ok@.len() >= 1,
    ensures
        state == state_from_checks(ok@),
{
    let n = ok.len();
    let mut bad: Option<usize> = None;
    let mut many: bool = false;
    let mut e: usize = 0;
    while e < n
        invariant
            n == ok@.len(),
            0 <= e <= n,
            !many && bad is None ==> forall|j: int| 0 <= j < e ==> #[trigger] ok@[j],
            !many && bad is Some ==> {
                &&& bad->0 < e
                &&& !ok@[bad->0 as int]
                &&& forall|j: int| 0 <= j < e && j != bad->0 ==> #[trigger] ok@[j]
            },
            many ==> exists|j1: int, j2: int| 0 <= j1 < j2 < e && !ok@[j1] && !ok@[j2],
        decreases n - e,
    {
        if !ok[e] {
            match bad {
                None => {
                    bad = Some(e);
                },
                Some(d) => {
                    proof {
                        if !many {
                            assert(0 <= d < e && !ok@[d as int] && !ok@[e as int]);
                        }
                    }
                    many = true;
                },
            }
        }
        e = e + 1;
    }
    if many {
        proof {
            let (j1, j2) = choose|j1: int, j2: int| 0 <= j1 < j2 < n && !ok@[j1] && !ok@[j2];
            assert(!(forall|t: int| 0 <= t < n ==> #[trigger] ok@[t]));
            assert forall|d: int| !(only_failed(ok@, d) && d < n - 1) by {
                if only_failed(ok@, d) {
                    if d != j1 {
                        assert(ok@[j1]);
                    } else {
                        assert(ok@[j2]);
                    }
                }
            }
        }
        return VssbState::Unrepairable;
    }
    match bad {
        None => VssbState::Intact,
        Some(d) => {
            proof {
                assert(!(forall|t: int| 0 <= t < n ==> #[trigger] ok@[t]));
                assert(only_failed(ok@, d as int));
                assert forall|d2: int| only_failed(ok@, d2) implies d2 == d by {
                    if d2 != d {
                        assert(ok@[d as int]);
                    }
                }
            }
            if ok[n - 1] {
                proof {
                    let c = choose|t: int| only_failed(ok@, t) && t < n - 1;
                    assert(only_failed(ok@, d as int) && (d as int) < n - 1);
                    assert(c == d as int);
                }
                VssbState::Repairable(d)
            } else {
                proof {
                    assert(d as int == n - 1);
                    assert(!exists|t: int| only_failed(ok@, t) && t < n - 1);
                }
                VssbState::Unrepairable
            }
        },
    }
}

/// Decides what the vertical supersubblock `i` needs, given the digest of
/// its subblock on each disk: nothing, a rebuild of one data subblock, or
/// nothing can be done.
pub fn classify_digests(blocks: &Vec<Vec<u8>>, i: usize, digests: &Vec<Vec<u8>>) -> (state: VssbState)
    requires
        blocks@.len() >= 1,
        digests@.len() == blocks@.len(),
        i < SUBBLOCKS_PER_BLOCK,
        all_blocks_full(blocks@),
    ensures
        state == state_from_checks(digest_checks(block_views(blocks@), i as int, digest_views(digests@))),
{
    let ghost checks = digest_checks(block_views(blocks@), i as int, digest_views(digests@));
    let n = blocks.len();
    let mut ok: Vec<bool> = Vec::new();
    let mut e: usize = 0;
    while e < n
        invariant
            n == blocks@.len(),
            digests@.len() == n,
            i < SUBBLOCKS_PER_BLOCK,
            all_blocks_full(blocks@),
            checks == digest_checks(block_views(blocks@), i as int, digest_views(digests@)),
            0 <= e <= n,
            ok@ == checks.take(e as int),
        decreases n - e,
    {
        let block = blocks[e].as_slice();
        let hash_start: usize = 524288 + i * 32;
        let stored = slice_subrange(block, hash_start, hash_start + 32);
        proof {
            assert(stored@ =~= stored_hash_of(blocks@[e as int]@, i as int));
        }
        let matches = bytes_equal(digests[e].as_slice(), stored);
        ok.push(matches);
        assert(ok@ =~= checks.take(e + 1));
        e = e + 1;
    }
    assert(ok@ =~= checks);
    classify_checks(&ok)
}

/// The checks made with the true digests are the soundness of each subblock,
/// and they decide the state of the supersubblock.
proof fn lemma_checks_give_state(blocks: Seq<Seq<u8>>, i: int, digests: Seq<Seq<u8>>)
    requires
        digests.len() == blocks.len(),
        forall|e: int| 0 <= e < blocks.len() ==> #[trigger] digests[e] == blake3_digest(subblock_of(blocks[e], i)),
    ensures
        state_from_checks(digest_checks(blocks, i, digests)) == vssb_state(blocks, i),
{
    let ok = digest_checks(blocks, i, digests);
    let n = blocks.len() as int;
    assert forall|e: int| 0 <= e < n implies #[trigger] ok[e] == subblock_sound(blocks[e], i) by {
        assert(digests[e] == blake3_digest(subblock_of(blocks[e], i)));
    }
    assert forall|d: int| #[trigger] only_failed(ok, d) == only_unsound(blocks, i, d) by {
        if 0 <= d < n {
            assert(ok[d] == subblock_sound(blocks[d], i));
            if only_failed(ok, d) {
                assert forall|e: int| 0 <= e < n && e != d implies #[trigger] subblock_sound(blocks[e], i) by {
                    assert(ok[e]);
                }
            }
            if only_unsound(blocks, i, d) {
                assert forall|e: int| 0 <= e < n && e != d implies #[trigger] ok[e] by {
                    assert(subblock_sound(blocks[e], i));
                }
            }
        }
    }
    if forall|e: int| 0 <= e < n ==> #[trigger] subblock_sound(blocks[e], i) {
        assert(forall|e: int| 0 <= e < n ==> #[trigger] ok[e]);
    } else {
        assert(!(forall|e: int| 0 <= e < n ==> #[trigger] ok[e])) by {
            let e = choose|e: int| !(0 <= e < n ==> #[trigger] subblock_sound(blocks[e], i));
            assert(!ok[e]);
        }
        if exists|d: int| only_unsound(blocks, i, d) && d < n - 1 {
            let d1 = choose|d: int| only_unsound(blocks, i, d) && d < n - 1;
            assert(only_failed(ok, d1) && d1 < n - 1);
            let d2 = choose|d: int| only_failed(ok, d) && d < n - 1;
            assert(only_unsound(blocks, i, d2));
            assert(d1 == d2) by {
                if d1 != d2 {
                    assert(subblock_sound(blocks[d1], i));
                }
            }
        } else {
            assert(!exists|d: int| only_failed(ok, d) && d < n - 1) by {
                if exists|d: int| only_failed(ok, d) && d < n - 1 {
                    let d = choose|d: int| only_failed(ok, d) && d < n - 1;
                    assert(only_unsound(blocks, i, d));
                }
            }
        }
    }
}

/// Decides what the vertical supersubblock `i` of a superblock read from
/// `blocks.len()` disks needs: nothing, a rebuild of one data subblock, or
/// nothing can be done.
pub fn classify_vssb(blocks: &Vec<Vec<u8>>, i: usize) -> (state: VssbState)
    requires
        blocks@.len() >= 1,
        i < SUBBLOCKS_PER_BLOCK,
        all_blocks_full(blocks@),
    ensures
        state == vssb_state(block_views(blocks@), i as int),
{
    let ghost views = block_views(blocks@);
    let n = blocks.len();
    let mut digests: Vec<Vec<u8>> = Vec::new();
    let mut e: usize = 0;
    while e < n
        invariant
            n == blocks@.len(),
            views == block_views(blocks@),
            i < SUBBLOCKS_PER_BLOCK,
            all_blocks_full(blocks@),
            0 <= e <= n,
            digests@.len() == e,
            forall|j: int| 0 <= j < e ==> (#[trigger] digests@[j])@ == blake3_digest(subblock_of(views[j], i as int)),
        decreases n - e,
    {
        let block = blocks[e].as_slice();
        let start: usize = i * 4096;
        let piece = slice_subrange(block, start, start + 4096);
        proof {
            assert(piece@ =~= subblock_of(views[e as int], i as int));
        }
        digests.push(blake3_hash(piece));
        e = e + 1;
    }
    let state = classify_digests(blocks, i, &digests);
    proof {
        lemma_checks_give_state(views, i as int, digest_views(digests@));
    }
    state
}

/// Rebuilds subblock `i` of disk `lost` as the XOR of the subblocks at the
/// same position on all other disks, parity included.
pub fn reconstruct_subblock(blocks: &Vec<Vec<u8>>, i: usize, lost: usize) -> (data: Vec<u8>)
    requires
        i < SUBBLOCKS_PER_BLOCK,
        lost < blocks@.len(),
        all_blocks_full(blocks@),
    ensures
        data@ == rebuilt_subblock(block_views(blocks@), i as int, lost as int),
{
    let ghost views = block_views(blocks@);
    let base: usize = i * 4096;
    let mut out: Vec<u8> = vec![0u8; 4096];
    let mut e: usize = 0;
    while e < blocks.len()
        invariant
            views == block_views(blocks@),
            all_blocks_full(blocks@),
            lost < blocks@.len(),
            base == i * 4096,
            i < SUBBLOCKS_PER_BLOCK,
            0 <= e <= blocks@.len(),
            out@.len() == 4096,
            forall|j: int|
                0 <= j < 4096 ==> #[trigger] out@[j] == xor_column_except(views, lost as int, e as int, base + j),
        decreases blocks@.len() - e,
    {
        if e != lost {
            let mut j: usize = 0;
            while j < 4096
                invariant
                    views == block_views(blocks@),
                    all_blocks_full(blocks@),
                    e < blocks@.len(),
                    e != lost,
                    base == i * 4096,
                    i < SUBBLOCKS_PER_BLOCK,
                    0 <= j <= 4096,
                    out@.len() == 4096,
                    forall|t: int|
                        0 <= t < 4096 ==> #[trigger] out@[t] == if t < j {
                            xor_column_except(views, lost as int, e as int, base + t) ^ views[e as int][base + t]
                        } else {
                            xor_column_except(views, lost as int, e as int, base + t)
                        },
                decreases 4096 - j,
            {
                let v = out[j] ^ blocks[e][base + j];
                out.set(j, v);
                j = j + 1;
            }
        }
        e = e + 1;
    }
    assert(out@ =~= rebuilt_subblock(views, i as int, lost as int));
    out
}

/// A rebuilt subblock to be written back over a damaged one.
pub struct SubblockRepair {
    /// The disk whose subblock mismatched its hash.
    pub disk: usize,
    /// The position of the subblock within the block.
    pub subblock: usize,
    /// The rebuilt contents of the subblock.
    pub data: Vec<u8>,
}

/// What scrubbing one superblock found and what it would write back.
pub struct SuperblockScrub {
    /// Some supersubblock cannot be recovered.
    pub damaged: bool,
    /// Number of supersubblocks that parity can repair.
    pub repairable: u64,
    /// Number of supersubblocks that cannot be recovered.
    pub unrepairable: u64,
    /// The subblocks to rewrite, in the order of their position.
    pub repairs: Vec<SubblockRepair>,
}

/// The (disk, position) of each rebuildable subblock among the first `upto`
/// supersubblocks, in order of position.
pub open spec fn planned_repairs(blocks: Seq<Seq<u8>>, upto: int) -> Seq<(int, int)>
    decreases upto,
{
    if upto <= 0 {
        Seq::empty()
    } else {
        let prev = planned_repairs(blocks, upto - 1);
        match vssb_state(blocks, upto - 1) {
            VssbState::Repairable(d) => prev.push((d as int, upto - 1)),
            _ => prev,
        }
    }
}

/// Number of supersubblocks among the first `upto` that parity can repair.
pub open spec fn count_repairable(blocks: Seq<Seq<u8>>, upto: int) -> nat
    decreases upto,
{
    if upto <= 0 {
        0
    } else {
        count_repairable(blocks, upto - 1) + if vssb_state(blocks, upto - 1) is Repairable {
            1nat
        } else {
            0nat
        }
    }
}

/// Number of supersubblocks among the first `upto` that cannot be recovered.
pub open spec fn count_unrepairable(blocks: Seq<Seq<u8>>, upto: int) -> nat
    decreases upto,
{
    if upto <= 0 {
        0
    } else {
        count_unrepairable(blocks, upto - 1) + if vssb_state(blocks, upto - 1) == VssbState::Unrepairable {
            1nat
        } else {
            0nat
        }
    }
}

/// Some supersubblock among the first `upto` cannot be recovered.
pub open spec fn any_unrepairable(blocks: Seq<Seq<u8>>, upto: int) -> bool {
    exists|i: int| 0 <= i < upto && vssb_state(blocks, i) == VssbState::Unrepairable
}

/// `repairs` rewrites exactly the planned subblocks with their rebuilt contents.
pub open spec fn repairs_match(repairs: Seq<SubblockRepair>, blocks: Seq<Seq<u8>>, plan: Seq<(int, int)>) -> bool {
    &&& repairs.len() == plan.len()
    &&& forall|r: int|
        0 <= r < plan.len() ==> {
            &&& (#[trigger] repairs[r]).disk == plan[r].0
            &&& repairs[r].subblock == plan[r].1
            &&& repairs[r].data@ == rebuilt_subblock(blocks, plan[r].1, plan[r].0)
        }
}

/// Checks every vertical supersubblock of a superblock read from the disks
/// and, unless `dry_run`, rebuilds each data subblock that can be repaired.
pub fn scrub_superblock(blocks: &Vec<Vec<u8>>, dry_run: bool) -> (report: SuperblockScrub)
    requires
        blocks@.len() >= 1,
        all_blocks_full(blocks@),
    ensures
        report.damaged == any_unrepairable(block_views(blocks@), SUBBLOCKS_PER_BLOCK as int),
        report.repairable == count_repairable(block_views(blocks@), SUBBLOCKS_PER_BLOCK as int),
        report.unrepairable == count_unrepairable(block_views(blocks@), SUBBLOCKS_PER_BLOCK as int),
        !dry_run ==> report.repairs@.len() == report.repairable,
        report.repairable <= SUBBLOCKS_PER_BLOCK,
        report.unrepairable <= SUBBLOCKS_PER_BLOCK,
        dry_run ==> report.repairs@.len() == 0,
        !dry_run ==> repairs_match(
            report.repairs@,
            block_views(blocks@),
            planned_repairs(block_views(blocks@), SUBBLOCKS_PER_BLOCK as int),
        ),
{
    let ghost views = block_views(blocks@);
    let mut damaged = false;
    let mut repairable: u64 = 0;
    let mut unrepairable: u64 = 0;
    let mut repairs: Vec<SubblockRepair> = Vec::new();
    let mut i: usize = 0;
    while i < SUBBLOCKS_PER_BLOCK
        invariant
            views == block_views(blocks@),
            blocks@.len() >= 1,
            all_blocks_full(blocks@),
            0 <= i <= SUBBLOCKS_PER_BLOCK,
            damaged == any_unrepairable(views, i as int),
            repairable == count_repairable(views, i as int),
            unrepairable == count_unrepairable(views, i as int),
            repairable <= i,
            unrepairable <= i,
            !dry_run ==> repairs@.len() == repairable,
            dry_run ==> repairs@.len() == 0,
            !dry_run ==> repairs_match(repairs@, views, planned_repairs(views, i as int)),
        decreases SUBBLOCKS_PER_BLOCK - i,
    {
        let state = classify_vssb(blocks, i);
        let nb = blocks.len();
        match state {
            VssbState::Intact => {},
            VssbState::Unrepairable => {
                damaged = true;
                unrepairable = unrepairable + 1;
            },
            VssbState::Repairable(d) => {
                repairable = repairable + 1;
                if !dry_run {
                    proof {
                        let nn = views.len() as int;
                        assert(!(forall|t: int| 0 <= t < nn ==> #[trigger] subblock_sound(views[t], i as int)));
                        assert(exists|t: int| only_unsound(views, i as int, t) && t < nn - 1);
                        let c = choose|t: int| only_unsound(views, i as int, t) && t < nn - 1;
                        assert(only_unsound(views, i as int, c));
                        assert(d as int == c);
                    }
                    let data = reconstruct_subblock(blocks, i, d);
                    repairs.push(SubblockRepair { disk: d, subblock: i, data });
                }
            },
        }
        proof {
            if state == VssbState::Unrepairable {
                assert(any_unrepairable(views, i + 1));
            } else {
                if any_unrepairable(views, i + 1) {
                    let t = choose|t: int| 0 <= t < i + 1 && vssb_state(views, t) == VssbState::Unrepairable;
                    assert(t < i);
                }
            }
            let plan = planned_repairs(views, i + 1);
            assert(plan == match vssb_state(views, i as int) {
                VssbState::Repairable(d) => planned_repairs(views, i as int).push((d as int, i as int)),
                _ => planned_repairs(views, i as int),
            });
        }
        i = i + 1;
    }
    SuperblockScrub { damaged, repairable, unrepairable, repairs }
}

/// A superblock just laid out scrubs clean: each of its supersubblocks is intact.
pub proof fn lemma_fresh_layout_is_intact(blocks: Seq<Seq<u8>>, data: Seq<u8>, n: int, i: int)
    requires
        is_layout_of(blocks, data, n),
        0 <= i < SUBBLOCKS_PER_BLOCK,
    ensures
        vssb_state(blocks, i) == VssbState::Intact,
{
    assert forall|e: int| 0 <= e < n implies #[trigger] subblock_sound(blocks[e], i) by {
        assert(block_sealed(blocks[e]));
    }
}

/// Scrubbing a superblock just laid out finds no damage and plans no repair.
pub proof fn lemma_fresh_layout_scrubs_clean(blocks: Seq<Seq<u8>>, data: Seq<u8>, n: int, upto: int)
    requires
        is_layout_of(blocks, data, n),
        0 <= upto <= SUBBLOCKS_PER_BLOCK,
    ensures
        !any_unrepairable(blocks, upto),
        planned_repairs(blocks, upto).len() == 0,
        count_repairable(blocks, upto) == 0,
        count_unrepairable(blocks, upto) == 0,
    decreases upto,
{
    if upto > 0 {
        lemma_fresh_layout_scrubs_clean(blocks, data, n, upto - 1);
        lemma_fresh_layout_is_intact(blocks, data, n, upto - 1);
    }
    if any_unrepairable(blocks, upto) {
        let i = choose|i: int| 0 <= i < upto && vssb_state(blocks, i) == VssbState::Unrepairable;
        lemma_fresh_layout_is_intact(blocks, data, n, i);
    }
}

/// Repair law: when the blocks read back agree with what was laid out on
/// every disk but `lost`, at the position of subblock `i`, rebuilding that
/// subblock gives back exactly what was written there.
pub proof fn lemma_rebuild_restores_written_subblock(
    written: Seq<Seq<u8>>,
    data: Seq<u8>,
    read: Seq<Seq<u8>>,
    i: int,
    lost: int,
)
    requires
        is_layout_of(written, data, written.len() as int),
        read.len() == written.len(),
        0 <= lost < written.len(),
        0 <= i < SUBBLOCKS_PER_BLOCK,
        forall|e: int, j: int|
            0 <= e < written.len() && e != lost && 0 <= j < SUBBLOCK_SIZE ==> #[trigger] read[e][i
                * SUBBLOCK_SIZE + j] == written[e][i * SUBBLOCK_SIZE + j],
    ensures
        rebuilt_subblock(read, i, lost) == subblock_of(written[lost], i),
{
    let n = written.len() as int;
    assert forall|j: int| 0 <= j < SUBBLOCK_SIZE implies #[trigger] rebuilt_subblock(read, i, lost)[j]
        == subblock_of(written[lost], i)[j] by {
        let k = i * SUBBLOCK_SIZE + j;
        assert(block_sealed(written[lost]));
        assert(k < DATA_SIZE) by (nonlinear_arith)
            requires
                0 <= i < 128,
                0 <= j < 4096,
                k == i * 4096 + j,
        ;
        assert forall|e: int| 0 <= e < n && e != lost implies read[e][k] == written[e][k] by {
            assert(read[e][i * SUBBLOCK_SIZE + j] == written[e][i * SUBBLOCK_SIZE + j]);
        }
        lemma_xor_except_same(read, written, lost, n, k);
        lemma_parity_rebuilds_any_block(written, lost, k);
    }
    assert(block_sealed(written[lost]));
    assert(rebuilt_subblock(read, i, lost) =~= subblock_of(written[lost], i));
}

/// Subblock `i` of a block read back is as it was written: same contents and
/// same stored hash.
pub open spec fn subblock_unchanged(read: Seq<u8>, written: Seq<u8>, i: int) -> bool {
    &&& subblock_of(read, i) == subblock_of(written, i)
    &&& stored_hash_of(read, i) == stored_hash_of(written, i)
}

/// Recovery law: when a superblock laid out on the disks is read back with
/// the supersubblock `i` changed on at most one data disk, `lost`, scrubbing
/// finds it intact or repairable from `lost`, and the repair gives back
/// exactly what was written there.
pub proof fn lemma_damage_on_one_data_disk_is_recovered(
    written: Seq<Seq<u8>>,
    data: Seq<u8>,
    read: Seq<Seq<u8>>,
    i: int,
    lost: int,
)
    requires
        is_layout_of(written, data, written.len() as int),
        read.len() == written.len(),
        forall|e: int| 0 <= e < read.len() ==> (#[trigger] read[e]).len() == BLOCK_SIZE,
        0 <= i < SUBBLOCKS_PER_BLOCK,
        0 <= lost < written.len() - 1,
        forall|e: int|
            0 <= e < written.len() && e != lost ==> subblock_unchanged(#[trigger] read[e], written[e], i),
    ensures
        vssb_state(read, i) == VssbState::Intact || vssb_state(read, i) == VssbState::Repairable(lost as usize),
        vssb_state(read, i) != VssbState::Intact ==> rebuilt_subblock(read, i, lost) == subblock_of(
            written[lost],
            i,
        ),
{
    let n = read.len() as int;
    assert forall|e: int| 0 <= e < n && e != lost implies #[trigger] subblock_sound(read[e], i) by {
        assert(subblock_unchanged(read[e], written[e], i));
        assert(block_sealed(written[e]));
        assert(subblock_sound(written[e], i));
    }
    if !subblock_sound(read[lost], i) {
        assert(only_unsound(read, i, lost));
        assert(!(forall|e: int| 0 <= e < n ==> #[trigger] subblock_sound(read[e], i)));
        let d = choose|d: int| only_unsound(read, i, d) && d < n - 1;
        assert(d == lost) by {
            if d != lost {
                assert(subblock_sound(read[lost], i));
            }
        }
        assert forall|e: int, j: int|
            0 <= e < written.len() && e != lost && 0 <= j < SUBBLOCK_SIZE implies #[trigger] read[e][i
            * SUBBLOCK_SIZE + j] == written[e][i * SUBBLOCK_SIZE + j] by {
            assert(subblock_unchanged(read[e], written[e], i));
            assert(block_sealed(written[e]));
            assert(i * SUBBLOCK_SIZE + SUBBLOCK_SIZE <= BLOCK_SIZE) by (nonlinear_arith)
                requires
                    0 <= i < 128,
            ;
            assert(subblock_of(read[e], i)[j] == read[e][i * SUBBLOCK_SIZE + j]);
            assert(subblock_of(written[e], i)[j] == written[e][i * SUBBLOCK_SIZE + j]);
        }
        lemma_rebuild_restores_written_subblock(written, data, read, i, lost);
    }
}

/// Recovery law for a whole superblock: when every supersubblock is changed
/// on at most one data disk (`lost[i]` for the supersubblock `i`), scrubbing
/// the superblock finds no damage it cannot repair.
pub proof fn lemma_scattered_damage_is_recovered(
    written: Seq<Seq<u8>>,
    data: Seq<u8>,
    read: Seq<Seq<u8>>,
    lost: Seq<int>,
)
    requires
        is_layout_of(written, data, written.len() as int),
        read.len() == written.len(),
        forall|e: int| 0 <= e < read.len() ==> (#[trigger] read[e]).len() == BLOCK_SIZE,
        lost.len() == SUBBLOCKS_PER_BLOCK,
        forall|i: int| 0 <= i < SUBBLOCKS_PER_BLOCK ==> 0 <= #[trigger] lost[i] < written.len() - 1,
        forall|e: int, i: int|
            0 <= e < written.len() && 0 <= i < SUBBLOCKS_PER_BLOCK && e != lost[i] ==> #[trigger] subblock_unchanged(
                read[e],
                written[e],
                i,
            ),
    ensures
        !any_unrepairable(read, SUBBLOCKS_PER_BLOCK as int),
{
    if any_unrepairable(read, SUBBLOCKS_PER_BLOCK as int) {
        let i = choose|i: int| 0 <= i < SUBBLOCKS_PER_BLOCK && vssb_state(read, i) == VssbState::Unrepairable;
        assert forall|e: int| 0 <= e < written.len() && e != lost[i] implies #[trigger] subblock_unchanged(
            read[e],
            written[e],
            i,
        ) by {}
        lemma_damage_on_one_data_disk_is_recovered(written, data, read, i, lost[i]);
    }
}

/// Uniqueness law: the data, the number of disks and the layout rules fix
/// every byte of every block written.
pub proof fn lemma_layout_is_unique(a: Seq<Seq<u8>>, b: Seq<Seq<u8>>, data: Seq<u8>, n: int)
    requires
        is_layout_of(a, data, n),
        is_layout_of(b, data, n),
    ensures
        a == b,
{
    assert forall|e: int, k: int| 0 <= e < n - 1 && 0 <= k < DATA_SIZE implies #[trigger] a[e][k] == b[e][k] by {
        assert(a[e][k] == padded_byte(data, e * DATA_SIZE + k));
        assert(b[e][k] == padded_byte(data, e * DATA_SIZE + k));
    }
    assert forall|e: int| 0 <= e < n implies #[trigger] a[e] =~= b[e] by {
        assert(block_sealed(a[e]));
        assert(block_sealed(b[e]));
        assert forall|k: int| 0 <= k < DATA_SIZE implies a[e][k] == b[e][k] by {
            if e == n - 1 {
                assert forall|d: int| 0 <= d < n - 1 implies a[d][k] == b[d][k] by {
                    assert(a[d][k] == b[d][k]);
                }
                lemma_xor_column_same(a, b, n - 1, k);
                assert(a[n - 1][k] == xor_column(a, n - 1, k));
                assert(b[n - 1][k] == xor_column(b, n - 1, k));
            } else {
                assert(a[e][k] == b[e][k]);
            }
        }
        assert forall|k: int| DATA_SIZE <= k < BLOCK_SIZE implies a[e][k] == b[e][k] by {
            let i = (k - DATA_SIZE) / (HASH_BYTES as int);
            let r = (k - DATA_SIZE) % (HASH_BYTES as int);
            assert(k == DATA_SIZE + i * HASH_BYTES + r && 0 <= r < HASH_BYTES && 0 <= i < SUBBLOCKS_PER_BLOCK)
                by (nonlinear_arith)
                requires
                    i == (k - 524288) / 32,
                    r == (k - 524288) % 32,
                    524288 <= k < 528384,
            ;
            assert(subblock_of(a[e], i) =~= subblock_of(b[e], i)) by {
                assert forall|j: int| 0 <= j < SUBBLOCK_SIZE implies subblock_of(a[e], i)[j] == subblock_of(
                    b[e],
                    i,
                )[j] by {
                    assert(i * SUBBLOCK_SIZE + j < DATA_SIZE) by (nonlinear_arith)
                        requires
                            0 <= i < 128,
                            0 <= j < 4096,
                    ;
                }
            }
            assert(subblock_sound(a[e], i));
            assert(subblock_sound(b[e], i));
            assert(stored_hash_of(a[e], i)[r] == a[e][k]);
            assert(stored_hash_of(b[e], i)[r] == b[e][k]);
        }
    }
    assert(a =~= b);
}

/// Padding law: laying out data shorter than a superblock is laying out the
/// data repeated from its start to fill the superblock, `padded`.
pub proof fn lemma_layout_of_repeated_data(blocks: Seq<Seq<u8>>, data: Seq<u8>, padded: Seq<u8>, n: int)
    requires
        n >= 2,
        data.len() > 0,
        padded.len() == DATA_SIZE * (n - 1),
        forall|j: int| 0 <= j < padded.len() ==> #[trigger] padded[j] == data[j % (data.len() as int)],
    ensures
        is_layout_of(blocks, data, n) == is_layout_of(blocks, padded, n),
{
    assert forall|d: int, k: int| 0 <= d < n - 1 && 0 <= k < DATA_SIZE implies #[trigger] padded_byte(
        data,
        d * DATA_SIZE + k,
    ) == padded_byte(padded, d * DATA_SIZE + k) by {
        let p = d * DATA_SIZE + k;
        assert(0 <= p < DATA_SIZE * (n - 1)) by (nonlinear_arith)
            requires
                0 <= d < n - 1,
                0 <= k < 524288,
                p == d * 524288 + k,
        ;
        vstd::arithmetic::div_mod::lemma_small_mod(p as nat, padded.len());
        assert(padded[p] == data[p % (data.len() as int)]);
    }
}

} // verus!
