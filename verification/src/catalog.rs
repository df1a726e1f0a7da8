//! The decisions that the pool makes over its catalog of disks, superblocks
//! and files: geometry, space, allocation, path lookup and removal.
use vstd::prelude::*;
use crate::geometry::{PoolGeometry, BLOCK_SIZE};
use crate::text::{i64_to_decimal, join_path, joined, signed_decimal};

verus! {

/// A disk as the catalog records it.
pub struct DiskInfo {
    pub id: i64,
    pub path: String,
    pub serial: Option<String>,
    pub device_type: String,
    pub size: i64,
    pub block_size: i64,
}

/// Why a pool operation was refused.
#[derive(Debug, Clone, Copy, PartialEq, Eq, Structural)]
pub enum PoolError {
    /// No disk path was given.
    NoDiskPaths,
    /// Fewer than two disk paths were given.
    TooFewDisks,
    /// The catalog lists no disk.
    NoDisks,
    /// A superblock would hold no data.
    ZeroSuperblockSize,
    /// Fewer free superblocks than required.
    NotEnoughFreeSuperblocks { required: i64, available: i64 },
    /// The file exists and replacing it was not asked for.
    FileExists,
    /// A component of a path names a file, not a directory; its position.
    FileInTheWay(usize),
    /// The path names a directory, not a file.
    IsDirectory,
    /// The file is virtual and cannot be deleted.
    VirtualFile,
}

/// The text of the component at `i` of a pool path, empty past its end.
pub open spec fn component_text(path: Seq<&str>, i: int) -> Seq<char> {
    if 0 <= i < path.len() {
        path[i]@
    } else {
        Seq::empty()
    }
}

impl PoolError {
    /// The message shown when the pool refuses an operation; `path` is the
    /// pool path concerned, where there is one.
    pub fn message(&self, path: &[&str]) -> (m: String)
        ensures
            match *self {
                PoolError::NoDiskPaths => m@ == "At least 2 disks are required to create a RAID pool."@,
                PoolError::TooFewDisks => m@ == "A RAID pool requires at least 2 disks (including 1 parity disk)."@,
                PoolError::NoDisks => m@ == "No disks registered in the pool."@,
                PoolError::ZeroSuperblockSize => m@ == "Invalid pool geometry: logical block size is zero"@,
                PoolError::NotEnoughFreeSuperblocks { required, available } => m@
                    == "Not enough free superblocks. Required: "@ + signed_decimal(required as int)
                    + ", Available: "@ + signed_decimal(available as int),
                PoolError::FileExists => m@ == "File '"@ + joined(Seq::new(path@.len(), |k: int| path@[k]@))
                    + "' already exists in the pool"@,
                PoolError::FileInTheWay(i) => m@ == "Cannot access '"@ + component_text(path@, i as int)
                    + "': a file with the same name already exists"@,
                PoolError::IsDirectory => m@ == "Path '"@ + joined(Seq::new(path@.len(), |k: int| path@[k]@))
                    + "' refers to a directory, not a file"@,
                PoolError::VirtualFile => m@ == "Cannot delete virtual file"@,
            },
    {
        match *self {
            PoolError::NoDiskPaths => String::from_str("At least 2 disks are required to create a RAID pool."),
            PoolError::TooFewDisks => String::from_str(
                "A RAID pool requires at least 2 disks (including 1 parity disk).",
            ),
            PoolError::NoDisks => String::from_str("No disks registered in the pool."),
            PoolError::ZeroSuperblockSize => String::from_str("Invalid pool geometry: logical block size is zero"),
            PoolError::NotEnoughFreeSuperblocks { required, available } => {
                let mut m = String::from_str("Not enough free superblocks. Required: ");
                let r = i64_to_decimal(required);
                m.append(r.as_str());
                m.append(", Available: ");
                let a = i64_to_decimal(available);
                m.append(a.as_str());
                m
            },
            PoolError::FileExists => {
                let mut m = String::from_str("File '");
                let p = join_path(path);
                m.append(p.as_str());
                m.append("' already exists in the pool");
                m
            },
            PoolError::FileInTheWay(i) => {
                let mut m = String::from_str("Cannot access '");
                if i < path.len() {
                    m.append(path[i]);
                }
                m.append("': a file with the same name already exists");
                m
            },
            PoolError::IsDirectory => {
                let mut m = String::from_str("Path '");
                let p = join_path(path);
                m.append(p.as_str());
                m.append("' refers to a directory, not a file");
                m
            },
            PoolError::VirtualFile => String::from_str("Cannot delete virtual file"),
        }
    }
}

/// The smallest of a list of sizes, or 0 for an empty list.
pub open spec fn min_of(sizes: Seq<u64>) -> u64
    decreases sizes.len(),
{
    if sizes.len() == 0 {
        0
    } else if sizes.len() == 1 {
        sizes[0]
    } else {
        let rest = min_of(sizes.drop_last());
        if sizes.last() < rest {
            sizes.last()
        } else {
            rest
        }
    }
}

proof fn lemma_min_of_is_min(sizes: Seq<u64>)
    requires
        sizes.len() > 0,
    ensures
        forall|i: int| 0 <= i < sizes.len() ==> min_of(sizes) <= #[trigger] sizes[i],
        exists|i: int| 0 <= i < sizes.len() && min_of(sizes) == sizes[i],
    decreases sizes.len(),
{
    if sizes.len() == 1 {
        assert(min_of(sizes) == sizes[0]);
    } else {
        let rest = sizes.drop_last();
        lemma_min_of_is_min(rest);
        assert forall|i: int| 0 <= i < sizes.len() implies min_of(sizes) <= #[trigger] sizes[i] by {
            if i < sizes.len() - 1 {
                assert(rest[i] == sizes[i]);
            }
        }
        if sizes.last() < min_of(rest) {
            assert(min_of(sizes) == sizes[sizes.len() - 1]);
        } else {
            let j = choose|j: int| 0 <= j < rest.len() && min_of(rest) == rest[j];
            assert(min_of(sizes) == sizes[j]);
        }
    }
}

/// The smallest of a list of sizes; 0 when the list is empty.
pub fn min_disk_size(sizes: &Vec<u64>) -> (m: u64)
    ensures
        m == min_of(sizes@),
        sizes@.len() > 0 ==> (forall|i: int| 0 <= i < sizes@.len() ==> m <= #[trigger] sizes@[i]),
        sizes@.len() > 0 ==> (exists|i: int| 0 <= i < sizes@.len() && m == sizes@[i]),
{
    if sizes.len() == 0 {
        return 0;
    }
    let mut m = sizes[0];
    let mut i: usize = 1;
    while i < sizes.len()
        invariant
            1 <= i <= sizes@.len(),
            m == min_of(sizes@.take(i as int)),
        decreases sizes@.len() - i,
    {
        proof {
            let next = sizes@.take(i + 1);
            assert(next.drop_last() =~= sizes@.take(i as int));
        }
        if sizes[i] < m {
            m = sizes[i];
        }
        i = i + 1;
    }
    assert(sizes@.take(sizes@.len() as int) =~= sizes@);
    proof {
        lemma_min_of_is_min(sizes@);
    }
    m
}

/// The sizes of the disks, each read as an unsigned number of bytes.
pub open spec fn disk_sizes(disks: Seq<DiskInfo>) -> Seq<u64> {
    Seq::new(disks.len(), |i: int| disks[i].size as u64)
}

/// Capacity law: the size that bounds the pool is that of its smallest disk,
/// the parity disk included: no disk of the catalog is smaller, and one of
/// them has exactly that size.
pub proof fn lemma_geometry_fits_every_disk(disks: Seq<DiskInfo>)
    requires
        disks.len() > 0,
    ensures
        forall|i: int| 0 <= i < disks.len() ==> min_of(disk_sizes(disks)) <= (#[trigger] disks[i]).size as u64,
        exists|i: int| 0 <= i < disks.len() && min_of(disk_sizes(disks)) == (#[trigger] disks[i]).size as u64,
{
    let sizes = disk_sizes(disks);
    assert(sizes.len() == disks.len());
    lemma_min_of_is_min(sizes);
    assert forall|i: int| 0 <= i < disks.len() implies min_of(sizes) <= (#[trigger] disks[i]).size as u64 by {
        assert(sizes[i] == disks[i].size as u64);
    }
    let j = choose|j: int| 0 <= j < sizes.len() && min_of(sizes) == sizes[j];
    assert(sizes[j] == disks[j].size as u64);
}

/// The geometry of a pool whose catalog lists `disks`: their number and the
/// size of the smallest.
pub fn geometry_from_disks(disks: &Vec<DiskInfo>) -> (g: Result<PoolGeometry, PoolError>)
    ensures
        disks@.len() == 0 ==> g == Err::<PoolGeometry, PoolError>(PoolError::NoDisks),
        disks@.len() > 0 ==> g == Ok::<PoolGeometry, PoolError>(
            PoolGeometry { num_disks: disks@.len() as usize, min_disk_size: min_of(disk_sizes(disks@)) },
        ),
        g matches Ok(geo) ==> {
            &&& forall|i: int| 0 <= i < disks@.len() ==> geo.min_disk_size <= (#[trigger] disks@[i]).size as u64
            &&& exists|i: int| 0 <= i < disks@.len() && geo.min_disk_size == (#[trigger] disks@[i]).size as u64
        },
{
    proof {
        if disks@.len() > 0 {
            lemma_geometry_fits_every_disk(disks@);
        }
    }
    if disks.len() == 0 {
        return Err(PoolError::NoDisks);
    }
    let mut sizes: Vec<u64> = Vec::new();
    let mut i: usize = 0;
    while i < disks.len()
        invariant
            0 <= i <= disks@.len(),
            sizes@ == disk_sizes(disks@).take(i as int),
        decreases disks@.len() - i,
    {
        sizes.push(disks[i].size as u64);
        i = i + 1;
        assert(sizes@ =~= disk_sizes(disks@).take(i as int));
    }
    assert(sizes@ =~= disk_sizes(disks@));
    let min = min_disk_size(&sizes);
    Ok(PoolGeometry::new(disks.len(), min))
}

/// A pool is made of at least two disks: one for parity and one or more for
/// data.
pub fn check_disk_count(count: usize) -> (r: Result<(), PoolError>)
    ensures
        count == 0 ==> r == Err::<(), PoolError>(PoolError::NoDiskPaths),
        count == 1 ==> r == Err::<(), PoolError>(PoolError::TooFewDisks),
        count >= 2 ==> r == Ok::<(), PoolError>(()),
{
    if count == 0 {
        Err(PoolError::NoDiskPaths)
    } else if count < 2 {
        Err(PoolError::TooFewDisks)
    } else {
        Ok(())
    }
}

/// Number of superblocks that `file_size` bytes take when a superblock holds
/// `superblock_size` bytes.
pub open spec fn superblocks_needed(file_size: int, superblock_size: int) -> int {
    (file_size + superblock_size - 1) / superblock_size
}

/// Number of superblocks a file of `file_size` bytes needs.
pub fn required_superblocks(file_size: u64, superblock_size: u64) -> (n: u64)
    requires
        superblock_size > 0,
    ensures
        n == superblocks_needed(file_size as int, superblock_size as int),
        n * superblock_size >= file_size,
        n == 0 || (n - 1) * superblock_size < file_size,
{
    let q = file_size / superblock_size;
    proof {
        if file_size % superblock_size != 0 {
            assert(superblock_size >= 2);
            assert(q <= file_size / 2) by (nonlinear_arith)
                requires
                    q == file_size / superblock_size,
                    superblock_size >= 2,
            ;
        }
    }
    let n = if file_size % superblock_size == 0 { q } else { q + 1 };
    proof {
        let s = superblock_size as int;
        let f = file_size as int;
        vstd::arithmetic::div_mod::lemma_fundamental_div_mod(f, s);
        vstd::arithmetic::div_mod::lemma_fundamental_div_mod(f + s - 1, s);
        assert(n == (f + s - 1) / s) by (nonlinear_arith)
            requires
                f == s * (f / s) + f % s,
                f + s - 1 == s * ((f + s - 1) / s) + (f + s - 1) % s,
                0 <= f % s < s,
                0 <= (f + s - 1) % s < s,
                n == if f % s == 0 { f / s } else { f / s + 1 },
                s > 0,
        ;
        assert(n * s >= f && (n == 0 || (n - 1) * s < f)) by (nonlinear_arith)
            requires
                f == s * (f / s) + f % s,
                0 <= f % s < s,
                n == if f % s == 0 { f / s } else { f / s + 1 },
                s > 0,
                f >= 0,
        ;
    }
    n
}

/// Total superblocks needed by files of the given sizes, each rounded up on
/// its own.
pub open spec fn total_superblocks_needed(sizes: Seq<u64>, superblock_size: int) -> int
    decreases sizes.len(),
{
    if sizes.len() == 0 {
        0
    } else {
        total_superblocks_needed(sizes.drop_last(), superblock_size) + superblocks_needed(
            sizes.last() as int,
            superblock_size,
        )
    }
}

proof fn lemma_total_needed_monotone(sizes: Seq<u64>, s: int, k: int)
    requires
        s > 0,
        0 <= k <= sizes.len(),
    ensures
        0 <= total_superblocks_needed(sizes.take(k), s) <= total_superblocks_needed(sizes, s),
    decreases sizes.len() - k,
{
    lemma_total_needed_nonneg(sizes.take(k), s);
    if k < sizes.len() {
        lemma_total_needed_monotone(sizes, s, k + 1);
        assert(sizes.take(k + 1).drop_last() =~= sizes.take(k));
        assert(superblocks_needed(sizes[k] as int, s) >= 0) by (nonlinear_arith)
            requires
                s > 0,
                sizes[k] >= 0,
        ;
    } else {
        assert(sizes.take(k) =~= sizes);
    }
    if k == 0 {
        assert(sizes.take(0) =~= Seq::<u64>::empty());
    }
}

proof fn lemma_total_needed_nonneg(sizes: Seq<u64>, s: int)
    requires
        s > 0,
    ensures
        total_superblocks_needed(sizes, s) >= 0,
    decreases sizes.len(),
{
    if sizes.len() > 0 {
        lemma_total_needed_nonneg(sizes.drop_last(), s);
        assert(superblocks_needed(sizes.last() as int, s) >= 0) by (nonlinear_arith)
            requires
                s > 0,
                sizes.last() >= 0,
        ;
    }
}

/// Whether files of the given sizes fit in the `available` free superblocks
/// of a pool with geometry `geom`.
pub fn has_enough_space(geom: &PoolGeometry, file_sizes: &Vec<u64>, available: i64) -> (r: Result<bool, PoolError>)
    requires
        geom.num_disks >= 1,
        geom.spec_superblock_size() <= u64::MAX,
        geom.spec_superblock_size() > 0 ==> total_superblocks_needed(file_sizes@, geom.spec_superblock_size())
            <= i64::MAX,
    ensures
        geom.spec_superblock_size() == 0 ==> r == Err::<bool, PoolError>(PoolError::ZeroSuperblockSize),
        geom.spec_superblock_size() > 0 ==> r == Ok::<bool, PoolError>(
            available >= total_superblocks_needed(file_sizes@, geom.spec_superblock_size()),
        ),
{
    let superblock_size = geom.superblock_size();
    if superblock_size == 0 {
        return Err(PoolError::ZeroSuperblockSize);
    }
    let ghost s = superblock_size as int;
    let mut required: u64 = 0;
    let mut i: usize = 0;
    while i < file_sizes.len()
        invariant
            s == superblock_size,
            s > 0,
            total_superblocks_needed(file_sizes@, s) <= i64::MAX,
            0 <= i <= file_sizes@.len(),
            required == total_superblocks_needed(file_sizes@.take(i as int), s),
        decreases file_sizes@.len() - i,
    {
        proof {
            lemma_total_needed_monotone(file_sizes@, s, i + 1);
            assert(file_sizes@.take(i + 1).drop_last() =~= file_sizes@.take(i as int));
        }
        let n = required_superblocks(file_sizes[i], superblock_size);
        required = required + n;
        i = i + 1;
    }
    assert(file_sizes@.take(file_sizes@.len() as int) =~= file_sizes@);
    Ok(available >= required as i64)
}

/// Takes the ids of the free superblocks found (at most `required` of them)
/// and refuses when there are fewer than required.
pub fn check_free_superblocks(required: i64, found: Vec<u64>) -> (r: Result<Vec<u64>, PoolError>)
    ensures
        (found@.len() as i64) < required ==> r == Err::<Vec<u64>, PoolError>(
            PoolError::NotEnoughFreeSuperblocks { required, available: found@.len() as i64 },
        ),
        (found@.len() as i64) >= required ==> (r matches Ok(ids) && ids@ == found@),
{
    let available = found.len() as i64;
    if available < required {
        Err(PoolError::NotEnoughFreeSuperblocks { required, available })
    } else {
        Ok(found)
    }
}

/// The part of a file written to one superblock: its bytes `start..end`.
#[derive(Debug, Clone, Copy, PartialEq, Eq, Structural)]
pub struct FileChunk {
    pub superblock_id: u64,
    pub start: u64,
    pub end: u64,
}

/// Splits a file of `file_size` bytes over the allocated superblocks, one
/// superblock's worth of bytes each, in order; superblocks past the end of
/// the file get nothing.
pub fn plan_file_chunks(file_size: u64, superblock_size: u64, allocated: &Vec<u64>) -> (chunks: Vec<FileChunk>)
    requires
        superblock_size > 0,
    ensures
        chunks@.len() <= allocated@.len(),
        forall|k: int|
            0 <= k < chunks@.len() ==> {
                &&& (#[trigger] chunks@[k]).superblock_id == allocated@[k]
                &&& chunks@[k].start == k * superblock_size
                &&& chunks@[k].start < file_size
                &&& chunks@[k].end == if chunks@[k].start + superblock_size < file_size {
                    chunks@[k].start + superblock_size
                } else {
                    file_size as int
                }
            },
        chunks@.len() == allocated@.len() || chunks@.len() * superblock_size >= file_size,
{
    let mut chunks: Vec<FileChunk> = Vec::new();
    let mut i: usize = 0;
    let mut start: u64 = 0;
    while i < allocated.len()
        invariant_except_break
            start == i * superblock_size,
        invariant
            superblock_size > 0,
            0 <= i <= allocated@.len(),
            chunks@.len() == i,
            forall|k: int|
                0 <= k < chunks@.len() ==> {
                    &&& (#[trigger] chunks@[k]).superblock_id == allocated@[k]
                    &&& chunks@[k].start == k * superblock_size
                    &&& chunks@[k].start < file_size
                    &&& chunks@[k].end == if chunks@[k].start + superblock_size < file_size {
                        chunks@[k].start + superblock_size
                    } else {
                        file_size as int
                    }
                },
        ensures
            chunks@.len() <= allocated@.len(),
            forall|k: int|
                0 <= k < chunks@.len() ==> {
                    &&& (#[trigger] chunks@[k]).superblock_id == allocated@[k]
                    &&& chunks@[k].start == k * superblock_size
                    &&& chunks@[k].start < file_size
                    &&& chunks@[k].end == if chunks@[k].start + superblock_size < file_size {
                        chunks@[k].start + superblock_size
                    } else {
                        file_size as int
                    }
                },
            chunks@.len() == allocated@.len() || chunks@.len() * superblock_size >= file_size,
        decreases allocated@.len() - i,
    {
        if start >= file_size {
            break;
        }
        let end = if file_size - start > superblock_size {
            start + superblock_size
        } else {
            file_size
        };
        chunks.push(FileChunk { superblock_id: allocated[i], start, end });
        proof {
            assert((i + 1) * superblock_size == i * superblock_size + superblock_size) by (nonlinear_arith);
        }
        i = i + 1;
        if end == file_size {
            break;
        }
        start = end;
    }
    chunks
}

/// What adding a file to a path that may already hold one comes to.
#[derive(Debug, Clone, Copy, PartialEq, Eq, Structural)]
pub enum AddAction {
    /// The path is free: add the file.
    Add,
    /// The path holds a file and replacing it was asked for.
    Replace,
}

/// Decides whether a file is added, replaces one, or is refused.
pub fn decide_add(exists: bool, force: bool) -> (r: Result<AddAction, PoolError>)
    ensures
        !exists ==> r == Ok::<AddAction, PoolError>(AddAction::Add),
        exists && force ==> r == Ok::<AddAction, PoolError>(AddAction::Replace),
        exists && !force ==> r == Err::<AddAction, PoolError>(PoolError::FileExists),
{
    if exists {
        if !force {
            return Err(PoolError::FileExists);
        }
        Ok(AddAction::Replace)
    } else {
        Ok(AddAction::Add)
    }
}

/// A file entry may be deleted unless it is virtual.
pub fn check_deletable(is_virtual: i64) -> (r: Result<(), PoolError>)
    ensures
        is_virtual != 0 ==> r == Err::<(), PoolError>(PoolError::VirtualFile),
        is_virtual == 0 ==> r == Ok::<(), PoolError>(()),
{
    if is_virtual != 0 {
        Err(PoolError::VirtualFile)
    } else {
        Ok(())
    }
}

/// A physical file is freed, with its superblocks, once no entry refers to it.
pub fn physical_file_unreferenced(ref_count: i64) -> (free: bool)
    ensures
        free == (ref_count == 0),
{
    ref_count == 0
}

/// The next step in resolving a pool path, one component at a time.
#[derive(Debug, Clone, Copy, PartialEq, Eq, Structural)]
pub enum WalkStep {
    /// The component is a directory: look up the next component in it.
    Descend(i64),
    /// The component does not exist: the path names no file.
    NotFound,
    /// A component before the last is a file.
    FileInTheWay,
    /// The last component is a file with this id.
    Found(i64),
    /// The last component is a directory.
    IsDirectory,
}

/// Decides what the entry found for component `index` of a path of `count`
/// components means: `entry` is the id of the entry of that name in the
/// current directory and whether it is a directory, if there is one.
pub fn resolve_step(index: usize, count: usize, entry: Option<(i64, bool)>) -> (step: WalkStep)
    requires
        index < count,
    ensures
        entry is None ==> step == WalkStep::NotFound,
        entry matches Some((id, is_dir)) ==> {
            &&& index + 1 < count && is_dir ==> step == WalkStep::Descend(id)
            &&& index + 1 < count && !is_dir ==> step == WalkStep::FileInTheWay
            &&& index + 1 == count && is_dir ==> step == WalkStep::IsDirectory
            &&& index + 1 == count && !is_dir ==> step == WalkStep::Found(id)
        },
{
    match entry {
        None => WalkStep::NotFound,
        Some((id, is_dir)) => {
            if index + 1 < count {
                if is_dir {
                    WalkStep::Descend(id)
                } else {
                    WalkStep::FileInTheWay
                }
            } else if is_dir {
                WalkStep::IsDirectory
            } else {
                WalkStep::Found(id)
            }
        },
    }
}

/// The next step in finding out whether a pool path names a file.
#[derive(Debug, Clone, Copy, PartialEq, Eq, Structural)]
pub enum ExistsStep {
    /// The component is a directory: look up the next component in it.
    Descend(i64),
    /// There is no file at the path.
    Absent,
    /// The last component is a file.
    Exists,
    /// The last component is a directory.
    IsDirectory,
}

/// Decides what the entry found for a component means when checking
/// whether a path names a file: `entry` is the id of the entry of that name
/// in the current directory and whether it is a directory, if there is one.
/// A component before the last must be a directory, or there is no file.
pub fn file_exists_step(entry: Option<(i64, bool)>, is_last: bool) -> (step: ExistsStep)
    ensures
        entry is None ==> step == ExistsStep::Absent,
        entry matches Some((id, is_dir)) ==> {
            &&& !is_last && is_dir ==> step == ExistsStep::Descend(id)
            &&& !is_last && !is_dir ==> step == ExistsStep::Absent
            &&& is_last && is_dir ==> step == ExistsStep::IsDirectory
            &&& is_last && !is_dir ==> step == ExistsStep::Exists
        },
{
    match entry {
        None => ExistsStep::Absent,
        Some((id, is_dir)) => {
            if !is_last {
                if is_dir {
                    ExistsStep::Descend(id)
                } else {
                    ExistsStep::Absent
                }
            } else if is_dir {
                ExistsStep::IsDirectory
            } else {
                ExistsStep::Exists
            }
        },
    }
}

/// An empty path names the root directory, never a file.
pub fn check_path_nonempty(len: usize) -> (r: Result<(), PoolError>)
    ensures
        len == 0 ==> r == Err::<(), PoolError>(PoolError::IsDirectory),
        len > 0 ==> r == Ok::<(), PoolError>(()),
{
    if len == 0 {
        Err(PoolError::IsDirectory)
    } else {
        Ok(())
    }
}

/// The next step in making sure the directories of a path exist.
#[derive(Debug, Clone, Copy, PartialEq, Eq, Structural)]
pub enum EnsureStep {
    /// The directory exists: go into it.
    Descend(i64),
    /// No entry of that name: create the directory, then go into it.
    Create,
    /// A file of that name is in the way.
    FileInTheWay,
}

/// Decides what to do with the entry found for a directory component.
pub fn ensure_step(entry: Option<(i64, bool)>) -> (step: EnsureStep)
    ensures
        entry is None ==> step == EnsureStep::Create,
        entry matches Some((id, is_dir)) ==> (is_dir ==> step == EnsureStep::Descend(id)) && (!is_dir
            ==> step == EnsureStep::FileInTheWay),
{
    match entry {
        None => EnsureStep::Create,
        Some((id, is_dir)) => if is_dir {
            EnsureStep::Descend(id)
        } else {
            EnsureStep::FileInTheWay
        },
    }
}

/// The directory entries of a catalog: for a parent directory id and a name,
/// the entry's id and whether it is a directory.
pub type CatalogEntries = Map<(int, Seq<char>), (int, bool)>;

/// Making sure the directories `comps` exist below directory `dir`, one
/// component at a time as `ensure_step` decides: an existing directory is
/// entered, a missing one is created with the next fresh id (`next` on) and
/// entered, a file in the way stops the walk (`None`). Gives the entries
/// afterwards, the directory reached and the next fresh id.
pub open spec fn ensure_walk(cat: CatalogEntries, dir: int, comps: Seq<Seq<char>>, next: int) -> Option<
    (CatalogEntries, int, int),
>
    decreases comps.len(),
{
    if comps.len() == 0 {
        Some((cat, dir, next))
    } else {
        let key = (dir, comps[0]);
        if cat.contains_key(key) {
            if cat[key].1 {
                ensure_walk(cat, cat[key].0, comps.drop_first(), next)
            } else {
                None
            }
        } else {
            ensure_walk(cat.insert(key, (next, true)), next, comps.drop_first(), next + 1)
        }
    }
}

/// Every entry of `a` is in `b`, unchanged.
pub open spec fn entries_kept(a: CatalogEntries, b: CatalogEntries) -> bool {
    forall|k: (int, Seq<char>)| #[trigger] a.contains_key(k) ==> b.contains_key(k) && b[k] == a[k]
}

proof fn lemma_ensure_walk_keeps(cat: CatalogEntries, dir: int, comps: Seq<Seq<char>>, next: int)
    requires
        ensure_walk(cat, dir, comps, next) is Some,
    ensures
        entries_kept(cat, (ensure_walk(cat, dir, comps, next)->0).0),
    decreases comps.len(),
{
    if comps.len() > 0 {
        let key = (dir, comps[0]);
        if cat.contains_key(key) {
            lemma_ensure_walk_keeps(cat, cat[key].0, comps.drop_first(), next);
        } else {
            let c2 = cat.insert(key, (next, true));
            lemma_ensure_walk_keeps(c2, next, comps.drop_first(), next + 1);
            let after = (ensure_walk(cat, dir, comps, next)->0).0;
            assert forall|k: (int, Seq<char>)| #[trigger] cat.contains_key(k) implies after.contains_key(k)
                && after[k] == cat[k] by {
                assert(c2.contains_key(k) && c2[k] == cat[k]);
            }
        }
    }
}

proof fn lemma_ensure_walk_again(
    cat: CatalogEntries,
    dir: int,
    comps: Seq<Seq<char>>,
    next: int,
    more: CatalogEntries,
    other_next: int,
)
    requires
        ensure_walk(cat, dir, comps, next) is Some,
        entries_kept((ensure_walk(cat, dir, comps, next)->0).0, more),
    ensures
        ensure_walk(more, dir, comps, other_next) == Some(
            (more, (ensure_walk(cat, dir, comps, next)->0).1, other_next),
        ),
    decreases comps.len(),
{
    if comps.len() > 0 {
        let key = (dir, comps[0]);
        let first = ensure_walk(cat, dir, comps, next)->0;
        if cat.contains_key(key) {
            lemma_ensure_walk_keeps(cat, cat[key].0, comps.drop_first(), next);
            assert(first.0.contains_key(key) && first.0[key] == cat[key]);
            assert(more.contains_key(key) && more[key] == cat[key]);
            lemma_ensure_walk_again(cat, cat[key].0, comps.drop_first(), next, more, other_next);
        } else {
            let c2 = cat.insert(key, (next, true));
            lemma_ensure_walk_keeps(c2, next, comps.drop_first(), next + 1);
            assert(c2.contains_key(key));
            assert(first.0.contains_key(key) && first.0[key] == (next, true));
            assert(more.contains_key(key) && more[key] == (next, true));
            lemma_ensure_walk_again(c2, next, comps.drop_first(), next + 1, more, other_next);
        }
    }
}

/// Idempotence law of making sure a path's directories exist: once a walk
/// has succeeded, walking the same components again from the same directory
/// reaches the same directory and creates nothing.
pub proof fn lemma_ensure_walk_idempotent(cat: CatalogEntries, dir: int, comps: Seq<Seq<char>>, next: int)
    requires
        ensure_walk(cat, dir, comps, next) is Some,
    ensures
        ({
            let (after, reached, next_after) = ensure_walk(cat, dir, comps, next)->0;
            ensure_walk(after, dir, comps, next_after) == Some((after, reached, next_after))
        }),
{
    let after = (ensure_walk(cat, dir, comps, next)->0).0;
    lemma_ensure_walk_again(cat, dir, comps, next, after, (ensure_walk(cat, dir, comps, next)->0).2);
}

/// What the `info` command reports about a pool, but for its efficiency.
pub struct PoolSummary {
    pub total_disks: u64,
    pub smallest_disk_raw_bytes: u64,
    pub raw_pool_bytes: u64,
    pub usable_pool_bytes: u64,
    pub total_superblocks: u64,
    pub raw_block_size: u64,
    pub raw_superblock_size: u64,
    pub logical_superblock_size: u64,
    /// Some disk is larger than the smallest one.
    pub size_mismatch: bool,
}

/// Summarizes a pool from its geometry and the sizes of its disks.
pub fn summarize(geom: &PoolGeometry, disk_sizes: &Vec<u64>) -> (s: PoolSummary)
    requires
        geom.sizes_fit(),
    ensures
        s.total_disks == geom.num_disks,
        s.smallest_disk_raw_bytes == geom.min_disk_size,
        s.raw_pool_bytes == geom.spec_physical_size(),
        s.usable_pool_bytes == geom.spec_logical_size(),
        s.total_superblocks == geom.spec_num_superblocks(),
        s.raw_block_size == BLOCK_SIZE,
        s.raw_superblock_size == geom.spec_raw_superblock_size(),
        s.logical_superblock_size == geom.spec_superblock_size(),
        s.size_mismatch == exists|i: int| 0 <= i < disk_sizes@.len() && disk_sizes@[i] != geom.min_disk_size,
{
    let mut mismatch = false;
    let mut i: usize = 0;
    while i < disk_sizes.len()
        invariant
            0 <= i <= disk_sizes@.len(),
            mismatch == exists|j: int| 0 <= j < i && disk_sizes@[j] != geom.min_disk_size,
        decreases disk_sizes@.len() - i,
    {
        if disk_sizes[i] != geom.min_disk_size {
            mismatch = true;
        }
        i = i + 1;
    }
    PoolSummary {
        total_disks: geom.num_disks as u64,
        smallest_disk_raw_bytes: geom.min_disk_size,
        raw_pool_bytes: geom.physical_size(),
        usable_pool_bytes: geom.logical_size(),
        total_superblocks: geom.num_superblocks(),
        raw_block_size: BLOCK_SIZE,
        raw_superblock_size: BLOCK_SIZE * geom.num_disks as u64,
        logical_superblock_size: geom.superblock_size(),
        size_mismatch: mismatch,
    }
}

} // verus!
