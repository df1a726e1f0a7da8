//! A directory tree of files to be added to the pool.
use vstd::prelude::*;

verus! {

/// An entry of a directory tree.
pub enum DirEntry {
    /// A directory containing other entries.
    Dir(DirNode),
    /// A file to be added to the pool.
    File(FileInfo),
}

/// A directory with a name and its children.
pub struct DirNode {
    pub name: String,
    pub children: Vec<DirEntry>,
}

/// A file to be added: its name, where it is, and its size in bytes.
pub struct FileInfo {
    pub name: String,
    pub path: String,
    pub size: u64,
}

/// Number of files in a list of entries, counted through subdirectories.
pub open spec fn entries_file_count(entries: Seq<DirEntry>) -> nat
    decreases entries,
{
    if entries.len() == 0 {
        0
    } else {
        entries_file_count(entries.drop_last()) + match entries.last() {
            DirEntry::Dir(node) => entries_file_count(node.children@),
            DirEntry::File(_) => 1,
        }
    }
}

/// Total size of the files in a list of entries, through subdirectories.
pub open spec fn entries_total_size(entries: Seq<DirEntry>) -> nat
    decreases entries,
{
    if entries.len() == 0 {
        0
    } else {
        entries_total_size(entries.drop_last()) + match entries.last() {
            DirEntry::Dir(node) => entries_total_size(node.children@),
            DirEntry::File(f) => f.size as nat,
        }
    }
}

impl DirNode {
    /// The number of files in this directory tree.
    pub open spec fn spec_file_count(&self) -> nat {
        entries_file_count(self.children@)
    }

    /// The total size in bytes of the files in this directory tree.
    pub open spec fn spec_total_size(&self) -> nat {
        entries_total_size(self.children@)
    }

    /// Creates an empty directory node with the given name.
    pub fn new(name: String) -> (node: Self)
        ensures
            node.name@ == name@,
            node.children@.len() == 0,
    {
        Self { name, children: Vec::new() }
    }

    /// Adds a child entry to this directory.
    pub fn add_child(&mut self, entry: DirEntry)
        ensures
            final(self).name == old(self).name,
            final(self).children@ == old(self).children@.push(entry),
    {
        self.children.push(entry);
    }

    /// Returns the total number of files in this directory tree.
    pub fn file_count(&self) -> (count: usize)
        requires
            self.spec_file_count() <= usize::MAX,
        ensures
            count == self.spec_file_count(),
        decreases self.children@,
    {
        let mut count: usize = 0;
        let mut i: usize = 0;
        while i < self.children.len()
            invariant
                0 <= i <= self.children@.len(),
                self.spec_file_count() <= usize::MAX,
                count == entries_file_count(self.children@.take(i as int)),
            decreases self.children@.len() - i,
        {
            proof {
                lemma_file_count_prefix(self.children@, i as int + 1);
                assert(self.children@.take(i as int + 1).drop_last() =~= self.children@.take(i as int));
            }
            let n: usize = match &self.children[i] {
                DirEntry::Dir(node) => {
                    assert(decreases_to!(self.children@ => self.children@[i as int]));
                    node.file_count()
                },
                DirEntry::File(_) => 1,
            };
            count = count + n;
            i = i + 1;
        }
        assert(self.children@.take(self.children@.len() as int) =~= self.children@);
        count
    }

    /// Returns the total size of all files in this directory tree.
    pub fn total_size(&self) -> (size: u64)
        requires
            self.spec_total_size() <= u64::MAX,
        ensures
            size == self.spec_total_size(),
        decreases self.children@,
    {
        let mut size: u64 = 0;
        let mut i: usize = 0;
        while i < self.children.len()
            invariant
                0 <= i <= self.children@.len(),
                self.spec_total_size() <= u64::MAX,
                size == entries_total_size(self.children@.take(i as int)),
            decreases self.children@.len() - i,
        {
            proof {
                lemma_total_size_prefix(self.children@, i as int + 1);
                assert(self.children@.take(i as int + 1).drop_last() =~= self.children@.take(i as int));
            }
            let n: u64 = match &self.children[i] {
                DirEntry::Dir(node) => {
                    assert(decreases_to!(self.children@ => self.children@[i as int]));
                    node.total_size()
                },
                DirEntry::File(f) => f.size,
            };
            size = size + n;
            i = i + 1;
        }
        assert(self.children@.take(self.children@.len() as int) =~= self.children@);
        size
    }
}

/// Counting a prefix of the entries never gives more than counting all.
proof fn lemma_file_count_prefix(entries: Seq<DirEntry>, k: int)
    requires
        0 <= k <= entries.len(),
    ensures
        entries_file_count(entries.take(k)) <= entries_file_count(entries),
    decreases entries.len() - k,
{
    if k < entries.len() {
        lemma_file_count_prefix(entries, k + 1);
        assert(entries.take(k + 1).drop_last() =~= entries.take(k));
    } else {
        assert(entries.take(k) =~= entries);
    }
}

/// Summing a prefix of the entries never gives more than summing all.
proof fn lemma_total_size_prefix(entries: Seq<DirEntry>, k: int)
    requires
        0 <= k <= entries.len(),
    ensures
        entries_total_size(entries.take(k)) <= entries_total_size(entries),
    decreases entries.len() - k,
{
    if k < entries.len() {
        lemma_total_size_prefix(entries, k + 1);
        assert(entries.take(k + 1).drop_last() =~= entries.take(k));
    } else {
        assert(entries.take(k) =~= entries);
    }
}

/// Counting law: adding a file entry to a directory adds one file, whatever
/// its size (an empty file too), and adds its size to the total; adding a
/// directory adds the files and sizes of its whole tree.
pub proof fn lemma_adding_an_entry(entries: Seq<DirEntry>, entry: DirEntry)
    ensures
        entry matches DirEntry::File(f) ==> {
            &&& entries_file_count(entries.push(entry)) == entries_file_count(entries) + 1
            &&& entries_total_size(entries.push(entry)) == entries_total_size(entries) + f.size
        },
        entry matches DirEntry::Dir(node) ==> {
            &&& entries_file_count(entries.push(entry)) == entries_file_count(entries) + node.spec_file_count()
            &&& entries_total_size(entries.push(entry)) == entries_total_size(entries) + node.spec_total_size()
        },
{
    assert(entries.push(entry).drop_last() =~= entries);
}

/// A directory holding `k` files and no subdirectory has `k` files, empty
/// ones included.
pub proof fn lemma_flat_directory_count(entries: Seq<DirEntry>)
    requires
        forall|i: int| 0 <= i < entries.len() ==> (#[trigger] entries[i]) is File,
    ensures
        entries_file_count(entries) == entries.len(),
    decreases entries.len(),
{
    if entries.len() > 0 {
        let d = entries.drop_last();
        assert forall|i: int| 0 <= i < d.len() implies (#[trigger] d[i]) is File by {
            assert(d[i] == entries[i]);
        }
        lemma_flat_directory_count(d);
        assert(entries.last() is File);
    }
}

} // verus!
