//! The running totals of a scrub over the files of a pool.
use vstd::prelude::*;
use crate::geometry::{BLOCK_SIZE, SUBBLOCKS_PER_BLOCK};
use crate::superblock::SuperblockScrub;
use crate::text::{i64_to_decimal, signed_decimal, decimal, all_digits, digits_value, is_ascii_digit, digit_char};

verus! {

/// The name under which a damaged physical file is reported.
pub open spec fn damaged_file_name(physical_file_id: int) -> Seq<char> {
    "physical_file_"@ + signed_decimal(physical_file_id)
}

proof fn lemma_decimal_digits(n: nat)
    ensures
        decimal(n).len() > 0,
        all_digits(decimal(n)),
        digits_value(decimal(n)) == n,
    decreases n,
{
    if n < 10 {
        let d = decimal(n);
        assert(d == seq![digit_char(n as int)]);
        assert(is_ascii_digit(d[0]));
        assert(d.drop_last() =~= Seq::<char>::empty());
        assert((digit_char(n as int) as int) == ('0' as int) + n);
        assert(digits_value(d) == digits_value(d.drop_last()) * 10 + ((d.last() as int) - ('0' as int)) as nat);
    } else {
        lemma_decimal_digits(n / 10);
        let d = decimal(n);
        let r = (n % 10) as int;
        assert(d == decimal(n / 10).push(digit_char(r)));
        assert(d.drop_last() =~= decimal(n / 10));
        assert((digit_char(r) as int) == ('0' as int) + r);
        assert(d.last() == digit_char(r));
        assert(digits_value(d) == digits_value(d.drop_last()) * 10 + ((d.last() as int) - ('0' as int)) as nat);
        assert((n / 10) * 10 + r == n);
        assert forall|k: int| 0 <= k < d.len() implies #[trigger] is_ascii_digit(d[k]) by {
            if k < d.len() - 1 {
                assert(d[k] == decimal(n / 10)[k]);
            }
        }
    }
}

/// Naming law: the name under which a damaged physical file is listed is
/// "physical_file_" followed by the decimal digits of its id, read back as
/// that id, with a minus sign before them only when the id is negative.
pub proof fn lemma_damaged_name_shows_id(id: int)
    ensures
        ({
            let prefix = "physical_file_"@;
            let name = damaged_file_name(id);
            let rest = name.skip(prefix.len() as int);
            &&& name.take(prefix.len() as int) == prefix
            &&& id >= 0 ==> rest.len() > 0 && all_digits(rest) && digits_value(rest) == id
            &&& id < 0 ==> rest.len() > 1 && rest[0] == '-' && all_digits(rest.drop_first()) && digits_value(
                rest.drop_first(),
            ) == -id
        }),
{
    let prefix = "physical_file_"@;
    let name = damaged_file_name(id);
    let sd = signed_decimal(id);
    assert(name == prefix + sd);
    assert(name.take(prefix.len() as int) =~= prefix);
    assert(name.skip(prefix.len() as int) =~= sd);
    if id >= 0 {
        lemma_decimal_digits(id as nat);
    } else {
        lemma_decimal_digits((-id) as nat);
        assert(sd.drop_first() =~= decimal((-id) as nat));
    }
}

/// Totals gathered while scrubbing: files found damaged, subblocks repaired,
/// the names of the damaged files and the raw bytes read from the disks.
pub struct ScrubTally {
    /// Number of files in which some supersubblock could not be recovered.
    pub repairable_or_repaired_files: u64,
    /// Number of subblocks rebuilt and written back.
    pub repairable_or_repaired_blocks: u64,
    /// Names of the files found damaged, in the order they were scrubbed.
    pub damaged_files: Vec<String>,
    /// Bytes read from all disks.
    pub raw_bytes_read: u64,
    /// The file being scrubbed has been found damaged.
    pub file_damaged: bool,
}

impl ScrubTally {
    /// Totals before anything was scrubbed.
    pub fn new() -> (t: Self)
        ensures
            t.repairable_or_repaired_files == 0,
            t.repairable_or_repaired_blocks == 0,
            t.damaged_files@.len() == 0,
            t.raw_bytes_read == 0,
            !t.file_damaged,
    {
        ScrubTally {
            repairable_or_repaired_files: 0,
            repairable_or_repaired_blocks: 0,
            damaged_files: Vec::new(),
            raw_bytes_read: 0,
            file_damaged: false,
        }
    }

    /// Starts scrubbing a new physical file.
    pub fn begin_file(&mut self)
        ensures
            !final(self).file_damaged,
            final(self).repairable_or_repaired_files == old(self).repairable_or_repaired_files,
            final(self).repairable_or_repaired_blocks == old(self).repairable_or_repaired_blocks,
            final(self).damaged_files@ == old(self).damaged_files@,
            final(self).raw_bytes_read == old(self).raw_bytes_read,
    {
        self.file_damaged = false;
    }

    /// Counts one block read from one disk.
    pub fn record_block_read(&mut self)
        requires
            old(self).raw_bytes_read + BLOCK_SIZE <= u64::MAX,
        ensures
            final(self).raw_bytes_read == old(self).raw_bytes_read + BLOCK_SIZE,
            final(self).file_damaged == old(self).file_damaged,
            final(self).repairable_or_repaired_files == old(self).repairable_or_repaired_files,
            final(self).repairable_or_repaired_blocks == old(self).repairable_or_repaired_blocks,
            final(self).damaged_files@ == old(self).damaged_files@,
    {
        self.raw_bytes_read = self.raw_bytes_read + BLOCK_SIZE;
    }

    /// Takes in what scrubbing one superblock of the current file found,
    /// once its repairs have been written back.
    pub fn record_superblock(&mut self, report: &SuperblockScrub)
        requires
            old(self).repairable_or_repaired_blocks + report.repairs@.len() <= u64::MAX,
        ensures
            final(self).file_damaged == (old(self).file_damaged || report.damaged),
            final(self).repairable_or_repaired_blocks == old(self).repairable_or_repaired_blocks
                + report.repairs@.len(),
            final(self).repairable_or_repaired_files == old(self).repairable_or_repaired_files,
            final(self).damaged_files@ == old(self).damaged_files@,
            final(self).raw_bytes_read == old(self).raw_bytes_read,
    {
        if report.damaged {
            self.file_damaged = true;
        }
        self.repairable_or_repaired_blocks = self.repairable_or_repaired_blocks
            + report.repairs.len() as u64;
    }

    /// Finishes the current physical file: if it was found damaged, its name
    /// is listed and it is counted.
    pub fn end_file(&mut self, physical_file_id: i64)
        requires
            old(self).repairable_or_repaired_files < u64::MAX,
        ensures
            old(self).file_damaged ==> {
                &&& final(self).repairable_or_repaired_files == old(self).repairable_or_repaired_files + 1
                &&& final(self).damaged_files@.len() == old(self).damaged_files@.len() + 1
                &&& final(self).damaged_files@.drop_last() == old(self).damaged_files@
                &&& final(self).damaged_files@.last()@ == damaged_file_name(physical_file_id as int)
            },
            !old(self).file_damaged ==> {
                &&& final(self).repairable_or_repaired_files == old(self).repairable_or_repaired_files
                &&& final(self).damaged_files@ == old(self).damaged_files@
            },
            final(self).file_damaged == old(self).file_damaged,
            final(self).repairable_or_repaired_blocks == old(self).repairable_or_repaired_blocks,
            final(self).raw_bytes_read == old(self).raw_bytes_read,
    {
        if self.file_damaged {
            let mut name = String::from_str("physical_file_");
            let id = i64_to_decimal(physical_file_id);
            name.append(id.as_str());
            self.damaged_files.push(name);
            self.repairable_or_repaired_files = self.repairable_or_repaired_files + 1;
            assert(self.damaged_files@.drop_last() =~= old(self).damaged_files@);
        }
    }
}

/// Totals of a scrub that only reports what it finds: supersubblocks checked,
/// found repairable and found unrecoverable, over the pool and within the
/// file being scrubbed, and the files affected.
pub struct ScrubReport {
    pub total_subblocks_checked: u64,
    pub total_subblocks_repaired: u64,
    pub repairable_errors: u64,
    pub unrepairable_errors: u64,
    /// Ids of the files with a repairable supersubblock, in scrub order.
    pub files_with_repairable: Vec<i64>,
    /// Ids of the files with an unrecoverable supersubblock, in scrub order.
    pub files_with_unrepairable: Vec<i64>,
    pub file_repairable: u64,
    pub file_unrepairable: u64,
    pub file_subblocks_checked: u64,
    pub file_subblocks_repaired: u64,
}

impl ScrubReport {
    /// Totals before anything was scrubbed.
    pub fn new() -> (r: Self)
        ensures
            r.total_subblocks_checked == 0,
            r.total_subblocks_repaired == 0,
            r.repairable_errors == 0,
            r.unrepairable_errors == 0,
            r.files_with_repairable@.len() == 0,
            r.files_with_unrepairable@.len() == 0,
            r.file_repairable == 0,
            r.file_unrepairable == 0,
            r.file_subblocks_checked == 0,
            r.file_subblocks_repaired == 0,
    {
        ScrubReport {
            total_subblocks_checked: 0,
            total_subblocks_repaired: 0,
            repairable_errors: 0,
            unrepairable_errors: 0,
            files_with_repairable: Vec::new(),
            files_with_unrepairable: Vec::new(),
            file_repairable: 0,
            file_unrepairable: 0,
            file_subblocks_checked: 0,
            file_subblocks_repaired: 0,
        }
    }

    /// Starts on a new physical file: its own counts restart from zero.
    pub fn begin_file(&mut self)
        ensures
            final(self).file_repairable == 0,
            final(self).file_unrepairable == 0,
            final(self).file_subblocks_checked == 0,
            final(self).file_subblocks_repaired == 0,
            final(self).total_subblocks_checked == old(self).total_subblocks_checked,
            final(self).total_subblocks_repaired == old(self).total_subblocks_repaired,
            final(self).repairable_errors == old(self).repairable_errors,
            final(self).unrepairable_errors == old(self).unrepairable_errors,
            final(self).files_with_repairable@ == old(self).files_with_repairable@,
            final(self).files_with_unrepairable@ == old(self).files_with_unrepairable@,
    {
        self.file_repairable = 0;
        self.file_unrepairable = 0;
        self.file_subblocks_checked = 0;
        self.file_subblocks_repaired = 0;
    }

    /// Every count can take in one more superblock without overflowing.
    pub open spec fn spec_has_room(&self) -> bool {
        &&& self.total_subblocks_checked + SUBBLOCKS_PER_BLOCK <= u64::MAX
        &&& self.file_subblocks_checked + SUBBLOCKS_PER_BLOCK <= u64::MAX
        &&& self.total_subblocks_repaired + SUBBLOCKS_PER_BLOCK <= u64::MAX
        &&& self.file_subblocks_repaired + SUBBLOCKS_PER_BLOCK <= u64::MAX
        &&& self.repairable_errors + SUBBLOCKS_PER_BLOCK <= u64::MAX
        &&& self.file_repairable + SUBBLOCKS_PER_BLOCK <= u64::MAX
        &&& self.unrepairable_errors + SUBBLOCKS_PER_BLOCK <= u64::MAX
        &&& self.file_unrepairable + SUBBLOCKS_PER_BLOCK <= u64::MAX
    }

    /// Whether every count can take in one more superblock.
    pub fn has_room(&self) -> (room: bool)
        ensures
            room == self.spec_has_room(),
    {
        let limit = u64::MAX - SUBBLOCKS_PER_BLOCK as u64;
        self.total_subblocks_checked <= limit && self.file_subblocks_checked <= limit
            && self.total_subblocks_repaired <= limit && self.file_subblocks_repaired <= limit
            && self.repairable_errors <= limit && self.file_repairable <= limit && self.unrepairable_errors
            <= limit && self.file_unrepairable <= limit
    }

    /// Counts the supersubblocks of one superblock of the current file: all
    /// are checked, the repairable ones count as repaired.
    pub fn record_superblock(&mut self, report: &SuperblockScrub)
        requires
            old(self).spec_has_room(),
            report.repairable <= SUBBLOCKS_PER_BLOCK,
            report.unrepairable <= SUBBLOCKS_PER_BLOCK,
        ensures
            final(self).total_subblocks_checked == old(self).total_subblocks_checked + SUBBLOCKS_PER_BLOCK,
            final(self).file_subblocks_checked == old(self).file_subblocks_checked + SUBBLOCKS_PER_BLOCK,
            final(self).repairable_errors == old(self).repairable_errors + report.repairable,
            final(self).total_subblocks_repaired == old(self).total_subblocks_repaired + report.repairable,
            final(self).file_repairable == old(self).file_repairable + report.repairable,
            final(self).file_subblocks_repaired == old(self).file_subblocks_repaired + report.repairable,
            final(self).unrepairable_errors == old(self).unrepairable_errors + report.unrepairable,
            final(self).file_unrepairable == old(self).file_unrepairable + report.unrepairable,
            final(self).files_with_repairable@ == old(self).files_with_repairable@,
            final(self).files_with_unrepairable@ == old(self).files_with_unrepairable@,
    {
        let checked = SUBBLOCKS_PER_BLOCK as u64;
        self.total_subblocks_checked = self.total_subblocks_checked + checked;
        self.file_subblocks_checked = self.file_subblocks_checked + checked;
        self.repairable_errors = self.repairable_errors + report.repairable;
        self.total_subblocks_repaired = self.total_subblocks_repaired + report.repairable;
        self.file_repairable = self.file_repairable + report.repairable;
        self.file_subblocks_repaired = self.file_subblocks_repaired + report.repairable;
        self.unrepairable_errors = self.unrepairable_errors + report.unrepairable;
        self.file_unrepairable = self.file_unrepairable + report.unrepairable;
    }

    /// Finishes the current physical file: it is listed among the files with
    /// repairable, and among those with unrecoverable, supersubblocks as it
    /// has any.
    pub fn end_file(&mut self, physical_file_id: i64)
        ensures
            final(self).files_with_repairable@ == if old(self).file_repairable > 0 {
                old(self).files_with_repairable@.push(physical_file_id)
            } else {
                old(self).files_with_repairable@
            },
            final(self).files_with_unrepairable@ == if old(self).file_unrepairable > 0 {
                old(self).files_with_unrepairable@.push(physical_file_id)
            } else {
                old(self).files_with_unrepairable@
            },
            final(self).total_subblocks_checked == old(self).total_subblocks_checked,
            final(self).total_subblocks_repaired == old(self).total_subblocks_repaired,
            final(self).repairable_errors == old(self).repairable_errors,
            final(self).unrepairable_errors == old(self).unrepairable_errors,
            final(self).file_repairable == old(self).file_repairable,
            final(self).file_unrepairable == old(self).file_unrepairable,
            final(self).file_subblocks_checked == old(self).file_subblocks_checked,
            final(self).file_subblocks_repaired == old(self).file_subblocks_repaired,
    {
        if self.file_repairable > 0 {
            self.files_with_repairable.push(physical_file_id);
        }
        if self.file_unrepairable > 0 {
            self.files_with_unrepairable.push(physical_file_id);
        }
    }
}

} // verus!
