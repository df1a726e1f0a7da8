//! Decisions about the devices that back a pool.
use vstd::prelude::*;
use vstd::slice::slice_subrange;
use crate::vdisk::magic_ok;
use crate::text::{trim_str, trimmed};

verus! {

/// The kind of device file whose udev properties are looked up.
#[derive(Debug, Clone, Copy, PartialEq, Eq, Structural)]
pub enum DevKind {
    Block,
    Character,
}

/// Which udev device to ask for a serial number or a sector size: only a
/// block or character device file with a nonzero device number has one.
pub fn udev_lookup(is_block: bool, is_char: bool, rdev: u64) -> (target: Option<(DevKind, u64)>)
    ensures
        is_block && rdev != 0 ==> target == Some((DevKind::Block, rdev)),
        !is_block && is_char && rdev != 0 ==> target == Some((DevKind::Character, rdev)),
        (!is_block && !is_char) || rdev == 0 ==> target is None,
{
    let kind = if is_block {
        DevKind::Block
    } else if is_char {
        DevKind::Character
    } else {
        return None;
    };
    if rdev == 0 {
        return None;
    }
    Some((kind, rdev))
}

/// Whether a file starts with the magic of a virtual disk.
pub fn has_vdisk_magic(first_bytes: &[u8]) -> (is_vdisk: bool)
    ensures
        is_vdisk == (first_bytes@.len() >= 4 && magic_ok(first_bytes@)),
{
    first_bytes.len() >= 4 && first_bytes[0] == 71u8 && first_bytes[1] == 78u8 && first_bytes[2] == 65u8
        && first_bytes[3] == 70u8
}

/// The text that `bytes` encode in UTF-8, as `std::str::from_utf8` decodes
/// it; `None` when they are not valid UTF-8.
pub uninterp spec fn utf8_decoded(bytes: Seq<u8>) -> Option<Seq<char>>;

/// Calls `std::str::from_utf8`. Trusted: the result is `utf8_decoded` of the
/// bytes (the UTF-8 rules are not restated here).
#[verifier::external_body]
fn str_from_utf8(bytes: &[u8]) -> (r: Option<&str>)
    ensures
        match utf8_decoded(bytes@) {
            Some(t) => r matches Some(s) && s@ == t,
            None => r is None,
        },
{
    std::str::from_utf8(bytes).ok()
}

/// The bytes from `offset` on form a C string: they end with the only zero
/// byte among them.
pub open spec fn nul_terminated(tail: Seq<u8>) -> bool {
    &&& tail.len() > 0
    &&& tail.last() == 0u8
    &&& forall|j: int| 0 <= j < tail.len() - 1 ==> #[trigger] tail[j] != 0u8
}

/// The serial number in a storage device descriptor: the bytes of `buffer`
/// from the descriptor's serial offset on, when they are a nul-terminated
/// UTF-8 string, with surrounding white space trimmed.
pub fn serial_from_descriptor(buffer: &[u8], offset: usize) -> (serial: Option<String>)
    requires
        offset <= buffer@.len(),
    ensures
        ({
            let tail = buffer@.skip(offset as int);
            if nul_terminated(tail) {
                match utf8_decoded(tail.drop_last()) {
                    Some(t) => serial matches Some(s) && s@ == trimmed(t),
                    None => serial is None,
                }
            } else {
                serial is None
            }
        }),
{
    let ghost tail = buffer@.skip(offset as int);
    let len = buffer.len();
    if offset == len || buffer[len - 1] != 0u8 {
        return None;
    }
    let mut j: usize = offset;
    while j < len - 1
        invariant
            offset <= j <= len - 1,
            len == buffer@.len(),
            tail == buffer@.skip(offset as int),
            forall|k: int| 0 <= k < j - offset ==> #[trigger] tail[k] != 0u8,
        decreases len - 1 - j,
    {
        if buffer[j] == 0u8 {
            proof {
                assert(tail[j - offset] == 0u8);
            }
            return None;
        }
        j = j + 1;
    }
    let text = slice_subrange(buffer, offset, len - 1);
    assert(text@ =~= tail.drop_last());
    match str_from_utf8(text) {
        Some(t) => Some(trim_str(t).to_owned()),
        None => None,
    }
}

} // verus!
