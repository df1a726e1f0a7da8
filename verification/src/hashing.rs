//! The outside hash and hex functions that the pool relies on.
use vstd::prelude::*;

verus! {

/// The BLAKE3 digest of a byte string, as `blake3::hash` computes it.
pub uninterp spec fn blake3_digest(data: Seq<u8>) -> Seq<u8>;

/// Calls `blake3::hash` on `data` and copies out the digest bytes.
/// Trusted: the result is `blake3_digest` of the input, and it is 32 bytes
/// long (`blake3::OUT_LEN`); nothing else is claimed of the hash function.
#[verifier::external_body]
pub(crate) fn blake3_hash(data: &[u8]) -> (digest: Vec<u8>)
    ensures
        digest@ == blake3_digest(data@),
        digest@.len() == 32,
{
    blake3::hash(data).as_bytes().to_vec()
}

/// The lowercase hexadecimal digit for a value below sixteen.
pub open spec fn hex_digit(v: int) -> char {
    if v < 10 {
        (('0' as int) + v) as char
    } else {
        (('a' as int) + v - 10) as char
    }
}

/// Two lowercase hexadecimal digits per byte, high nibble first.
pub open spec fn hex_lower(bytes: Seq<u8>) -> Seq<char>
    decreases bytes.len(),
{
    if bytes.len() == 0 {
        Seq::empty()
    } else {
        hex_lower(bytes.drop_last()) + seq![
            hex_digit(bytes.last() as int / 16),
            hex_digit(bytes.last() as int % 16),
        ]
    }
}

/// Calls `hex::encode`. Trusted: as the crate documents it, the result is
/// each byte written as two lowercase hexadecimal digits, in order.
#[verifier::external_body]
fn hex_encode(bytes: &[u8]) -> (s: String)
    ensures
        s@ == hex_lower(bytes@),
{
    hex::encode(bytes)
}

/// The lowercase hexadecimal text of a digest, as the catalog records the
/// hash of a file.
pub fn digest_hex(digest: &[u8]) -> (s: String)
    ensures
        s@ == hex_lower(digest@),
        s@.len() == 2 * digest@.len(),
{
    proof {
        lemma_hex_lower_len(digest@);
    }
    hex_encode(digest)
}

proof fn lemma_hex_lower_len(bytes: Seq<u8>)
    ensures
        hex_lower(bytes).len() == 2 * bytes.len(),
    decreases bytes.len(),
{
    if bytes.len() > 0 {
        lemma_hex_lower_len(bytes.drop_last());
    }
}

/// `blake3::Hasher`, the incremental BLAKE3 hasher, carried opaquely.
#[verifier::external_type_specification]
#[verifier::external_body]
pub struct ExHasher(blake3::Hasher);

/// The BLAKE3 hash of a file fed to it piece by piece. `fed` is everything
/// fed so far, in order.
pub struct FileHasher {
    hasher: blake3::Hasher,
    fed: Ghost<Seq<u8>>,
}

impl FileHasher {
    /// The bytes fed to this hasher so far.
    pub closed spec fn fed(&self) -> Seq<u8> {
        self.fed@
    }

    /// Calls `blake3::Hasher::new`. Trusted: the new hasher has been fed
    /// nothing.
    #[verifier::external_body]
    fn start() -> (h: FileHasher)
        ensures
            h.fed() == Seq::<u8>::empty(),
    {
        FileHasher { hasher: blake3::Hasher::new(), fed: Ghost(Seq::empty()) }
    }

    /// Calls `blake3::Hasher::update`. Trusted: the bytes fed so far are
    /// followed by `data`, as the crate documents that feeding input in
    /// pieces hashes their concatenation.
    #[verifier::external_body]
    fn absorb(&mut self, data: &[u8])
        ensures
            final(self).fed() == old(self).fed() + data@,
    {
        self.hasher.update(data);
    }

    /// Calls `blake3::Hasher::finalize` and copies out the digest bytes.
    /// Trusted: the digest is `blake3_digest` of everything fed so far, as
    /// `blake3::hash` would give for it, and it is 32 bytes long.
    #[verifier::external_body]
    fn digest(&self) -> (d: Vec<u8>)
        ensures
            d@ == blake3_digest(self.fed()),
            d@.len() == 32,
    {
        self.hasher.finalize().as_bytes().to_vec()
    }

    /// A hasher that has been fed nothing.
    pub fn new() -> (h: FileHasher)
        ensures
            h.fed() == Seq::<u8>::empty(),
    {
        FileHasher::start()
    }

    /// Feeds the next piece of the file.
    pub fn update(&mut self, data: &[u8])
        ensures
            final(self).fed() == old(self).fed() + data@,
    {
        self.absorb(data)
    }

    /// The BLAKE3 digest of everything fed so far.
    pub fn finalize(&self) -> (d: Vec<u8>)
        ensures
            d@ == blake3_digest(self.fed()),
            d@.len() == 32,
    {
        self.digest()
    }
}

/// The hash of a file as the catalog records it: the lowercase hexadecimal
/// text of the BLAKE3 digest of everything fed to `h`.
pub fn file_hash_hex(h: &FileHasher) -> (s: String)
    ensures
        s@ == hex_lower(blake3_digest(h.fed())),
        s@.len() == 64,
{
    let d = h.finalize();
    digest_hex(d.as_slice())
}

} // verus!
