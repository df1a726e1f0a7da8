//! XOR parity over the blocks of a superblock, and why it lets one lost
//! block be rebuilt from the others.
use vstd::prelude::*;

verus! {

/// XOR of byte `k` of the first `upto` blocks.
pub open spec fn xor_column(blocks: Seq<Seq<u8>>, upto: int, k: int) -> u8
    decreases upto,
{
    if upto <= 0 {
        0u8
    } else {
        xor_column(blocks, upto - 1, k) ^ blocks[upto - 1][k]
    }
}

/// XOR of byte `k` of the first `upto` blocks, leaving out block `skip`.
pub open spec fn xor_column_except(blocks: Seq<Seq<u8>>, skip: int, upto: int, k: int) -> u8
    decreases upto,
{
    if upto <= 0 {
        0u8
    } else if upto - 1 == skip {
        xor_column_except(blocks, skip, upto - 1, k)
    } else {
        xor_column_except(blocks, skip, upto - 1, k) ^ blocks[upto - 1][k]
    }
}

proof fn lemma_xor_facts(a: u8, b: u8, c: u8)
    ensures
        (a ^ b) ^ c == (a ^ c) ^ b,
        a ^ a == 0,
        a ^ 0 == a,
        0 ^ a == a,
        (a ^ b == 0) ==> a == b,
        (a ^ b) ^ b == a,
{
    assert((a ^ b) ^ c == (a ^ c) ^ b) by (bit_vector);
    assert(a ^ a == 0) by (bit_vector);
    assert(a ^ 0 == a) by (bit_vector);
    assert(0 ^ a == a) by (bit_vector);
    assert((a ^ b == 0) ==> a == b) by (bit_vector);
    assert((a ^ b) ^ b == a) by (bit_vector);
}

/// Leaving out a block that is not among the first `upto` changes nothing.
pub proof fn lemma_xor_except_outside(blocks: Seq<Seq<u8>>, skip: int, upto: int, k: int)
    requires
        skip >= upto || skip < 0,
    ensures
        xor_column_except(blocks, skip, upto, k) == xor_column(blocks, upto, k),
    decreases upto,
{
    if upto > 0 {
        lemma_xor_except_outside(blocks, skip, upto - 1, k);
    }
}

/// The XOR of all blocks is the XOR of all but one, XORed with that one.
pub proof fn lemma_xor_except_split(blocks: Seq<Seq<u8>>, skip: int, upto: int, k: int)
    requires
        0 <= skip < upto,
    ensures
        xor_column(blocks, upto, k) == xor_column_except(blocks, skip, upto, k) ^ blocks[skip][k],
    decreases upto,
{
    if upto - 1 == skip {
        lemma_xor_except_outside(blocks, skip, upto - 1, k);
    } else {
        lemma_xor_except_split(blocks, skip, upto - 1, k);
        lemma_xor_facts(
            xor_column_except(blocks, skip, upto - 1, k),
            blocks[skip][k],
            blocks[upto - 1][k],
        );
    }
}

/// The XOR of the first `upto` blocks depends on nothing else.
pub proof fn lemma_xor_column_same(a: Seq<Seq<u8>>, b: Seq<Seq<u8>>, upto: int, k: int)
    requires
        forall|e: int| 0 <= e < upto ==> a[e][k] == b[e][k],
    ensures
        xor_column(a, upto, k) == xor_column(b, upto, k),
    decreases upto,
{
    if upto > 0 {
        lemma_xor_column_same(a, b, upto - 1, k);
    }
}

/// The XOR that leaves out block `skip` does not look at block `skip`.
pub proof fn lemma_xor_except_same(a: Seq<Seq<u8>>, b: Seq<Seq<u8>>, skip: int, upto: int, k: int)
    requires
        forall|e: int| 0 <= e < upto && e != skip ==> a[e][k] == b[e][k],
    ensures
        xor_column_except(a, skip, upto, k) == xor_column_except(b, skip, upto, k),
    decreases upto,
{
    if upto > 0 {
        lemma_xor_except_same(a, b, skip, upto - 1, k);
    }
}

/// Parity law: when the last of `n` blocks is the XOR of the others at byte
/// `k`, any one block is the XOR of all the remaining ones (parity included).
pub proof fn lemma_parity_rebuilds_any_block(blocks: Seq<Seq<u8>>, lost: int, k: int)
    requires
        blocks.len() >= 1,
        0 <= lost < blocks.len(),
        blocks[blocks.len() - 1][k] == xor_column(blocks, blocks.len() - 1, k),
    ensures
        xor_column_except(blocks, lost, blocks.len() as int, k) == blocks[lost][k],
{
    let n = blocks.len() as int;
    let p = blocks[n - 1][k];
    lemma_xor_facts(p, p, 0);
    assert(xor_column(blocks, n, k) == 0);
    lemma_xor_except_split(blocks, lost, n, k);
    lemma_xor_facts(xor_column_except(blocks, lost, n, k), blocks[lost][k], 0);
}

} // verus!
