//! Small helpers shared by the protocol modules.
use vstd::prelude::*;

verus! {

/// The 64-bit digest of a 128-bit identifier: its upper half xor its lower half.
pub open spec fn fold64(x: u128) -> u64 {
    ((x / 0x1_0000_0000_0000_0000) as u64) ^ ((x % 0x1_0000_0000_0000_0000) as u64)
}

/// Digest used to place identifiers on the hash ring.
///
/// It depends on the identifier alone, so every replica computes the same
/// value for the same identifier.
pub fn hash64(x: u128) -> (h: u64)
    ensures
        h == fold64(x),
{
    let hi: u64 = (x / 0x1_0000_0000_0000_0000) as u64;
    let lo: u64 = (x % 0x1_0000_0000_0000_0000) as u64;
    hi ^ lo
}

/// The 128 bits of a fresh identifier: the time in seconds in the upper
/// half, then the node, then a sequence number.
///
/// Two identifiers made on one node differ as long as no sequence number is
/// used twice within a second.
pub fn snowflake(seconds: u64, node: u32, sequence: u32) -> (bits: u128)
    ensures
        bits == seconds as u128 * 0x1_0000_0000_0000_0000 + node as u128 * 0x1_0000_0000
            + sequence as u128,
{
    (seconds as u128) * 0x1_0000_0000_0000_0000 + (node as u128) * 0x1_0000_0000 + (
    sequence as u128)
}

/// Byte-wise equality of two slices.
pub fn bytes_eq(a: &[u8], b: &[u8]) -> (same: bool)
    ensures
        same == (a@ == b@),
{
    if a.len() != b.len() {
        return false;
    }
    let mut i: usize = 0;
    while i < a.len()
        invariant
            i <= a.len(),
            a.len() == b.len(),
            forall|k: int| 0 <= k < i ==> a@[k] == b@[k],
        decreases a.len() - i,
    {
        if a[i] != b[i] {
            return false;
        }
        i += 1;
    }
    assert(a@ =~= b@);
    true
}

/// A fresh vector holding the bytes of `a`.
pub fn bytes_to_vec(a: &[u8]) -> (v: Vec<u8>)
    ensures
        v@ == a@,
{
    let mut v: Vec<u8> = Vec::new();
    let mut i: usize = 0;
    while i < a.len()
        invariant
            i <= a.len(),
            v@ == a@.take(i as int),
        decreases a.len() - i,
    {
        v.push(a[i]);
        i += 1;
        assert(a@.take(i as int) =~= a@.take(i - 1).push(a@[i - 1]));
    }
    assert(a@.take(a.len() as int) =~= a@);
    v
}

} // verus!
