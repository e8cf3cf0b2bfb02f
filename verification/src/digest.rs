//! The fingerprint of a board: a number that stands for its cells wherever
//! boards are told apart.

use vstd::prelude::*;
use crate::board::FullBoard;

verus! {

/// How many bytes of the digest make up a fingerprint.
pub const HASH_BYTES: usize = 16;

/// The fingerprint of a board.
pub type BoardHash = u128;

/// The SHA-256 digest of `data`, as `openssl::sha::sha256` computes it.
pub uninterp spec fn sha256_digest(data: Seq<u8>) -> Seq<u8>;

/// `openssl::sha::sha256` hands the bytes to OpenSSL's SHA256 and returns
/// the 32 bytes that it wrote: the digest of `data`, and of nothing else.
pub assume_specification[ openssl::sha::sha256 ](data: &[u8]) -> (hash: [u8; 32])
    ensures
        hash@ == sha256_digest(data@),
;

/// The bytes read as one number, the first byte weighing most.
pub open spec fn packed(bytes: Seq<u8>) -> u128
    decreases bytes.len(),
{
    if bytes.len() == 0 {
        0
    } else {
        (packed(bytes.drop_last()) << 8) | (bytes.last() as u128)
    }
}

/// The fingerprint of a cell sequence: the first bytes of its digest.
pub open spec fn fingerprint(cells: Seq<u8>) -> u128 {
    packed(sha256_digest(cells).take(HASH_BYTES as int))
}

/// Reads the first bytes of a digest as a fingerprint.
pub fn truncate_digest(all_hash_bytes: &[u8; 32]) -> (hash: BoardHash)
    ensures
        hash == packed(all_hash_bytes@.take(HASH_BYTES as int)),
{
    let mut hash: u128 = 0;
    let mut i: usize = 0;
    while i < HASH_BYTES
        invariant
            i <= HASH_BYTES,
            hash == packed(all_hash_bytes@.take(i as int)),
        decreases HASH_BYTES - i,
    {
        assert(all_hash_bytes@.take(i + 1).drop_last() == all_hash_bytes@.take(i as int));
        hash = (hash << 8) | (all_hash_bytes[i] as u128);
        i += 1;
    }
    hash
}

impl FullBoard {
    /// The fingerprint of the board. It depends on the cells alone.
    pub fn get_hash(&self) -> (hash: BoardHash)
        ensures
            hash == fingerprint(self@),
    {
        let all_hash_bytes: [u8; 32] = openssl::sha::sha256(self.cells().as_slice());
        truncate_digest(&all_hash_bytes)
    }
}

} // verus!
