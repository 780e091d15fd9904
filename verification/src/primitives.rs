//! Identifiers of blocks, peers and validators.
use vstd::prelude::*;

verus! {

/// The height of a relay chain block.
pub type BlockNumber = u32;

/// The number of a session.
pub type SessionIndex = u32;

/// The position of a candidate among those that a block includes.
pub type CandidateIndex = u32;

/// A 256-bit block hash, as two halves.
#[derive(Clone, Copy, Debug, PartialEq, Eq, Structural)]
pub struct BlockHash {
    pub high: u128,
    pub low: u128,
}

impl BlockHash {
    /// The hash whose bits are all zero.
    pub fn zero() -> (hash: BlockHash)
        ensures
            hash == (BlockHash { high: 0, low: 0 }),
    {
        BlockHash { high: 0, low: 0 }
    }

    /// The hash made of thirty-two times the same byte.
    pub fn repeat_byte(byte: u8) -> (hash: BlockHash)
        ensures
            hash.high == byte * 0x01010101010101010101010101010101u128,
            hash.low == hash.high,
    {
        assert(byte as u128 * 0x01010101010101010101010101010101u128 <= u128::MAX) by (nonlinear_arith)
            requires
                byte <= 255,
        ;
        let half: u128 = byte as u128 * 0x01010101010101010101010101010101u128;
        BlockHash { high: half, low: half }
    }
}

/// A peer of the network.
#[derive(Clone, Copy, Debug, PartialEq, Eq, Structural)]
pub struct PeerId(pub u64);

/// The position of a validator in the validator set of its session.
#[derive(Clone, Copy, Debug, PartialEq, Eq, Structural)]
pub struct ValidatorIndex(pub u32);

/// The version of the validation protocol that a peer speaks.
#[derive(Clone, Copy, Debug, PartialEq, Eq, Structural)]
pub enum ValidationVersion {
    V1,
    V2,
    V3,
}

} // verus!
