//! Identities by which peers, validators and transactions are told apart.

use vstd::prelude::*;
use std::str::FromStr;

verus! {

/// A value that can serve as the key of a [`crate::table::Table`]: it can be
/// copied and compared for equality in executable code.
pub trait Key: Sized + Copy {
    /// Whether two keys are the same key.
    fn same(&self, other: &Self) -> (r: bool)
        ensures
            r == (*self == *other),
    ;
}

/// The network address of a peer: the 32 bits of an IPv4 address or the 128
/// bits of an IPv6 address, most significant octet first.
#[derive(Clone, Copy, Debug, PartialEq, Eq, Hash, Structural)]
pub enum IpAddr {
    V4(u32),
    V6(u128),
}

/// The 32-byte identity of a validator.
#[derive(Clone, Copy, Debug, PartialEq, Eq, Hash)]
pub struct Pubkey {
    pub bytes: [u8; 32],
}

/// The 64-byte identifier of a transaction.
#[derive(Clone, Copy, Debug, PartialEq, Eq, Hash)]
pub struct Signature {
    pub bytes: [u8; 64],
}

/// The identity that a string in base 58 stands for; `None` for a string
/// that stands for none.
pub uninterp spec fn pubkey_from_base58(s: Seq<char>) -> Option<Pubkey>;

/// Reads an identity from its base 58 form with
/// `solana_sdk::pubkey::Pubkey::from_str`, which decodes the string and
/// accepts it where it yields exactly 32 bytes. The result depends on the
/// string alone; the contract gives it the name `pubkey_from_base58`.
#[verifier::external_body]
pub(crate) fn parse_pubkey(s: &str) -> (r: Option<Pubkey>)
    ensures
        r == pubkey_from_base58(s@),
{
    match solana_sdk::pubkey::Pubkey::from_str(s) {
        Ok(parsed) => Some(Pubkey { bytes: parsed.to_bytes() }),
        Err(_) => None,
    }
}

impl Key for IpAddr {
    fn same(&self, other: &Self) -> (r: bool) {
        *self == *other
    }
}

impl Key for Pubkey {
    fn same(&self, other: &Self) -> (r: bool) {
        let mut i: usize = 0;
        while i < 32
            invariant
                i <= 32,
                forall|j: int| 0 <= j < i ==> self.bytes[j] == other.bytes[j],
            decreases 32 - i,
        {
            if self.bytes[i] != other.bytes[i] {
                return false;
            }
            i += 1;
        }
        assert(self.bytes@ =~= other.bytes@);
        assert(self.bytes == other.bytes);
        true
    }
}

impl Key for Signature {
    fn same(&self, other: &Self) -> (r: bool) {
        let mut i: usize = 0;
        while i < 64
            invariant
                i <= 64,
                forall|j: int| 0 <= j < i ==> self.bytes[j] == other.bytes[j],
            decreases 64 - i,
        {
            if self.bytes[i] != other.bytes[i] {
                return false;
            }
            i += 1;
        }
        assert(self.bytes@ =~= other.bytes@);
        assert(self.bytes == other.bytes);
        true
    }
}

} // verus!
