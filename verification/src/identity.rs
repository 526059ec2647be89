//! Validator and vote-account identities: 32-byte public keys and their
//! base58 text form.

use solana_program::pubkey::{ParsePubkeyError, Pubkey};
use std::str::FromStr;
use vstd::prelude::*;
use vstd::std_specs::cmp::PartialEqSpecImpl;

verus! {

/// Why a text is not the base58 form of an identity.
#[derive(Clone, Copy, Debug, PartialEq, Eq, Structural)]
pub enum IdentityParseError {
    /// The text is too long, or it decodes to a number of bytes other than 32.
    WrongSize,
    /// The text is not base58.
    Invalid,
}

/// A fixed-size public key that names a validator node or a vote account.
#[derive(Clone, Copy, Debug)]
pub struct Identity {
    pub bytes: [u8; 32],
}

impl View for Identity {
    type V = Seq<u8>;

    open spec fn view(&self) -> Seq<u8> {
        self.bytes@
    }
}

impl PartialEq for Identity {
    fn eq(&self, other: &Identity) -> (same: bool) {
        let mut i: usize = 0;
        while i < 32
            invariant
                i <= 32,
                forall|j: int| 0 <= j < i ==> self.bytes[j] == other.bytes[j],
            decreases 32 - i,
        {
            if self.bytes[i] != other.bytes[i] {
                return false;
            }
            i += 1;
        }
        assert(self.bytes@ =~= other.bytes@);
        true
    }
}

impl PartialEqSpecImpl for Identity {
    open spec fn obeys_eq_spec() -> bool {
        true
    }

    open spec fn eq_spec(&self, other: &Identity) -> bool {
        self@ == other@
    }
}

impl Eq for Identity {

}

/// The result of `Pubkey::from_str` on a text: the 32 decoded bytes, or the
/// reason for which the text was refused.
pub uninterp spec fn pubkey_from_str(text: Seq<char>) -> Result<Seq<u8>, IdentityParseError>;

/// Calls `<solana_program::pubkey::Pubkey as FromStr>::from_str` and hands
/// the key out as its bytes. The contract only names the outcome: what the
/// call returns is `pubkey_from_str` of the text. That base58 decoding is
/// done right is taken on trust.
#[verifier::external_body]
fn decode_pubkey(text: &str) -> (decoded: Result<[u8; 32], IdentityParseError>)
    ensures
        match decoded {
            Ok(bytes) => pubkey_from_str(text@) == Ok::<Seq<u8>, IdentityParseError>(bytes@),
            Err(e) => pubkey_from_str(text@) == Err::<Seq<u8>, IdentityParseError>(e),
        },
{
    match Pubkey::from_str(text) {
        Ok(key) => Ok(key.to_bytes()),
        Err(ParsePubkeyError::WrongSize) => Err(IdentityParseError::WrongSize),
        Err(ParsePubkeyError::Invalid) => Err(IdentityParseError::Invalid),
    }
}

impl Identity {
    /// The identity with the given bytes.
    pub fn new(bytes: [u8; 32]) -> (id: Identity)
        ensures
            id.bytes == bytes,
            id@ == bytes@,
    {
        Identity { bytes }
    }

    /// The bytes of the identity.
    pub fn to_bytes(&self) -> (bytes: [u8; 32])
        ensures
            bytes == self.bytes,
            bytes@ == self@,
    {
        self.bytes
    }

    /// Reads an identity from its base58 text form.
    pub fn parse(text: &str) -> (parsed: Result<Identity, IdentityParseError>)
        ensures
            match parsed {
                Ok(id) => pubkey_from_str(text@) == Ok::<Seq<u8>, IdentityParseError>(id@),
                Err(e) => pubkey_from_str(text@) == Err::<Seq<u8>, IdentityParseError>(e),
            },
    {
        match decode_pubkey(text) {
            Ok(bytes) => Ok(Identity { bytes }),
            Err(e) => Err(e),
        }
    }
}

} // verus!
