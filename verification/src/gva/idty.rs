//! The query for an identity by its public key.

use crate::bc::BcV2Db;
use crate::errors::{DecodeFault, Failure, KvError};
use crate::keys::pubkey::{base58_parse, parse_base58};
use crate::values::idty_db::IdtyDbV2;
use vstd::prelude::*;
use vstd::string::StringSliceAdditionalSpecFns;

verus! {

/// An identity as the API shows it.
#[derive(Clone, Copy, Debug, PartialEq, Eq, Default)]
pub struct Identity {
    pub is_member: bool,
}

/// Why a query has no answer.
#[derive(Clone, Debug, PartialEq, Eq)]
pub enum QueryError {
    /// The text is not the base 58 of a public key.
    InvalidPubkey(DecodeFault),
    /// The store failed.
    Store(KvError),
}

/// The queries on identities.
#[derive(Clone, Copy, Debug, Default)]
pub struct IdtyQuery;

/// What the query for the identity with the public key `key` is answered with.
pub open spec fn known_key_answer(
    identities: Map<Seq<u8>, Seq<u8>>,
    key: Seq<u8>,
    r: Result<Identity, QueryError>,
) -> bool {
    if !identities.contains_key(key) {
        r == Ok::<Identity, QueryError>(Identity { is_member: false })
    } else {
        match IdtyDbV2::fault_of(identities[key]) {
            None => r == Ok::<Identity, QueryError>(
                Identity { is_member: IdtyDbV2::is_member(identities[key]) },
            ),
            Some(fault) => r is Err && r->Err_0 is Store && r->Err_0->Store_0@ == (
            Failure::Corrupted { bytes: identities[key], fault }),
        }
    }
}

/// What the query for the identity with the public key of the base 58 text
/// `pubkey` is answered with: a text that is no public key is refused.
pub open spec fn idty_answer(
    identities: Map<Seq<u8>, Seq<u8>>,
    pubkey: Seq<u8>,
    r: Result<Identity, QueryError>,
) -> bool {
    match base58_parse(pubkey) {
        Err(fault) => r == Err::<Identity, QueryError>(QueryError::InvalidPubkey(fault)),
        Ok(key) => known_key_answer(identities, key, r),
    }
}

impl IdtyQuery {
    /// Get identity by public key: whether the identity with this public key, given
    /// in base 58, is a member now. An unknown public key is no member.
    pub fn idty(&self, dbs: &BcV2Db, pubkey: &str) -> (r: Result<Identity, QueryError>)
        requires
            dbs.wf(),
        ensures
            idty_answer(dbs.identities@, pubkey.spec_bytes(), r),
    {
        let pubkey = match parse_base58(pubkey.as_bytes()) {
            Ok(key) => key,
            Err(fault) => {
                return Err(QueryError::InvalidPubkey(fault));
            },
        };
        match dbs.pubkey_is_member(pubkey) {
            Ok(pubkey_is_member) => Ok(
                Identity {
                    is_member: match pubkey_is_member {
                        Some(member) => member,
                        None => false,
                    },
                },
            ),
            Err(e) => Err(QueryError::Store(e)),
        }
    }
}

} // verus!
