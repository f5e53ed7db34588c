//! Stored one-time prekey records.
//!
//! A record pairs a numeric prekey ID with a key pair and serializes to a
//! tagged binary structure: the ID as a varint field, then the public and
//! private keys as length-delimited fields.

use vstd::prelude::*;

use crate::codec::{spec_field, spec_varint};
use crate::curve::KeyPair;

verus! {

/// Identifier of a stored prekey.
pub type PreKeyId = u32;

/// Record field tags: id, public key, private key.
pub const TAG_PREKEY_ID: u8 = 0x08;

pub const TAG_PREKEY_PUBLIC: u8 = 0x12;

pub const TAG_PREKEY_PRIVATE: u8 = 0x1A;

/// The serialized form of a prekey record.
pub open spec fn spec_prekey_bytes(id: PreKeyId, public_key: Seq<u8>, private_key: Seq<u8>) -> Seq<
    u8,
> {
    seq![TAG_PREKEY_ID] + spec_varint(id as nat) + spec_field(TAG_PREKEY_PUBLIC, public_key)
        + spec_field(TAG_PREKEY_PRIVATE, private_key)
}

/// A stored prekey: an ID and the key pair it serves.
#[derive(Debug, PartialEq, Eq)]
pub struct PreKeyRecord {
    id: PreKeyId,
    key: KeyPair,
}

impl Clone for PreKeyRecord {
    fn clone(&self) -> (r: Self)
        ensures
            r.spec_id() == self.spec_id(),
            r.spec_key().spec_public() == self.spec_key().spec_public(),
            r.spec_key().spec_private() == self.spec_key().spec_private(),
    {
        PreKeyRecord { id: self.id, key: self.key.clone() }
    }
}

impl PreKeyRecord {
    pub closed spec fn spec_id(self) -> PreKeyId {
        self.id
    }

    pub closed spec fn spec_key(self) -> KeyPair {
        self.key
    }

    /// The held key pair stays well formed.
    pub open spec fn wf(self) -> bool {
        self.spec_key().wf()
    }

    /// Builds a record for the given ID and key pair.
    pub fn new(id: PreKeyId, key: &KeyPair) -> (r: PreKeyRecord)
        requires
            key.wf(),
        ensures
            r.wf(),
            r.spec_id() == id,
            r.spec_key().spec_public() == key.spec_public(),
            r.spec_key().spec_private() == key.spec_private(),
    {
        PreKeyRecord { id, key: key.clone() }
    }

    /// The record's prekey ID.
    pub fn id(&self) -> (r: Result<PreKeyId, crate::curve::BadKeyError>)
        ensures
            r == Result::<PreKeyId, crate::curve::BadKeyError>::Ok(self.spec_id()),
    {
        Result::Ok(self.id)
    }

    /// The record's key pair.
    pub fn key_pair(&self) -> (r: Result<KeyPair, crate::curve::BadKeyError>)
        ensures
            match r {
                Result::Ok(kp) => kp.spec_public() == self.spec_key().spec_public()
                    && kp.spec_private() == self.spec_key().spec_private(),
                Result::Err(_) => false,
            },
    {
        Result::Ok(self.key.clone())
    }

    /// Serializes the record to its tagged binary form.
    pub fn serialize(&self) -> (r: Result<Vec<u8>, crate::curve::BadKeyError>)
        ensures
            match r {
                Result::Ok(bytes) => bytes@ == spec_prekey_bytes(
                    self.spec_id(),
                    self.spec_key().spec_public(),
                    self.spec_key().spec_private(),
                ),
                Result::Err(_) => false,
            },
    {
        let mut out: Vec<u8> = Vec::new();
        out.push(TAG_PREKEY_ID);
        crate::codec::encode_varint_into(&mut out, self.id as u64);
        let public_key = self.key.public_key_bytes();
        crate::codec::encode_field_into(&mut out, TAG_PREKEY_PUBLIC, public_key.as_slice());
        let private_key = self.key.private_key_bytes();
        crate::codec::encode_field_into(&mut out, TAG_PREKEY_PRIVATE, private_key.as_slice());
        proof {
            assert(out@ =~= spec_prekey_bytes(
                self.spec_id(),
                self.spec_key().spec_public(),
                self.spec_key().spec_private(),
            ));
        }
        Result::Ok(out)
    }
}

} // verus!
