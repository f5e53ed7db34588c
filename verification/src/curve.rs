//! A minimal model of the asymmetric key pairs carried in key records.
//!
//! A public key is serialized as a type byte followed by 32 key bytes; a
//! private key is 32 bytes. The arithmetic on these keys lives outside
//! this crate; here they are validated containers whose serialized forms
//! the record format carries.

use vstd::prelude::*;

verus! {

/// The serialized type byte of the supported public-key kind.
pub const DJB_TYPE: u8 = 5;

/// Serialized length of a public key: the type byte plus 32 key bytes.
pub const PUBLIC_KEY_LENGTH: usize = 33;

/// Serialized length of a private key.
pub const PRIVATE_KEY_LENGTH: usize = 32;

/// The key material was not a well-formed serialized key.
#[derive(Clone, Copy, Debug, PartialEq, Eq, Structural)]
pub struct BadKeyError;

/// Whether bytes are a well-formed serialized public key.
pub open spec fn spec_public_key_wf(s: Seq<u8>) -> bool {
    s.len() == PUBLIC_KEY_LENGTH && s[0] == DJB_TYPE
}

/// Whether bytes are a well-formed serialized private key.
pub open spec fn spec_private_key_wf(s: Seq<u8>) -> bool {
    s.len() == PRIVATE_KEY_LENGTH
}

/// A public/private key pair, held in serialized form.
#[derive(Debug, PartialEq, Eq)]
pub struct KeyPair {
    public_key: Vec<u8>,
    private_key: Vec<u8>,
}

impl Clone for KeyPair {
    fn clone(&self) -> (r: Self)
        ensures
            r.spec_public() == self.spec_public(),
            r.spec_private() == self.spec_private(),
    {
        KeyPair {
            public_key: crate::chat::clone_bytes(&self.public_key),
            private_key: crate::chat::clone_bytes(&self.private_key),
        }
    }
}

impl KeyPair {
    pub closed spec fn spec_public(self) -> Seq<u8> {
        self.public_key@
    }

    pub closed spec fn spec_private(self) -> Seq<u8> {
        self.private_key@
    }

    /// Both halves are well formed; every constructor establishes this.
    pub open spec fn wf(self) -> bool {
        spec_public_key_wf(self.spec_public()) && spec_private_key_wf(self.spec_private())
    }

    /// Validates serialized key material as a pair: accepted exactly when
    /// the public part is a typed 33-byte key and the private part is 32
    /// bytes.
    pub fn from_public_and_private(public_key: &Vec<u8>, private_key: &Vec<u8>) -> (r: Result<
        KeyPair,
        BadKeyError,
    >)
        ensures
            match r {
                Result::Ok(kp) => {
                    &&& kp.wf()
                    &&& kp.spec_public() == public_key@
                    &&& kp.spec_private() == private_key@
                },
                Result::Err(_) => !(spec_public_key_wf(public_key@) && spec_private_key_wf(
                    private_key@,
                )),
            },
    {
        if public_key.len() != PUBLIC_KEY_LENGTH || private_key.len() != PRIVATE_KEY_LENGTH {
            return Result::Err(BadKeyError);
        }
        if public_key[0] != DJB_TYPE {
            return Result::Err(BadKeyError);
        }
        Result::Ok(
            KeyPair {
                public_key: crate::chat::clone_bytes(public_key),
                private_key: crate::chat::clone_bytes(private_key),
            },
        )
    }

    /// The serialized public key.
    pub fn public_key_bytes(&self) -> (r: Vec<u8>)
        ensures
            r@ == self.spec_public(),
    {
        crate::chat::clone_bytes(&self.public_key)
    }

    /// The serialized private key.
    pub fn private_key_bytes(&self) -> (r: Vec<u8>)
        ensures
            r@ == self.spec_private(),
    {
        crate::chat::clone_bytes(&self.private_key)
    }
}

} // verus!
