//! Universally unique identifiers: the shared 16-byte value, its version
//! and variant fields, and the time-based and random generators.

pub mod v1;
pub mod v4;

use vstd::prelude::*;

verus! {

/// The version recorded in the four high bits of octet six.
#[derive(Clone, Copy, Debug, PartialEq, Eq, Structural)]
pub enum Version {
    /// The nil or unrecognised version.
    NIL,
    /// Time-based, with a node address.
    MAC,
    /// DCE security.
    DCE,
    /// Name-based, MD5.
    MD5,
    /// Randomly generated.
    RANDOM,
    /// Name-based, SHA-1.
    SHA1,
}

/// The variant recorded in the high bits of octet eight.
#[derive(Clone, Copy, Debug, PartialEq, Eq, Structural)]
pub enum Variant {
    /// Reserved, NCS backward compatibility.
    NCS,
    /// The standard lease of the variant field.
    RFC4122,
    /// Reserved, Microsoft backward compatibility.
    Microsoft,
    /// Reserved for the future.
    Future,
}

/// The version a raw version nibble denotes.
pub open spec fn spec_version_of(nibble: u8) -> Version {
    if nibble == 1 {
        Version::MAC
    } else if nibble == 2 {
        Version::DCE
    } else if nibble == 3 {
        Version::MD5
    } else if nibble == 4 {
        Version::RANDOM
    } else if nibble == 5 {
        Version::SHA1
    } else {
        Version::NIL
    }
}

/// The variant the three high bits of octet eight denote.
pub open spec fn spec_variant_of(bits: u8) -> Variant {
    if bits == 6 {
        Variant::Microsoft
    } else if bits == 7 {
        Variant::Future
    } else if bits == 4 || bits == 5 {
        Variant::RFC4122
    } else {
        Variant::NCS
    }
}

/// A bare identifier: sixteen opaque bytes.
#[derive(Clone, Debug, PartialEq, Eq, Hash)]
pub struct Uuid([u8; 16]);

impl Uuid {
    /// The identifier's bytes.
    pub closed spec fn spec_bytes(self) -> Seq<u8> {
        self.0@
    }

    /// Wraps sixteen raw bytes.
    pub fn from_bytes(bytes: [u8; 16]) -> (r: Uuid)
        ensures
            r.spec_bytes() == bytes@,
    {
        Uuid(bytes)
    }

    /// The identifier's bytes, as stored.
    pub fn bytes(&self) -> (r: [u8; 16])
        ensures
            r@ == self.spec_bytes(),
    {
        self.0
    }
}

/// What every identifier reports of itself.
pub trait Specs {
    /// The version recorded in octet six.
    fn version(&self) -> Version;

    /// The variant recorded in octet eight.
    fn variant(&self) -> Variant;
}

impl Specs for Uuid {
    fn version(&self) -> Version {
        let nibble = self.0[6] >> 4;
        if nibble > 5 {
            Version::NIL
        } else if nibble == 1 {
            Version::MAC
        } else if nibble == 2 {
            Version::DCE
        } else if nibble == 3 {
            Version::MD5
        } else if nibble == 4 {
            Version::RANDOM
        } else if nibble == 5 {
            Version::SHA1
        } else {
            Version::NIL
        }
    }

    fn variant(&self) -> Variant {
        let bits = self.0[8] >> 5;
        if bits == 6 {
            Variant::Microsoft
        } else if bits == 7 {
            Variant::Future
        } else if bits == 4 || bits == 5 {
            Variant::RFC4122
        } else {
            Variant::NCS
        }
    }
}

} // verus!
