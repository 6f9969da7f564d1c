use vstd::prelude::*;
use crate::uuid::Specs;
use crate::uuid::Variant;
use crate::uuid::Version;

verus! {

/// A randomly generated identifier.
#[derive(Clone, Eq, Hash, PartialEq, Debug)]
pub struct UuidV4([u8; 16]);

/// Builds a random identifier.
pub fn new() -> (r: UuidV4)
    ensures
        r.spec_bytes()[6] >> 4 == 4,
        r.spec_bytes()[8] >> 6 == 2,
{
    UuidV4::new()
}

/// One step of the multiplicative congruential generator filling the
/// random bytes; the state wraps modulo the word size by design.
fn mcg_step(state: u64) -> (r: u64) {
    state.wrapping_mul(6364136223846793005).wrapping_add(1442695040888963407)
}

/// Splits a generator word into its eight bytes, high first.
fn word_bytes(x: u64) -> (r: [u8; 8]) {
    [
        (x >> 56) as u8,
        ((x >> 48) & 0xff) as u8,
        ((x >> 40) & 0xff) as u8,
        ((x >> 32) & 0xff) as u8,
        ((x >> 24) & 0xff) as u8,
        ((x >> 16) & 0xff) as u8,
        ((x >> 8) & 0xff) as u8,
        (x & 0xff) as u8,
    ]
}

impl UuidV4 {
    /// Draws sixteen bytes from the generator, then stamps the version
    /// into octet six and the variant into octet eight.
    pub fn new() -> (r: UuidV4)
        ensures
            r.spec_bytes()[6] >> 4 == 4,
            r.spec_bytes()[8] >> 6 == 2,
    {
        let s1 = mcg_step(0);
        let s2 = mcg_step(s1);
        let h = word_bytes(s1);
        let l = word_bytes(s2);
        let h6 = h[6];
        let l0 = l[0];
        let mut b = [0u8; 16];
        b[0] = h[0];
        b[1] = h[1];
        b[2] = h[2];
        b[3] = h[3];
        b[4] = h[4];
        b[5] = h[5];
        b[6] = (h6 & 0x0f) | 0x40;
        b[7] = h[7];
        b[8] = (l0 & 0x3f) | 0x80;
        b[9] = l[1];
        b[10] = l[2];
        b[11] = l[3];
        b[12] = l[4];
        b[13] = l[5];
        b[14] = l[6];
        b[15] = l[7];
        proof {
            assert(((h6 & 0x0fu8) | 0x40u8) >> 4u8 == 4) by (bit_vector);
            assert(((l0 & 0x3fu8) | 0x80u8) >> 6u8 == 2) by (bit_vector);
        }
        UuidV4(b)
    }

    /// The identifier's bytes.
    pub closed spec fn spec_bytes(self) -> Seq<u8> {
        self.0@
    }

    /// Wraps sixteen raw bytes.
    pub fn from_bytes(bytes: [u8; 16]) -> (r: UuidV4)
        ensures
            r.spec_bytes() == bytes@,
    {
        UuidV4(bytes)
    }

    /// The identifier's bytes, as stored.
    pub fn bytes(&self) -> (r: [u8; 16])
        ensures
            r@ == self.spec_bytes(),
    {
        self.0
    }
}

impl Specs for UuidV4 {
    fn version(&self) -> Version {
        Version::RANDOM
    }

    fn variant(&self) -> Variant {
        Variant::RFC4122
    }
}

} // verus!
