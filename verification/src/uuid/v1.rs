use vstd::prelude::*;
use crate::uuid::Specs;
use crate::uuid::Variant;
use crate::uuid::Version;

verus! {

/// The number of 100 ns ticks between the UUID epoch, 1582-10-15, and the
/// Unix epoch, 1970-01-01.
pub const UUID_TICKS_BETWEEN_EPOCHS: u64 = 0x01b21dd213814000;

/// A time-based identifier.
#[derive(Debug, Clone, Eq, Hash, PartialEq)]
pub struct UuidV1([u8; 16]);

/// A 60-bit timestamp split big-endian into its high, middle and low
/// parts, as the identifier lays them out.
#[derive(Default)]
pub struct Time {
    pub hi: [u8; 2],
    pub mid: [u8; 2],
    pub low: [u8; 4],
}

/// The tick count a wall-clock time denotes: hundreds of nanoseconds
/// since the UUID epoch.
pub open spec fn spec_ticks(seconds: u64, nanos: u32) -> int {
    seconds * 10_000_000 + nanos / 100 + UUID_TICKS_BETWEEN_EPOCHS
}

impl Time {
    /// The timestamp as one number, big-endian over its three parts.
    pub open spec fn spec_value(self) -> int {
        self.hi@[0] * 0x100000000000000 + self.hi@[1] * 0x1000000000000 + self.mid@[0]
            * 0x10000000000 + self.mid@[1] * 0x100000000 + self.low@[0] * 0x1000000 + self.low@[1]
            * 0x10000 + self.low@[2] * 0x100 + self.low@[3]
    }

    /// Converts a Unix wall-clock time into identifier ticks.
    pub fn with_unix_time(seconds: u64, nanos: u32) -> (r: Time)
        requires
            spec_ticks(seconds, nanos) <= u64::MAX,
        ensures
            r.spec_value() == spec_ticks(seconds, nanos),
    {
        let unix_time: u64 = seconds * 10_000_000 + (nanos / 100) as u64;
        let t: u64 = unix_time + UUID_TICKS_BETWEEN_EPOCHS;
        let hi = [(t >> 56) as u8, ((t >> 48) & 0xff) as u8];
        let mid = [((t >> 40) & 0xff) as u8, ((t >> 32) & 0xff) as u8];
        let low = [
            ((t >> 24) & 0xff) as u8,
            ((t >> 16) & 0xff) as u8,
            ((t >> 8) & 0xff) as u8,
            (t & 0xff) as u8,
        ];
        let r = Time { hi, mid, low };
        proof {
            let b0 = (t >> 56) as u8;
            let b1 = ((t >> 48) & 0xff) as u8;
            let b2 = ((t >> 40) & 0xff) as u8;
            let b3 = ((t >> 32) & 0xff) as u8;
            let b4 = ((t >> 24) & 0xff) as u8;
            let b5 = ((t >> 16) & 0xff) as u8;
            let b6 = ((t >> 8) & 0xff) as u8;
            let b7 = (t & 0xff) as u8;
            assert(b0 == (t >> 56) as u8 && b1 == ((t >> 48) & 0xff) as u8 && b2 == ((t >> 40)
                & 0xff) as u8 && b3 == ((t >> 32) & 0xff) as u8 && b4 == ((t >> 24) & 0xff) as u8
                && b5 == ((t >> 16) & 0xff) as u8 && b6 == ((t >> 8) & 0xff) as u8 && b7 == (t
                & 0xff) as u8 ==> b0 * 0x100000000000000 + b1 * 0x1000000000000 + b2
                * 0x10000000000 + b3 * 0x100000000 + b4 * 0x1000000 + b5 * 0x10000 + b6 * 0x100
                + b7 == t) by (bit_vector);
        }
        r
    }
}

/// The node field: six bytes naming the generating host.
#[derive(Default)]
pub struct NodeId(pub [u8; 6]);

impl NodeId {
    /// Wraps six raw node bytes.
    pub fn new(bytes: [u8; 6]) -> (r: NodeId)
        ensures
            r.0@ == bytes@,
    {
        NodeId(bytes)
    }
}

/// The clock sequence field, its two high bits already holding the
/// standard variant.
#[derive(Default)]
pub struct ClockSequence {
    pub hi_res: u8,
    pub low: u8,
}

impl ClockSequence {
    /// Splits a counter big-endian and stamps the variant bits onto the
    /// high byte.
    pub fn new(count: u16) -> (r: ClockSequence)
        ensures
            r.hi_res == ((count >> 8) as u8 & 0x3f) | 0x80,
            r.low == (count & 0xff) as u8,
            r.hi_res >> 6 == 2,
    {
        let hi_res: u8 = ((count >> 8) as u8 & 0x3f) | 0x80;
        let low: u8 = (count & 0xff) as u8;
        proof {
            let h = hi_res;
            assert(h == ((h & 0x3fu8) | 0x80u8) ==> h >> 6u8 == 2) by (bit_vector);
            assert(hi_res == (hi_res & 0x3fu8) | 0x80u8) by (bit_vector)
                requires
                    hi_res == (((count >> 8u16) as u8) & 0x3fu8) | 0x80u8,
            ;
        }
        ClockSequence { hi_res, low }
    }
}

/// What a generator consults for the next timestamp, clock sequence and
/// node address; library users supply the implementation.
pub trait Context {
    /// The next timestamp and clock sequence.
    fn next(&self) -> (Time, ClockSequence);

    /// The node address to stamp into the identifier.
    fn node(&self) -> NodeId;
}

/// Packs the three fields into the identifier's byte layout: time low,
/// time mid, time high with the version stamped into its top nibble, the
/// clock sequence with the variant stamped in, then the node.
pub fn assemble(time: &Time, clk_seq: &ClockSequence, node: &NodeId) -> (r: [u8; 16])
    ensures
        r@[0] == time.low@[0] && r@[1] == time.low@[1] && r@[2] == time.low@[2] && r@[3]
            == time.low@[3],
        r@[4] == time.mid@[0] && r@[5] == time.mid@[1],
        r@[6] == (time.hi@[0] & 0x0f) | 0x10,
        r@[7] == time.hi@[1],
        r@[8] == (clk_seq.hi_res & 0x3f) | 0x80,
        r@[9] == clk_seq.low,
        r@[10] == node.0@[0] && r@[11] == node.0@[1] && r@[12] == node.0@[2] && r@[13]
            == node.0@[3] && r@[14] == node.0@[4] && r@[15] == node.0@[5],
        r@[6] >> 4 == 1,
        r@[8] >> 6 == 2,
{
    let h0 = time.hi[0];
    let cs = clk_seq.hi_res;
    let mut b = [0u8; 16];
    b[0] = time.low[0];
    b[1] = time.low[1];
    b[2] = time.low[2];
    b[3] = time.low[3];
    b[4] = time.mid[0];
    b[5] = time.mid[1];
    b[6] = (h0 & 0x0f) | 0x10;
    b[7] = time.hi[1];
    b[8] = (cs & 0x3f) | 0x80;
    b[9] = clk_seq.low;
    b[10] = node.0[0];
    b[11] = node.0[1];
    b[12] = node.0[2];
    b[13] = node.0[3];
    b[14] = node.0[4];
    b[15] = node.0[5];
    proof {
        assert(((h0 & 0x0fu8) | 0x10u8) >> 4u8 == 1) by (bit_vector);
        assert(((cs & 0x3fu8) | 0x80u8) >> 6u8 == 2) by (bit_vector);
    }
    b
}

/// Builds a time-based identifier from a context's clock and node.
pub fn new<T: Context>(context: &T) -> (r: UuidV1)
    ensures
        r.spec_bytes()[6] >> 4 == 1,
        r.spec_bytes()[8] >> 6 == 2,
{
    UuidV1::from_context(context)
}

impl UuidV1 {
    /// Builds the identifier from whatever timestamp, clock sequence and
    /// node the context hands out; the version and variant bits hold for
    /// every outcome.
    pub fn from_context<T: Context>(context: &T) -> (r: UuidV1)
        ensures
            r.spec_bytes()[6] >> 4 == 1,
            r.spec_bytes()[8] >> 6 == 2,
    {
        let (time, clk_seq) = context.next();
        let node = context.node();
        UuidV1(assemble(&time, &clk_seq, &node))
    }

    /// The identifier's bytes.
    pub closed spec fn spec_bytes(self) -> Seq<u8> {
        self.0@
    }

    /// Wraps sixteen raw bytes.
    pub fn from_bytes(bytes: [u8; 16]) -> (r: UuidV1)
        ensures
            r.spec_bytes() == bytes@,
    {
        UuidV1(bytes)
    }

    /// The identifier's bytes, as stored.
    pub fn bytes(&self) -> (r: [u8; 16])
        ensures
            r@ == self.spec_bytes(),
    {
        self.0
    }

    /// The 60-bit timestamp read back out of the identifier, the version
    /// nibble masked away.
    pub fn time(&self) -> (r: u64)
        ensures
            r == (self.spec_bytes()[6] & 0x0f) * 0x100000000000000 + self.spec_bytes()[7]
                * 0x1000000000000 + self.spec_bytes()[4] * 0x10000000000 + self.spec_bytes()[5]
                * 0x100000000 + self.spec_bytes()[0] * 0x1000000 + self.spec_bytes()[1] * 0x10000
                + self.spec_bytes()[2] * 0x100 + self.spec_bytes()[3],
    {
        let x6 = self.0[6];
        let c0 = x6 & 0x0f;
        let c1 = self.0[7];
        let c2 = self.0[4];
        let c3 = self.0[5];
        let c4 = self.0[0];
        let c5 = self.0[1];
        let c6 = self.0[2];
        let c7 = self.0[3];
        let r: u64 = ((c0 as u64) << 56) | ((c1 as u64) << 48) | ((c2 as u64) << 40) | ((
        c3 as u64) << 32) | ((c4 as u64) << 24) | ((c5 as u64) << 16) | ((c6 as u64) << 8) | (
        c7 as u64);
        proof {
            assert((((x6 & 0x0fu8) as u64) << 56) | ((c1 as u64) << 48) | ((c2 as u64) << 40) | ((
            c3 as u64) << 32) | ((c4 as u64) << 24) | ((c5 as u64) << 16) | ((c6 as u64) << 8) | (
            c7 as u64) == (x6 & 0x0fu8) * 0x100000000000000 + c1 * 0x1000000000000 + c2
                * 0x10000000000 + c3 * 0x100000000 + c4 * 0x1000000 + c5 * 0x10000 + c6 * 0x100
                + c7) by (bit_vector);
        }
        r
    }

    /// The node bytes stamped into the identifier's tail.
    pub fn node(&self) -> (r: [u8; 6])
        ensures
            r@[0] == self.spec_bytes()[10] && r@[1] == self.spec_bytes()[11] && r@[2]
                == self.spec_bytes()[12] && r@[3] == self.spec_bytes()[13] && r@[4]
                == self.spec_bytes()[14] && r@[5] == self.spec_bytes()[15],
    {
        [self.0[10], self.0[11], self.0[12], self.0[13], self.0[14], self.0[15]]
    }
}

impl Specs for UuidV1 {
    fn version(&self) -> Version {
        Version::MAC
    }

    fn variant(&self) -> Variant {
        Variant::RFC4122
    }
}

} // verus!
