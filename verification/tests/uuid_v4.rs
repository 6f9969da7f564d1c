use patricia::convert::Transmute;
use patricia::uuid::v4::UuidV4;
use patricia::uuid::{Specs, Variant, Version};
use patricia::uuid::v1::{Time, UUID_TICKS_BETWEEN_EPOCHS};
use std::mem::size_of_val;

const UUID_V4: &[u128] = &[
    0x434511c9932b4b58a0f9cedf28d44a35u128,
    0xb8a6077771f64ba09216fd6059395cf9u128,
    0x550e8400e29b41d4a716446655440000u128,
    0x67e5504410b1426f9247bb680e5fe0c8u128,
];

fn generate_uuids() -> Vec<UuidV4> {
    let mut arr = vec![];
    for uuid in UUID_V4 {
        let uuid = (*uuid).to_be().transmute();
        arr.push(UuidV4::from_bytes(uuid));
    }
    for _ in 0..10 {
        arr.push(UuidV4::new());
    }
    arr
}

#[test]
fn v4_check_struct_size() {
    for uuid in generate_uuids().iter() {
        let size = size_of_val(uuid);
        assert_eq!(size, 16, "{:?} wrong uuid data size", size);
    }
}

#[test]
fn v4_check_bytes_ordering() {
    let count = UUID_V4.len();
    for (i, uuid) in generate_uuids().iter().take(count).enumerate() {
        let bytes = uuid.bytes();
        let origin: [u8; 16] = UUID_V4[i].to_be().transmute();
        assert_eq!(bytes, origin, "{:?} vs {:?} wrong bytes ordering", bytes, origin);
    }
}

#[test]
fn v4_check_variant() {
    for uuid in generate_uuids().iter() {
        // 10x high 2 bits of 8 octet
        let byte = uuid.bytes()[8];
        assert_eq!(byte >> 6, 2u8);
        assert_eq!(uuid.variant(), Variant::RFC4122);
    }
}

#[test]
fn v4_check_version() {
    for uuid in generate_uuids().iter() {
        // 0100 high 4 bits of 6 octet
        let byte = uuid.bytes()[6];
        assert_eq!(byte >> 4, 0x4u8);
        assert_eq!(uuid.version(), Version::RANDOM);
    }
}

#[test]
fn transmute_round_trips() {
    let x: u128 = 0x0123456789abcdef0011223344556677u128;
    let bytes: [u8; 16] = x.transmute();
    let back: u128 = bytes.transmute();
    assert_eq!(back, x);
    let y: u64 = 0xfedcba9876543210u64;
    let b8: [u8; 8] = y.transmute();
    let back64: u64 = b8.transmute();
    assert_eq!(back64, y);
    let z: u32 = 0xdeadbeef;
    let b4: [u8; 4] = z.transmute();
    assert_eq!(b4, [0xef, 0xbe, 0xad, 0xde]);
    let w: u16 = 0x1234;
    let b2: [u8; 2] = w.transmute();
    let back16: u16 = b2.transmute();
    assert_eq!(back16, w);
}

#[test]
fn with_unix_time_matches_ticks() {
    let t = Time::with_unix_time(1, 200);
    // one second and two ticks past the Unix epoch
    let expected = 10_000_002u64 + UUID_TICKS_BETWEEN_EPOCHS;
    let mut v: u64 = 0;
    for b in [t.hi[0], t.hi[1], t.mid[0], t.mid[1], t.low[0], t.low[1], t.low[2], t.low[3]] {
        v = (v << 8) | b as u64;
    }
    assert_eq!(v, expected);
}
