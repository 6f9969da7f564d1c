use vstd::prelude::*;

verus! {

/// Reinterpretation of one plain value as another of the same width; the
/// byte forms below fix the machine's little-endian order explicitly.
pub trait Transmute<T> {
    /// Reinterprets the value.
    fn transmute(self) -> T;
}

impl Transmute<[u8; 2]> for u16 {
    fn transmute(self) -> [u8; 2] {
        [(self & 0xff) as u8, ((self >> 8) & 0xff) as u8]
    }
}

impl Transmute<u16> for [u8; 2] {
    fn transmute(self) -> u16 {
        (self[0] as u16) | ((self[1] as u16) << 8)
    }
}

impl Transmute<[u8; 4]> for u32 {
    fn transmute(self) -> [u8; 4] {
        [
            (self & 0xff) as u8,
            ((self >> 8) & 0xff) as u8,
            ((self >> 16) & 0xff) as u8,
            ((self >> 24) & 0xff) as u8,
        ]
    }
}

impl Transmute<u32> for [u8; 4] {
    fn transmute(self) -> u32 {
        (self[0] as u32) | ((self[1] as u32) << 8) | ((self[2] as u32) << 16) | ((
        self[3] as u32) << 24)
    }
}

impl Transmute<[u8; 8]> for u64 {
    fn transmute(self) -> [u8; 8] {
        [
            (self & 0xff) as u8,
            ((self >> 8) & 0xff) as u8,
            ((self >> 16) & 0xff) as u8,
            ((self >> 24) & 0xff) as u8,
            ((self >> 32) & 0xff) as u8,
            ((self >> 40) & 0xff) as u8,
            ((self >> 48) & 0xff) as u8,
            ((self >> 56) & 0xff) as u8,
        ]
    }
}

impl Transmute<u64> for [u8; 8] {
    fn transmute(self) -> u64 {
        (self[0] as u64) | ((self[1] as u64) << 8) | ((self[2] as u64) << 16) | ((
        self[3] as u64) << 24) | ((self[4] as u64) << 32) | ((self[5] as u64) << 40) | ((
        self[6] as u64) << 48) | ((self[7] as u64) << 56)
    }
}

impl Transmute<[u8; 16]> for u128 {
    fn transmute(self) -> [u8; 16] {
        [
            (self & 0xff) as u8,
            ((self >> 8) & 0xff) as u8,
            ((self >> 16) & 0xff) as u8,
            ((self >> 24) & 0xff) as u8,
            ((self >> 32) & 0xff) as u8,
            ((self >> 40) & 0xff) as u8,
            ((self >> 48) & 0xff) as u8,
            ((self >> 56) & 0xff) as u8,
            ((self >> 64) & 0xff) as u8,
            ((self >> 72) & 0xff) as u8,
            ((self >> 80) & 0xff) as u8,
            ((self >> 88) & 0xff) as u8,
            ((self >> 96) & 0xff) as u8,
            ((self >> 104) & 0xff) as u8,
            ((self >> 112) & 0xff) as u8,
            ((self >> 120) & 0xff) as u8,
        ]
    }
}

impl Transmute<u128> for [u8; 16] {
    fn transmute(self) -> u128 {
        (self[0] as u128) | ((self[1] as u128) << 8) | ((self[2] as u128) << 16) | ((
        self[3] as u128) << 24) | ((self[4] as u128) << 32) | ((self[5] as u128) << 40) | ((
        self[6] as u128) << 48) | ((self[7] as u128) << 56) | ((self[8] as u128) << 64) | ((
        self[9] as u128) << 72) | ((self[10] as u128) << 80) | ((self[11] as u128) << 88) | ((
        self[12] as u128) << 96) | ((self[13] as u128) << 104) | ((self[14] as u128) << 112) | ((
        self[15] as u128) << 120)
    }
}

} // verus!
