use std::sync::atomic::{AtomicUsize, Ordering};

use patricia::convert::Transmute;
use patricia::uuid::v1::{ClockSequence, Context, NodeId, Time, UuidV1, UUID_TICKS_BETWEEN_EPOCHS};
use patricia::uuid::{Specs, Variant, Version};

struct Data {
    uuid: u128,
    seconds: u64,
    nanos: u32,
    node: [u8; 6],
    count: u16,
}

const DATA: &[Data] = &[
    Data {
        uuid: 0x206169344ba211e78000010203040506u128,
        seconds: 1496854535u64,
        nanos: 812946000u32,
        node: [1, 2, 3, 4, 5, 6],
        count: 0u16,
    },
    Data {
        uuid: 0x206169344ba211e78001010203040506u128,
        seconds: 1496854535u64,
        nanos: 812946000u32,
        node: [1, 2, 3, 4, 5, 6],
        count: 1u16,
    },
];

struct MockCounterContext {
    seconds: u64,
    nanos: u32,
    node: [u8; 6],
    count: AtomicUsize,
}

impl MockCounterContext {
    fn new(seconds: u64, nanos: u32, node: [u8; 6], count: u16) -> Self {
        let count = AtomicUsize::new(count as usize);
        MockCounterContext { seconds, nanos, node, count }
    }
}

impl Context for MockCounterContext {
    fn next(&self) -> (Time, ClockSequence) {
        let time = Time::with_unix_time(self.seconds, self.nanos);
        let count = (self.count.fetch_add(1, Ordering::SeqCst) & 0xffff) as u16;
        let clk_seq = ClockSequence::new(count);
        (time, clk_seq)
    }

    fn node(&self) -> NodeId {
        NodeId::new(self.node)
    }
}

fn generate_uuids() -> Vec<UuidV1> {
    let mut arr = vec![];
    for i in DATA {
        let context = MockCounterContext::new(i.seconds, i.nanos, i.node, i.count);
        arr.push(UuidV1::from_context(&context));
    }
    arr
}

#[test]
fn check_node_id() {
    for (i, uuid) in generate_uuids().iter().enumerate() {
        let node = uuid.node();
        let origin = DATA[i].node;
        assert_eq!(node, origin, "wrong node id");
    }
}

#[test]
fn check_times() {
    for (i, uuid) in generate_uuids().iter().enumerate() {
        let time = uuid.time() - UUID_TICKS_BETWEEN_EPOCHS;
        let origin = DATA[i].seconds * 10000000 + (DATA[i].nanos as u64) / 100;
        assert_eq!(time, origin);
    }
}

#[test]
fn v1_check_struct_size() {
    for uuid in generate_uuids().iter() {
        let size = std::mem::size_of_val(uuid);
        assert_eq!(size, 16, "wrong uuid data size");
    }
}

#[test]
fn v1_check_bytes_ordering() {
    let count = DATA.len();
    for (i, uuid) in generate_uuids().iter().take(count).enumerate() {
        let bytes = uuid.bytes();
        let origin: [u8; 16] = DATA[i].uuid.to_be().transmute();
        assert_eq!(bytes, origin, "wrong bytes ordering");
    }
}

#[test]
fn v1_check_variant() {
    for uuid in generate_uuids().iter() {
        // 10x high 2 bits of 8 octet
        let byte = uuid.bytes()[8];
        assert_eq!(byte >> 6, 2u8);
        assert_eq!(uuid.variant(), Variant::RFC4122);
    }
}

#[test]
fn v1_check_version() {
    for uuid in generate_uuids().iter() {
        // 0100 high 4 bits of 6 octet
        let byte = uuid.bytes()[6];
        assert_eq!(byte & 0xf0u8, 0x10u8);
        assert_eq!(uuid.version(), Version::MAC);
    }
}
