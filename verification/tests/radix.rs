use patricia::radix::block;
use patricia::radix::block::{Position, Reader};
use patricia::radix::error::TrieError;
use patricia::radix::gate::{AccessError, Gate};
use patricia::radix::header::Header;
use patricia::radix::storage;
use patricia::pool::{Pool, BLOCK_SIZE};
use patricia::shared::ptr::Ptr;
use patricia::shared::rc::{Rc, RcCell};

#[test]
fn header_packs_and_reads_back() {
    let h = Header::new(true, false, true, 17);
    assert_eq!(h.label_len(), 17);
    assert!(h.has_value());
    assert!(!h.has_child());
    assert!(h.has_neighbor());
    // header byte, 17 label bytes, 4-byte value slot, 4-byte neighbor slot
    assert_eq!(h.calc_node_size(4, 4), 1 + 17 + 4 + 4);
    let again = Header::from_bits(h.bits());
    assert_eq!(again.label_len(), 17);
    assert_eq!(again.flags(), h.flags());
}

#[test]
fn gate_follows_the_transition_table() {
    let mut g = Gate::new();
    assert!(!g.is_removed());
    assert!(!g.is_bunch());
    assert!(!g.is_open());
    assert!(!g.is_open_mut());

    // two readers in, writer refused, two readers out
    assert_eq!(g.open_read(), Ok(()));
    assert_eq!(g.open_read(), Ok(()));
    assert_eq!(g.readers(), 2);
    assert_eq!(g.open_write(), Err(AccessError::Open));
    assert_eq!(g.remove(), Err(AccessError::Open));
    assert_eq!(g.close_read(), Ok(()));
    assert_eq!(g.close_read(), Ok(()));
    assert_eq!(g.close_read(), Err(AccessError::Open));

    // a writer excludes readers and further writers
    assert_eq!(g.open_write(), Ok(()));
    assert_eq!(g.open_read(), Err(AccessError::OpenAsMut));
    assert_eq!(g.open_write(), Err(AccessError::OpenAsMut));
    assert_eq!(g.close_write(), Ok(()));

    // removal is terminal
    assert_eq!(g.remove(), Ok(()));
    assert!(g.is_removed());
    assert_eq!(g.open_read(), Err(AccessError::Removed));
    assert_eq!(g.open_write(), Err(AccessError::Removed));
    assert_eq!(g.remove(), Err(AccessError::Removed));
}

#[test]
fn gate_reader_count_is_capped() {
    let mut g = Gate::new();
    for _ in 0..31 {
        assert_eq!(g.open_read(), Ok(()));
    }
    assert_eq!(g.readers(), 31);
    assert_eq!(g.open_read(), Err(AccessError::TooManyReaders));
}

#[test]
fn block_codec_round_trips() {
    let label = vec![7u8, 8, 9];
    let encoded = block::encode(&label, Some(11), None, Some(33)).expect("short label");
    // header + label + value slot + neighbor slot
    assert_eq!(encoded.len(), 1 + 3 + 4 + 4);
    let info = block::decode(&encoded).expect("well-formed block");
    assert_eq!(info.label, &label[..]);
    assert_eq!(info.value, Some(11));
    assert_eq!(info.child, None);
    assert_eq!(info.neighbor, Some(33));
}

#[test]
fn block_encode_refuses_long_labels() {
    let label = vec![0u8; 32];
    assert_eq!(block::encode(&label, None, None, None), Err(TrieError::LabelTooLong));
    let edge = vec![0u8; 31];
    assert!(block::encode(&edge, None, None, None).is_ok());
}

#[test]
fn block_decode_refuses_inconsistent_sizes() {
    assert_eq!(block::decode(&vec![]), Err(TrieError::Corrupt));
    let mut encoded = block::encode(&vec![1u8, 2], Some(5), None, None).expect("short label");
    encoded.pop();
    assert_eq!(block::decode(&encoded), Err(TrieError::Corrupt));
}

#[test]
fn reader_walks_the_regions_in_order() {
    let label = vec![1u8, 2];
    let encoded = block::encode(&label, Some(9), Some(21), None).expect("short label");
    let mut reader = Reader::new(&encoded);
    assert_eq!(reader.label(), &[1u8, 2][..]);
    assert_eq!(reader.next(), Some(Position::Label));
    assert_eq!(reader.next(), Some(Position::Value(9)));
    assert_eq!(reader.next(), Some(Position::Child(21)));
    assert_eq!(reader.next(), None);
    assert_eq!(reader.next(), None);

    let bare = block::encode(&vec![5u8], None, None, Some(3)).expect("short label");
    let mut reader = Reader::new(&bare);
    assert_eq!(reader.next(), Some(Position::Label));
    assert_eq!(reader.next(), Some(Position::Neighbor(3)));
    assert_eq!(reader.next(), None);
}

#[test]
fn storage_hands_out_zeroed_blocks() {
    let block = storage::acquire(9);
    assert_eq!(block.len(), 9);
    assert!(block.iter().all(|b| *b == 0));
}

#[test]
fn pool_sizes_in_blocks() {
    let mut p: Pool<u8> = Pool::default();
    assert_eq!(p.size(), 0);
    let after = p.allocate();
    assert_eq!(after, 0);
    let mut q: Pool<u8> = Pool::default();
    p.swap(&mut q);
    assert_eq!(p.size(), 0);
    p.clear();
    assert_eq!(BLOCK_SIZE, 512);
}

#[test]
fn shared_slot_and_cell() {
    let mut p: Ptr<u8> = Ptr::null();
    assert_eq!(p.take(), None);
    assert_eq!(p.replace(1), None);
    assert_eq!(p.replace(2), Some(1));
    assert_eq!(p.take(), Some(2));
    p.put(3);
    let mut q = Ptr::new(4u8);
    assert_eq!(q.take(), Some(4));

    let rc = Rc::new(5u8);
    assert_eq!(*rc.value(), 5);
    let other = rc.share();
    assert_eq!(*other.value(), 5);

    let mut cell = RcCell::new(6u8);
    assert_eq!(*cell.get().value(), 6);
    let old = cell.set(Rc::new(7u8));
    assert_eq!(*old.value(), 6);
    assert_eq!(*cell.get().value(), 7);
}
