use vstd::prelude::*;
use crate::radix::error::TrieError;
use crate::radix::header::Header;
use crate::radix::header::MAX_LABEL_LEN;
use crate::radix::storage;

verus! {

/// Width in bytes of a pointer region (a child or neighbor slot handle).
pub const PTR_SIZE: usize = 4;
/// Width in bytes of the inline value region (a value slot handle).
pub const VALUE_SIZE: usize = 4;

/// A node block decoded into its parts: the edge label, borrowed straight
/// out of the block, and, where present, the value slot handle, the
/// first-child handle and the next-sibling handle.
#[derive(Debug, PartialEq, Eq)]
pub struct Info<'a> {
    pub label: &'a [u8],
    pub value: Option<u32>,
    pub child: Option<u32>,
    pub neighbor: Option<u32>,
}

/// The header stored at the front of a block.
pub open spec fn block_header(b: Seq<u8>) -> Header {
    Header { inner: b[0] }
}

/// The big-endian 32-bit word stored at `off`.
pub open spec fn be32(b: Seq<u8>, off: int) -> u32 {
    (b[off] * 0x1000000 + b[off + 1] * 0x10000 + b[off + 2] * 0x100 + b[off + 3]) as u32
}

/// Offset of the optional value region: right after the label.
pub open spec fn value_off(b: Seq<u8>) -> int {
    1 + block_header(b).spec_label_len()
}

/// Offset of the optional first-child region.
pub open spec fn child_off(b: Seq<u8>) -> int {
    value_off(b) + if block_header(b).spec_has_value() {
        VALUE_SIZE as int
    } else {
        0
    }
}

/// Offset of the optional next-sibling region.
pub open spec fn neighbor_off(b: Seq<u8>) -> int {
    child_off(b) + if block_header(b).spec_has_child() {
        PTR_SIZE as int
    } else {
        0
    }
}

/// A block is well formed when its length is exactly what its own header
/// demands: header, label, and each optional region only when present.
pub open spec fn block_wf(b: Seq<u8>) -> bool {
    b.len() >= 1 && b.len() == block_header(b).spec_node_size(VALUE_SIZE as int, PTR_SIZE as int)
}

/// The edge label carried by the block.
pub open spec fn block_label(b: Seq<u8>) -> Seq<u8> {
    b.subrange(1, value_off(b))
}

/// The value slot handle, where the value flag is set.
pub open spec fn block_value(b: Seq<u8>) -> Option<u32> {
    if block_header(b).spec_has_value() {
        Some(be32(b, value_off(b)))
    } else {
        None
    }
}

/// The first-child handle, where the child flag is set.
pub open spec fn block_child(b: Seq<u8>) -> Option<u32> {
    if block_header(b).spec_has_child() {
        Some(be32(b, child_off(b)))
    } else {
        None
    }
}

/// The next-sibling handle, where the neighbor flag is set.
pub open spec fn block_neighbor(b: Seq<u8>) -> Option<u32> {
    if block_header(b).spec_has_neighbor() {
        Some(be32(b, neighbor_off(b)))
    } else {
        None
    }
}

/// One stop of an incremental walk over a block: the label region, then
/// each optional region that is present, in their frozen order.
#[derive(Clone, Copy, Debug, PartialEq, Eq, Structural)]
pub enum Position {
    /// The edge label; its bytes are read through the reader.
    Label,
    /// The value region, holding this value slot handle.
    Value(u32),
    /// The first-child region, holding this child handle.
    Child(u32),
    /// The next-sibling region, holding this sibling handle.
    Neighbor(u32),
}

/// The stops a walk makes from the given stage on: stage zero is before
/// the label, each later stage is before one optional region.
pub open spec fn items_from(b: Seq<u8>, stage: int) -> Seq<Position>
    decreases 4 - stage,
{
    if stage >= 4 || stage < 0 {
        Seq::empty()
    } else if stage == 0 {
        seq![Position::Label] + items_from(b, 1)
    } else if stage == 1 {
        (match block_value(b) {
            Some(v) => seq![Position::Value(v)],
            None => Seq::empty(),
        }) + items_from(b, 2)
    } else if stage == 2 {
        (match block_child(b) {
            Some(c) => seq![Position::Child(c)],
            None => Seq::empty(),
        }) + items_from(b, 3)
    } else {
        match block_neighbor(b) {
            Some(n) => seq![Position::Neighbor(n)],
            None => Seq::empty(),
        }
    }
}

/// Every stop of a walk over the whole block.
pub open spec fn block_items(b: Seq<u8>) -> Seq<Position> {
    items_from(b, 0)
}

/// An incremental reader over one block: yields each region in layout
/// order without ever looking past what the header announces.
pub struct Reader<'a> {
    block: &'a Vec<u8>,
    stage: u8,
}

impl<'a> Reader<'a> {
    /// The block being walked.
    pub closed spec fn spec_block(self) -> Seq<u8> {
        self.block@
    }

    /// How far the walk has come.
    pub closed spec fn spec_stage(self) -> int {
        self.stage as int
    }

    /// Validity: a well-formed block and an in-range stage.
    pub closed spec fn wf(self) -> bool {
        block_wf(self.block@) && self.stage <= 4
    }

    /// The stops still ahead of the reader.
    pub closed spec fn remaining(self) -> Seq<Position> {
        items_from(self.block@, self.stage as int)
    }

    /// A reader placed at the front of a block.
    pub fn new(block: &'a Vec<u8>) -> (r: Reader<'a>)
        requires
            block_wf(block@),
        ensures
            r.wf(),
            r.spec_block() == block@,
            r.remaining() == block_items(block@),
    {
        Reader { block, stage: 0 }
    }

    /// The edge label of the block being walked.
    pub fn label(&self) -> (r: &'a [u8])
        requires
            self.wf(),
        ensures
            r@ == block_label(self.spec_block()),
    {
        let header = Header::from_bits(self.block[0]);
        let len = header.label_len() as usize;
        vstd::slice::slice_subrange(self.block.as_slice(), 1, 1 + len)
    }

    /// The next stop of the walk, `None` once the block is exhausted.
    pub fn next(&mut self) -> (r: Option<Position>)
        requires
            old(self).wf(),
        ensures
            final(self).wf(),
            final(self).spec_block() == old(self).spec_block(),
            old(self).remaining().len() == 0 ==> r is None && final(self).remaining().len() == 0,
            old(self).remaining().len() > 0 ==> r == Some(old(self).remaining()[0])
                && final(self).remaining() == old(self).remaining().skip(1),
        decreases 4 - old(self).spec_stage(),
    {
        let ghost pre = *self;
        let header = Header::from_bits(self.block[0]);
        if self.stage == 0 {
            self.stage = 1;
            proof {
                assert(pre.remaining() == seq![Position::Label] + self.remaining());
                assert(pre.remaining().skip(1) =~= self.remaining());
            }
            Some(Position::Label)
        } else if self.stage == 1 {
            self.stage = 2;
            if header.has_value() {
                let v = read_be32(self.block, 1 + header.label_len() as usize);
                proof {
                    assert(v == block_value(self.block@)->0);
                    assert(pre.remaining() == seq![Position::Value(v)] + self.remaining());
                    assert(pre.remaining().skip(1) =~= self.remaining());
                }
                Some(Position::Value(v))
            } else {
                proof {
                    assert(pre.remaining() =~= self.remaining());
                }
                self.next()
            }
        } else if self.stage == 2 {
            self.stage = 3;
            if header.has_child() {
                let mut off = 1 + header.label_len() as usize;
                if header.has_value() {
                    off = off + VALUE_SIZE;
                }
                let c = read_be32(self.block, off);
                proof {
                    assert(c == block_child(self.block@)->0);
                    assert(pre.remaining() == seq![Position::Child(c)] + self.remaining());
                    assert(pre.remaining().skip(1) =~= self.remaining());
                }
                Some(Position::Child(c))
            } else {
                proof {
                    assert(pre.remaining() =~= self.remaining());
                }
                self.next()
            }
        } else if self.stage == 3 {
            self.stage = 4;
            if header.has_neighbor() {
                let mut off = 1 + header.label_len() as usize;
                if header.has_value() {
                    off = off + VALUE_SIZE;
                }
                if header.has_child() {
                    off = off + PTR_SIZE;
                }
                let n = read_be32(self.block, off);
                proof {
                    assert(n == block_neighbor(self.block@)->0);
                    assert(pre.remaining() == seq![Position::Neighbor(n)] + self.remaining());
                    assert(pre.remaining().skip(1) =~= self.remaining());
                }
                Some(Position::Neighbor(n))
            } else {
                proof {
                    assert(pre.remaining() =~= self.remaining());
                }
                self.next()
            }
        } else {
            None
        }
    }
}

/// Writes `x` big-endian at `off`, leaving every other byte alone.
fn put_be32(buf: &mut Vec<u8>, off: usize, x: u32)
    requires
        off + 4 <= old(buf)@.len(),
    ensures
        final(buf)@.len() == old(buf)@.len(),
        forall|j: int| 0 <= j < old(buf)@.len() && !(off <= j < off + 4) ==> final(buf)@[j]
            == old(buf)@[j],
        be32(final(buf)@, off as int) == x,
{
    // pins the buffer length as a machine word, for the index bounds
    let n = buf.len();
    let b0: u8 = (x >> 24) as u8;
    let b1: u8 = ((x >> 16) & 0xff) as u8;
    let b2: u8 = ((x >> 8) & 0xff) as u8;
    let b3: u8 = (x & 0xff) as u8;
    buf[off] = b0;
    buf[off + 1] = b1;
    buf[off + 2] = b2;
    buf[off + 3] = b3;
    proof {
        assert(b0 == (x >> 24) as u8 && b1 == ((x >> 16) & 0xff) as u8 && b2 == ((x >> 8)
            & 0xff) as u8 && b3 == (x & 0xff) as u8 ==> b0 * 0x1000000 + b1 * 0x10000 + b2 * 0x100
            + b3 == x) by (bit_vector);
        assert(be32(final(buf)@, off as int) == x);
    }
}

/// Reads the big-endian 32-bit word at `off`.
fn read_be32(buf: &Vec<u8>, off: usize) -> (r: u32)
    requires
        off + 4 <= buf@.len(),
    ensures
        r == be32(buf@, off as int),
{
    // pins the buffer length as a machine word, for the index bounds
    let n = buf.len();
    let b0 = buf[off];
    let b1 = buf[off + 1];
    let b2 = buf[off + 2];
    let b3 = buf[off + 3];
    let r: u32 = ((b0 as u32) << 24) | ((b1 as u32) << 16) | ((b2 as u32) << 8) | (b3 as u32);
    proof {
        assert((((b0 as u32) << 24) | ((b1 as u32) << 16) | ((b2 as u32) << 8) | (b3 as u32)) == b0
            * 0x1000000 + b1 * 0x10000 + b2 * 0x100 + b3) by (bit_vector);
    }
    r
}

/// Encodes a node block: header first, then the label, then the present
/// optional regions in the frozen order value, child, neighbor.  The one
/// refusal is a label longer than the header's length field can hold.
pub fn encode(label: &Vec<u8>, value: Option<u32>, child: Option<u32>, neighbor: Option<u32>) -> (r:
    Result<Vec<u8>, TrieError>)
    ensures
        r is Ok <==> label@.len() <= MAX_LABEL_LEN,
        r is Err ==> r == Err::<Vec<u8>, TrieError>(TrieError::LabelTooLong),
        r matches Ok(b) ==> block_wf(b@) && block_label(b@) == label@ && block_value(b@) == value
            && block_child(b@) == child && block_neighbor(b@) == neighbor,
{
    if label.len() > MAX_LABEL_LEN as usize {
        return Err(TrieError::LabelTooLong);
    }
    let header = Header::new(value.is_some(), child.is_some(), neighbor.is_some(),
        label.len() as u8);
    let size = header.calc_node_size(VALUE_SIZE, PTR_SIZE);
    let mut buf = storage::acquire(size);
    buf[0] = header.bits();
    let mut i: usize = 0;
    while i < label.len()
        invariant
            i <= label@.len(),
            label@.len() <= MAX_LABEL_LEN,
            buf@.len() == size,
            size == header.spec_node_size(VALUE_SIZE as int, PTR_SIZE as int),
            header.spec_label_len() == label@.len(),
            buf@[0] == header.spec_bits(),
            forall|j: int| 0 <= j < i ==> buf@[1 + j] == label@[j],
        decreases label@.len() - i,
    {
        buf[1 + i] = label[i];
        i = i + 1;
    }
    let mut off: usize = 1 + label.len();
    if let Some(v) = value {
        put_be32(&mut buf, off, v);
        off = off + VALUE_SIZE;
    }
    if let Some(c) = child {
        put_be32(&mut buf, off, c);
        off = off + PTR_SIZE;
    }
    if let Some(n) = neighbor {
        put_be32(&mut buf, off, n);
    }
    proof {
        assert(block_header(buf@) == header);
        assert(block_label(buf@) =~= label@);
    }
    Ok(buf)
}

/// Decodes a node block, reading exactly the regions its header announces
/// and never copying the label.  A block whose size disagrees with its
/// header is refused as corrupt.
pub fn decode<'a>(block: &'a Vec<u8>) -> (r: Result<Info<'a>, TrieError>)
    ensures
        r is Ok <==> block_wf(block@),
        r is Err ==> r == Err::<Info<'a>, TrieError>(TrieError::Corrupt),
        r matches Ok(info) ==> info.label@ == block_label(block@) && info.value == block_value(
            block@,
        ) && info.child == block_child(block@) && info.neighbor == block_neighbor(block@),
{
    if block.len() == 0 {
        return Err(TrieError::Corrupt);
    }
    let header = Header::from_bits(block[0]);
    let expected = header.calc_node_size(VALUE_SIZE, PTR_SIZE);
    if block.len() != expected {
        return Err(TrieError::Corrupt);
    }
    let label_len = header.label_len() as usize;
    let label = vstd::slice::slice_subrange(block.as_slice(), 1, 1 + label_len);
    let mut off: usize = 1 + label_len;
    let value = if header.has_value() {
        let v = read_be32(block, off);
        off = off + VALUE_SIZE;
        Some(v)
    } else {
        None
    };
    let child = if header.has_child() {
        let c = read_be32(block, off);
        off = off + PTR_SIZE;
        Some(c)
    } else {
        None
    };
    let neighbor = if header.has_neighbor() {
        Some(read_be32(block, off))
    } else {
        None
    };
    proof {
        assert(label@ =~= block_label(block@));
    }
    Ok(Info { label, value, child, neighbor })
}

} // verus!
