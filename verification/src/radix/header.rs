use vstd::prelude::*;

verus! {

/// Number of flag bits packed into the high end of the header byte.
pub const FLAGS_BITS: u8 = 3;
/// Shift that moves the flag bits above the label-length field.
pub const FLAGS_SHIFT: u8 = 5;
/// Largest label length the header's length field can represent.
pub const MAX_LABEL_LEN: u8 = 31;
/// Mask of the label-length field.
pub const LABEL_LEN_MASK: u8 = 0x1f;
/// Bit recording that the node carries an inline value region.
pub const VALUE_MASK: u8 = 0x20;
/// Bit recording that the node points at a first child.
pub const CHILD_MASK: u8 = 0x40;
/// Bit recording that the node points at a next sibling.
pub const NEIGHBOR_MASK: u8 = 0x80;

/// The fixed-width header of a node block: three flag bits (value, child,
/// neighbor) above a five-bit label length.  A region whose flag is unset is
/// entirely absent from the block, so the header alone determines the block's
/// exact size.
#[derive(Clone, Copy, PartialEq, Eq, Structural, Debug)]
pub struct Header {
    pub inner: u8,
}

impl Header {
    /// The label length recorded in the low five bits.
    pub open spec fn spec_label_len(self) -> u8 {
        self.inner & LABEL_LEN_MASK
    }

    /// Whether the block carries an inline value region.
    pub open spec fn spec_has_value(self) -> bool {
        self.inner & VALUE_MASK == VALUE_MASK
    }

    /// Whether the block carries a first-child pointer region.
    pub open spec fn spec_has_child(self) -> bool {
        self.inner & CHILD_MASK == CHILD_MASK
    }

    /// Whether the block carries a next-sibling pointer region.
    pub open spec fn spec_has_neighbor(self) -> bool {
        self.inner & NEIGHBOR_MASK == NEIGHBOR_MASK
    }

    /// The raw header byte.
    pub open spec fn spec_bits(self) -> u8 {
        self.inner
    }

    /// Exact size in bytes of a block with this header: one header byte, the
    /// label, and each optional region only when its flag is set.
    pub open spec fn spec_node_size(self, value_size: int, ptr_size: int) -> int {
        1 + self.spec_label_len() + (if self.spec_has_value() { value_size } else { 0 })
            + (if self.spec_has_child() { ptr_size } else { 0 })
            + (if self.spec_has_neighbor() { ptr_size } else { 0 })
    }

    /// Packs the three presence flags and the label length into one byte.
    pub fn new(has_value: bool, has_child: bool, has_neighbor: bool, label_len: u8) -> (r: Header)
        requires
            label_len <= MAX_LABEL_LEN,
        ensures
            r.spec_label_len() == label_len,
            r.spec_has_value() == has_value,
            r.spec_has_child() == has_child,
            r.spec_has_neighbor() == has_neighbor,
    {
        let v: u8 = if has_value { VALUE_MASK } else { 0 };
        let c: u8 = if has_child { CHILD_MASK } else { 0 };
        let n: u8 = if has_neighbor { NEIGHBOR_MASK } else { 0 };
        let inner: u8 = v | c | n | label_len;
        proof {
            let l = label_len;
            assert((v | c | n | l) & LABEL_LEN_MASK == l && ((v | c | n | l) & VALUE_MASK
                == VALUE_MASK <==> v == VALUE_MASK) && ((v | c | n | l) & CHILD_MASK == CHILD_MASK
                <==> c == CHILD_MASK) && ((v | c | n | l) & NEIGHBOR_MASK == NEIGHBOR_MASK <==> n
                == NEIGHBOR_MASK)) by (bit_vector)
                requires
                    l <= 31u8,
                    v == 0x20u8 || v == 0u8,
                    c == 0x40u8 || c == 0u8,
                    n == 0x80u8 || n == 0u8,
            ;
        }
        Header { inner }
    }

    /// Reads a header back from its raw byte.
    pub fn from_bits(bits: u8) -> (r: Header)
        ensures
            r.spec_bits() == bits,
    {
        Header { inner: bits }
    }

    /// The raw header byte, as written at the front of a block.
    pub fn bits(&self) -> (r: u8)
        ensures
            r == self.spec_bits(),
    {
        self.inner
    }

    /// The three flag bits, shifted down to the low end.
    pub fn flags(&self) -> (r: u8)
        ensures
            r == self.spec_bits() >> FLAGS_SHIFT,
    {
        self.inner >> FLAGS_SHIFT
    }

    /// The label length stored in the header.
    pub fn label_len(&self) -> (r: u8)
        ensures
            r == self.spec_label_len(),
            r <= MAX_LABEL_LEN,
    {
        proof {
            let b = self.inner;
            assert(b & 0x1fu8 <= 31u8) by (bit_vector);
        }
        self.inner & LABEL_LEN_MASK
    }

    /// Whether the value region is present.
    pub fn has_value(&self) -> (r: bool)
        ensures
            r == self.spec_has_value(),
    {
        self.inner & VALUE_MASK == VALUE_MASK
    }

    /// Whether the first-child region is present.
    pub fn has_child(&self) -> (r: bool)
        ensures
            r == self.spec_has_child(),
    {
        self.inner & CHILD_MASK == CHILD_MASK
    }

    /// Whether the next-sibling region is present.
    pub fn has_neighbor(&self) -> (r: bool)
        ensures
            r == self.spec_has_neighbor(),
    {
        self.inner & NEIGHBOR_MASK == NEIGHBOR_MASK
    }

    /// Exact number of bytes a block with this header occupies, given the
    /// byte widths of a value region and of a pointer region.
    pub fn calc_node_size(&self, value_size: usize, ptr_size: usize) -> (r: usize)
        requires
            value_size + 2 * ptr_size + 32 <= usize::MAX,
        ensures
            r == self.spec_node_size(value_size as int, ptr_size as int),
    {
        let mut size: usize = 1 + self.label_len() as usize;
        if self.has_value() {
            size = size + value_size;
        }
        if self.has_child() {
            size = size + ptr_size;
        }
        if self.has_neighbor() {
            size = size + ptr_size;
        }
        size
    }
}

} // verus!
