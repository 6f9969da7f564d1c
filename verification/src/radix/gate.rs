use vstd::prelude::*;

verus! {

/// Bit recording that the guarded node is removed; terminal once set.
pub const REMOVED_MASK: u8 = 0x80;
/// Reserved discriminator: clear for a single node, set for a bunch.
pub const BUNCH_MASK: u8 = 0x40;
/// Bit recording that the node is open for mutation.
pub const OPEN_MUT_MASK: u8 = 0x20;
/// Low bits holding the bounded reader count.
pub const COUNT_MASK: u8 = 0x1f;
/// Largest reader count the counter field can hold.
pub const MAX_READERS: u8 = 31;

/// Why a gate transition was refused.
#[derive(Clone, Copy, Debug, PartialEq, Eq, Structural)]
pub enum AccessError {
    /// The node is open for mutation.
    OpenAsMut,
    /// The node is open for reading.
    Open,
    /// The reader count is at its cap.
    TooManyReaders,
    /// The node has been removed; no further opens succeed.
    Removed,
}

/// The abstract state of a gate word.
#[derive(Clone, Copy, Debug, PartialEq, Eq, Structural)]
pub enum GateState {
    /// No outstanding access.
    Idle,
    /// Open for reading by the given number of readers (at least one).
    OpenRead(u8),
    /// Open for mutation by a single writer.
    OpenWrite,
    /// Tombstoned; terminal.
    Removed,
}

/// The per-node access gate: one word holding a removed flag, the reserved
/// single-vs-bunch discriminator, an open-as-mutable flag and a bounded
/// reader count.  At most one of `OpenWrite` and `OpenRead(_)` holds at a
/// time, and `Removed` is terminal.
#[derive(Clone, Copy, Debug, PartialEq, Eq, Structural)]
pub struct Gate {
    pub word: u8,
}

impl Gate {
    /// The packed word is consistent: a writer excludes readers, and a
    /// removed node has no outstanding access of either kind.
    pub open spec fn wf(self) -> bool {
        &&& (self.word & OPEN_MUT_MASK == OPEN_MUT_MASK ==> self.word & COUNT_MASK == 0)
        &&& (self.word & REMOVED_MASK == REMOVED_MASK ==> self.word & COUNT_MASK == 0
            && self.word & OPEN_MUT_MASK == 0)
    }

    /// Number of readers currently holding access.
    pub open spec fn spec_readers(self) -> u8 {
        self.word & COUNT_MASK
    }

    /// Whether the removed flag is set.
    pub open spec fn spec_removed(self) -> bool {
        self.word & REMOVED_MASK == REMOVED_MASK
    }

    /// Whether the open-as-mutable flag is set.
    pub open spec fn spec_open_mut(self) -> bool {
        self.word & OPEN_MUT_MASK == OPEN_MUT_MASK
    }

    /// Whether the reserved bunch discriminator is set.
    pub open spec fn spec_bunch(self) -> bool {
        self.word & BUNCH_MASK == BUNCH_MASK
    }

    /// The abstract state the word encodes.
    pub open spec fn state(self) -> GateState {
        if self.spec_removed() {
            GateState::Removed
        } else if self.spec_open_mut() {
            GateState::OpenWrite
        } else if self.spec_readers() > 0 {
            GateState::OpenRead(self.spec_readers())
        } else {
            GateState::Idle
        }
    }

    /// A fresh idle gate guarding a single node.
    pub fn new() -> (r: Gate)
        ensures
            r.wf(),
            r.state() == GateState::Idle,
            !r.spec_bunch(),
    {
        proof {
            assert(0u8 & 0x1fu8 == 0 && 0u8 & 0x80u8 == 0 && 0u8 & 0x20u8 == 0 && 0u8 & 0x40u8
                == 0) by (bit_vector);
        }
        Gate { word: 0 }
    }

    /// Whether this word records a removed node (tombstoned).
    pub fn is_removed(&self) -> (r: bool)
        ensures
            r == self.spec_removed(),
    {
        self.word & REMOVED_MASK == REMOVED_MASK
    }

    /// Whether a bunch rather than a single node is guarded.
    pub fn is_bunch(&self) -> (r: bool)
        ensures
            r == self.spec_bunch(),
    {
        self.word & BUNCH_MASK == BUNCH_MASK
    }

    /// Whether a writer currently holds access.
    pub fn is_open_mut(&self) -> (r: bool)
        ensures
            r == self.spec_open_mut(),
    {
        self.word & OPEN_MUT_MASK == OPEN_MUT_MASK
    }

    /// Whether at least one reader currently holds access.
    pub fn is_open(&self) -> (r: bool)
        ensures
            r == (self.spec_readers() > 0),
    {
        self.word & COUNT_MASK > 0
    }

    /// The current reader count.
    pub fn readers(&self) -> (r: u8)
        ensures
            r == self.spec_readers(),
            r <= MAX_READERS,
    {
        proof {
            let w = self.word;
            assert(w & 0x1fu8 <= 31u8) by (bit_vector);
        }
        self.word & COUNT_MASK
    }

    /// Open-read transition: `Idle -> OpenRead(1)` or
    /// `OpenRead(n) -> OpenRead(n + 1)` while `n < MAX_READERS`; refused on a
    /// removed node, a write-open node, or a full reader count.
    pub fn open_read(&mut self) -> (r: Result<(), AccessError>)
        requires
            old(self).wf(),
        ensures
            final(self).wf(),
            final(self).spec_bunch() == old(self).spec_bunch(),
            r is Ok <==> (old(self).state() == GateState::Idle || (old(self).state()
                matches GateState::OpenRead(n) && n < MAX_READERS)),
            r is Ok ==> final(self).state() == GateState::OpenRead(
                (old(self).spec_readers() + 1) as u8,
            ),
            r is Err ==> *final(self) == *old(self),
            old(self).state() == GateState::Removed ==> r == Err::<(), AccessError>(
                AccessError::Removed,
            ),
            old(self).state() == GateState::OpenWrite ==> r == Err::<(), AccessError>(
                AccessError::OpenAsMut,
            ),
            old(self).state() == GateState::OpenRead(MAX_READERS) ==> r == Err::<(), AccessError>(
                AccessError::TooManyReaders,
            ),
    {
        let w = self.word;
        if w & REMOVED_MASK == REMOVED_MASK {
            Err(AccessError::Removed)
        } else if w & OPEN_MUT_MASK == OPEN_MUT_MASK {
            Err(AccessError::OpenAsMut)
        } else if w & COUNT_MASK == COUNT_MASK {
            Err(AccessError::TooManyReaders)
        } else {
            proof {
                assert(w & 0x80u8 != 0x80u8 && w & 0x20u8 != 0x20u8 && w & 0x1fu8 != 0x1fu8
                    ==> w < 255 && vstd::prelude::add(w, 1) & 0x1fu8 == vstd::prelude::add(
                    w & 0x1fu8, 1) && vstd::prelude::add(w, 1) & 0x80u8 == w & 0x80u8
                    && vstd::prelude::add(w, 1) & 0x20u8 == w & 0x20u8 && vstd::prelude::add(w, 1)
                    & 0x40u8 == w & 0x40u8 && w & 0x1fu8 < 31) by (bit_vector);
            }
            self.word = w + 1;
            Ok(())
        }
    }

    /// Close-read transition: `OpenRead(n) -> OpenRead(n - 1)` or `Idle`;
    /// refused unless the word is currently read-open.
    pub fn close_read(&mut self) -> (r: Result<(), AccessError>)
        requires
            old(self).wf(),
        ensures
            final(self).wf(),
            final(self).spec_bunch() == old(self).spec_bunch(),
            r is Ok <==> old(self).state() matches GateState::OpenRead(_),
            r is Ok ==> final(self).state() == (if old(self).spec_readers() == 1 {
                GateState::Idle
            } else {
                GateState::OpenRead((old(self).spec_readers() - 1) as u8)
            }),
            r is Err ==> *final(self) == *old(self),
    {
        let w = self.word;
        if w & REMOVED_MASK == REMOVED_MASK {
            Err(AccessError::Removed)
        } else if w & OPEN_MUT_MASK == OPEN_MUT_MASK {
            Err(AccessError::OpenAsMut)
        } else if w & COUNT_MASK == 0 {
            Err(AccessError::Open)
        } else {
            proof {
                assert(w & 0x80u8 != 0x80u8 && w & 0x20u8 != 0x20u8 && w & 0x1fu8 != 0 ==> w >= 1
                    && vstd::prelude::sub(w, 1) & 0x1fu8 == vstd::prelude::sub(w & 0x1fu8, 1)
                    && vstd::prelude::sub(w, 1) & 0x80u8 == w & 0x80u8 && vstd::prelude::sub(w, 1)
                    & 0x20u8 == w & 0x20u8 && vstd::prelude::sub(w, 1) & 0x40u8 == w & 0x40u8)
                    by (bit_vector);
            }
            self.word = w - 1;
            Ok(())
        }
    }

    /// Open-write transition: `Idle -> OpenWrite`; refused on a removed,
    /// write-open or read-open node.
    pub fn open_write(&mut self) -> (r: Result<(), AccessError>)
        requires
            old(self).wf(),
        ensures
            final(self).wf(),
            final(self).spec_bunch() == old(self).spec_bunch(),
            r is Ok <==> old(self).state() == GateState::Idle,
            r is Ok ==> final(self).state() == GateState::OpenWrite,
            r is Err ==> *final(self) == *old(self),
            old(self).state() == GateState::Removed ==> r == Err::<(), AccessError>(
                AccessError::Removed,
            ),
            old(self).state() == GateState::OpenWrite ==> r == Err::<(), AccessError>(
                AccessError::OpenAsMut,
            ),
            (old(self).state() matches GateState::OpenRead(_)) ==> r == Err::<(), AccessError>(
                AccessError::Open,
            ),
    {
        let w = self.word;
        if w & REMOVED_MASK == REMOVED_MASK {
            Err(AccessError::Removed)
        } else if w & OPEN_MUT_MASK == OPEN_MUT_MASK {
            Err(AccessError::OpenAsMut)
        } else if w & COUNT_MASK > 0 {
            Err(AccessError::Open)
        } else {
            proof {
                assert((w | 0x20u8) & 0x20u8 == 0x20u8 && (w | 0x20u8) & 0x80u8 == w & 0x80u8 && (w
                    | 0x20u8) & 0x1fu8 == w & 0x1fu8 && (w | 0x20u8) & 0x40u8 == w & 0x40u8)
                    by (bit_vector);
            }
            self.word = w | OPEN_MUT_MASK;
            Ok(())
        }
    }

    /// Close-write transition: `OpenWrite -> Idle`; refused unless the word
    /// is currently write-open.
    pub fn close_write(&mut self) -> (r: Result<(), AccessError>)
        requires
            old(self).wf(),
        ensures
            final(self).wf(),
            final(self).spec_bunch() == old(self).spec_bunch(),
            r is Ok <==> old(self).state() == GateState::OpenWrite,
            r is Ok ==> final(self).state() == GateState::Idle,
            r is Err ==> *final(self) == *old(self),
    {
        let w = self.word;
        if w & OPEN_MUT_MASK == OPEN_MUT_MASK {
            proof {
                assert(w & 0x20u8 == 0x20u8 && w & 0x80u8 != 0x80u8 && w & 0x1fu8 == 0 ==> (w
                    ^ 0x20u8) & 0x20u8 == 0 && (w ^ 0x20u8) & 0x80u8 == w & 0x80u8 && (w ^ 0x20u8)
                    & 0x1fu8 == 0 && (w ^ 0x20u8) & 0x40u8 == w & 0x40u8) by (bit_vector);
            }
            self.word = w ^ OPEN_MUT_MASK;
            Ok(())
        } else {
            Err(AccessError::Open)
        }
    }

    /// Remove transition: `Idle -> Removed`; refused when already removed or
    /// while any access is outstanding, so a busy node reports its state and
    /// the caller retries.
    pub fn remove(&mut self) -> (r: Result<(), AccessError>)
        requires
            old(self).wf(),
        ensures
            final(self).wf(),
            final(self).spec_bunch() == old(self).spec_bunch(),
            r is Ok <==> old(self).state() == GateState::Idle,
            r is Ok ==> final(self).state() == GateState::Removed,
            r is Err ==> *final(self) == *old(self),
            old(self).state() == GateState::Removed ==> r == Err::<(), AccessError>(
                AccessError::Removed,
            ),
            old(self).state() == GateState::OpenWrite ==> r == Err::<(), AccessError>(
                AccessError::OpenAsMut,
            ),
            (old(self).state() matches GateState::OpenRead(_)) ==> r == Err::<(), AccessError>(
                AccessError::Open,
            ),
    {
        let w = self.word;
        if w & REMOVED_MASK == REMOVED_MASK {
            Err(AccessError::Removed)
        } else if w & OPEN_MUT_MASK == OPEN_MUT_MASK {
            Err(AccessError::OpenAsMut)
        } else if w & COUNT_MASK > 0 {
            Err(AccessError::Open)
        } else {
            proof {
                assert(w & 0x20u8 != 0x20u8 && w & 0x1fu8 == 0 ==> (w | 0x80u8) & 0x80u8 == 0x80u8
                    && (w | 0x80u8) & 0x20u8 == 0 && (w | 0x80u8) & 0x1fu8 == 0 && (w | 0x80u8)
                    & 0x40u8 == w & 0x40u8) by (bit_vector);
            }
            self.word = w | REMOVED_MASK;
            Ok(())
        }
    }
}

} // verus!
