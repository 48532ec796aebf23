//! The sliding history window: a fixed-capacity circular byte buffer holding
//! the most recently emitted or decoded bytes. It is the sole source of
//! back-reference data.
//!
//! Addressing is by absolute slot index modulo the capacity, not by backward
//! distance from the current position: an offset stored in a token is a raw
//! slot index, valid only while unwrapped by the same modulo arithmetic on
//! both the encode and the decode side. The window is zero-filled at codec
//! start, mutated only by appending bytes, and never cleared; reading a slot
//! that has not been written yet returns the initial zero, which is stale
//! data, not an error.

use vstd::prelude::*;

verus! {

/// Capacity of the circular history window, in bytes.
pub const WINDOW_SIZE: usize = 2048;

/// The window a codec run starts from: every slot zero.
pub open spec fn zero_win() -> Seq<u8> {
    Seq::new(WINDOW_SIZE as nat, |i: int| 0u8)
}

/// One step of the window model: write `b` at the current slot and advance
/// the write position by one, wrapping at the capacity.
pub open spec fn win_add(w: Seq<u8>, p: nat, b: u8) -> (Seq<u8>, nat) {
    (w.update(p as int, b), ((p + 1) % w.len()) as nat)
}

/// Appending a byte sequence is repeated `win_add`, in order. Later bytes of
/// the same call are not visible to earlier ones: the whole sequence is read
/// before any of it lands in the window.
pub open spec fn win_add_seq(w: Seq<u8>, p: nat, bs: Seq<u8>) -> (Seq<u8>, nat)
    decreases bs.len(),
{
    if bs.len() == 0 {
        (w, p)
    } else {
        let stepped = win_add(w, p, bs[0]);
        win_add_seq(stepped.0, stepped.1, bs.skip(1))
    }
}

/// Appending never changes the capacity and keeps the write position below it.
pub proof fn lemma_win_add_seq_wf(w: Seq<u8>, p: nat, bs: Seq<u8>)
    requires
        w.len() >= 1,
        p < w.len(),
    ensures
        win_add_seq(w, p, bs).0.len() == w.len(),
        win_add_seq(w, p, bs).1 < w.len(),
    decreases bs.len(),
{
    if bs.len() > 0 {
        let stepped = win_add(w, p, bs[0]);
        lemma_win_add_seq_wf(stepped.0, stepped.1, bs.skip(1));
    }
}

/// Fixed-capacity circular byte buffer with a wrapping write position.
pub struct Window {
    data: Vec<u8>,
    pos: usize,
}

impl Window {
    /// The bytes currently stored, one per slot.
    pub closed spec fn contents(&self) -> Seq<u8> {
        self.data@
    }

    /// The slot the next appended byte will land in.
    pub closed spec fn wpos(&self) -> nat {
        self.pos as nat
    }

    pub open spec fn wf(&self) -> bool {
        self.contents().len() >= 1 && self.wpos() < self.contents().len()
    }

    /// A zero-filled window of `size` slots.
    pub fn new(size: usize) -> (w: Window)
        requires
            size >= 1,
        ensures
            w.wf(),
            w.contents() == Seq::new(size as nat, |i: int| 0u8),
            w.wpos() == 0,
    {
        let mut data: Vec<u8> = Vec::new();
        let mut i: usize = 0;
        while i < size
            invariant
                i <= size,
                data@.len() == i as nat,
                forall|j: int| 0 <= j < i ==> data@[j] == 0u8,
            decreases size - i,
        {
            data.push(0u8);
            i += 1;
        }
        proof {
            assert(data@ =~= Seq::new(size as nat, |i: int| 0u8));
        }
        Window { data, pos: 0 }
    }

    /// Writes at the current slot and advances the write position. O(1).
    pub fn add_byte(&mut self, byte: u8)
        requires
            old(self).wf(),
        ensures
            final(self).wf(),
            final(self).contents() == win_add(old(self).contents(), old(self).wpos(), byte).0,
            final(self).wpos() == win_add(old(self).contents(), old(self).wpos(), byte).1,
    {
        let n = self.data.len();
        self.data.set(self.pos, byte);
        self.pos = (self.pos + 1) % n;
    }

    /// Appends every byte of `bytes` in order, equivalent to repeated
    /// `add_byte`. Callers that copy from the window into itself must first
    /// materialize the copied bytes into a temporary buffer and append that
    /// buffer: nothing appended here is visible to the reads that produced it.
    pub fn add_bytes(&mut self, bytes: &[u8])
        requires
            old(self).wf(),
        ensures
            final(self).wf(),
            final(self).contents() == win_add_seq(
                old(self).contents(),
                old(self).wpos(),
                bytes@,
            ).0,
            final(self).wpos() == win_add_seq(old(self).contents(), old(self).wpos(), bytes@).1,
    {
        let ghost w0 = self.contents();
        let ghost p0 = self.wpos();
        proof {
            assert(bytes@.skip(0) =~= bytes@);
        }
        let mut i: usize = 0;
        while i < bytes.len()
            invariant
                i <= bytes@.len(),
                self.wf(),
                win_add_seq(w0, p0, bytes@).0 == win_add_seq(
                    self.contents(),
                    self.wpos(),
                    bytes@.skip(i as int),
                ).0,
                win_add_seq(w0, p0, bytes@).1 == win_add_seq(
                    self.contents(),
                    self.wpos(),
                    bytes@.skip(i as int),
                ).1,
            decreases bytes@.len() - i,
        {
            proof {
                assert(bytes@.skip(i as int)[0] == bytes@[i as int]);
                assert(bytes@.skip(i as int).skip(1) =~= bytes@.skip(i as int + 1));
            }
            self.add_byte(bytes[i]);
            i += 1;
        }
        proof {
            assert(bytes@.skip(i as int) =~= Seq::<u8>::empty());
        }
    }

    /// Returns the byte at `slot_index`, wrapped modulo the capacity. Any
    /// index is legal; a slot not written since the start still holds zero.
    pub fn get_byte(&self, slot_index: usize) -> (b: u8)
        requires
            self.wf(),
        ensures
            b == self.contents()[(slot_index as int) % (self.contents().len() as int)],
    {
        let n = self.data.len();
        self.data[slot_index % n]
    }

    /// The window's capacity (the number of slots, not how many were written).
    pub fn len(&self) -> (n: usize)
        ensures
            n == self.contents().len(),
    {
        self.data.len()
    }
}

} // verus!
