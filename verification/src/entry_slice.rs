//! An append-only container of byte strings stored back to back, with the
//! running end offset of every entry kept beside the payload bytes.

use vstd::prelude::*;
use crate::value::Value;

verus! {

/// Entry `i` spans `[end_offs[i-1], end_offs[i])` of `buf` (from 0 for the
/// first entry).
pub struct EntrySlice {
    pub buf: Vec<u8>,
    pub end_offs: Vec<u32>,
}

impl EntrySlice {
    /// End offset of the entries before `i`.
    pub open spec fn spec_start(self, i: int) -> int {
        if i == 0 {
            0
        } else {
            self.end_offs@[i - 1] as int
        }
    }

    /// The bytes of entry `i`.
    pub open spec fn spec_entry(self, i: int) -> Seq<u8> {
        self.buf@.subrange(self.spec_start(i), self.end_offs@[i] as int)
    }

    /// The entries as a sequence of byte strings.
    pub open spec fn view(self) -> Seq<Seq<u8>> {
        Seq::new(self.end_offs@.len(), |i: int| self.spec_entry(i))
    }

    /// Offsets are non-decreasing, the last one closes the buffer, and the
    /// buffer stays addressable by `u32` offsets.
    pub open spec fn wf(self) -> bool {
        &&& forall|i: int| 0 <= i < self.end_offs@.len() ==>
                self.spec_start(i) <= #[trigger] self.end_offs@[i] as int
        &&& (self.end_offs@.len() == 0 ==> self.buf@.len() == 0)
        &&& (self.end_offs@.len() > 0 ==>
                self.end_offs@[self.end_offs@.len() - 1] as int == self.buf@.len())
        &&& forall|i: int| 0 <= i < self.end_offs@.len() ==>
                #[trigger] self.end_offs@[i] as int <= self.buf@.len()
    }

    /// A fresh, empty container.
    pub fn new() -> (r: EntrySlice)
        ensures
            r.wf(),
            r@ =~= Seq::<Seq<u8>>::empty(),
            r.buf@.len() == 0,
    {
        EntrySlice { buf: Vec::new(), end_offs: Vec::new() }
    }

    /// Appends one entry holding `data`.
    pub fn append(&mut self, data: &[u8])
        requires
            old(self).wf(),
            old(self).buf@.len() + data@.len() <= u32::MAX,
        ensures
            final(self).wf(),
            final(self)@ == old(self)@.push(data@),
            final(self).buf@ == old(self).buf@ + data@,
            final(self).end_offs@.len() == old(self).end_offs@.len() + 1,
    {
        self.buf.extend_from_slice(data);
        let end = self.buf.len() as u32;
        self.end_offs.push(end);
        proof {
            let new = *self;
            let prev = *old(self);
            assert forall|i: int| 0 <= i < new.end_offs@.len() implies
                new.spec_start(i) <= #[trigger] new.end_offs@[i] as int
                    && new.end_offs@[i] as int <= new.buf@.len() by {
                if i < prev.end_offs@.len() {
                    assert(prev.spec_start(i) <= prev.end_offs@[i] as int);
                }
            }
            assert forall|i: int| 0 <= i < new.end_offs@.len() implies
                #[trigger] new.spec_entry(i) == old(self)@.push(data@)[i] by {
                if i < prev.end_offs@.len() {
                    assert(new.spec_entry(i) =~= prev.spec_entry(i));
                } else {
                    assert(new.spec_entry(i) =~= data@);
                }
            }
            assert(final(self)@ =~= old(self)@.push(data@));
        }
    }

    /// Appends one entry holding the encoding of `val`.
    pub fn append_value(&mut self, val: &Value)
        requires
            old(self).wf(),
            val.wf(),
            old(self).buf@.len() + val.spec_encoded_size() <= u32::MAX,
        ensures
            final(self).wf(),
            final(self)@ == old(self)@.push(val.spec_encode()),
            final(self).buf@ == old(self).buf@ + val.spec_encode(),
            final(self).end_offs@.len() == old(self).end_offs@.len() + 1,
    {
        val.encode_to(&mut self.buf);
        let end = self.buf.len() as u32;
        self.end_offs.push(end);
        proof {
            let new = *self;
            let prev = *old(self);
            let data = val.spec_encode();
            assert forall|i: int| 0 <= i < new.end_offs@.len() implies
                new.spec_start(i) <= #[trigger] new.end_offs@[i] as int
                    && new.end_offs@[i] as int <= new.buf@.len() by {
                if i < prev.end_offs@.len() {
                    assert(prev.spec_start(i) <= prev.end_offs@[i] as int);
                }
            }
            assert forall|i: int| 0 <= i < new.end_offs@.len() implies
                #[trigger] new.spec_entry(i) == old(self)@.push(data)[i] by {
                if i < prev.end_offs@.len() {
                    assert(new.spec_entry(i) =~= prev.spec_entry(i));
                } else {
                    assert(new.spec_entry(i) =~= data);
                }
            }
            assert(final(self)@ =~= old(self)@.push(data));
        }
    }

    /// Number of entries.
    pub fn length(&self) -> (r: usize)
        ensures
            r == self@.len(),
    {
        self.end_offs.len()
    }

    /// The bytes of the last entry.
    pub fn get_last(&self) -> (r: &[u8])
        requires
            self.wf(),
            self@.len() > 0,
        ensures
            r@ == self@[self@.len() - 1],
    {
        self.get_entry(self.end_offs.len() - 1)
    }

    /// The bytes of entry `i`.
    pub fn get_entry(&self, i: usize) -> (r: &[u8])
        requires
            self.wf(),
            i < self@.len(),
        ensures
            r@ == self@[i as int],
    {
        let start_off: usize = if i > 0 {
            self.end_offs[i - 1] as usize
        } else {
            0
        };
        let end_off: usize = self.end_offs[i] as usize;
        vstd::slice::slice_subrange(self.buf.as_slice(), start_off, end_off)
    }

    /// Bytes held plus four bytes of bookkeeping per entry.
    pub fn size(&self) -> (r: usize)
        requires
            self.buf@.len() + self@.len() * 4 <= usize::MAX,
        ensures
            r == self.buf@.len() + self@.len() * 4,
    {
        self.buf.len() + self.end_offs.len() * 4
    }

    /// Empties the container, keeping its capacity.
    pub fn reset(&mut self)
        ensures
            final(self).wf(),
            final(self)@ =~= Seq::<Seq<u8>>::empty(),
            final(self).buf@.len() == 0,
    {
        self.buf.truncate(0);
        self.end_offs.truncate(0);
        proof {
            assert(final(self).buf@ =~= Seq::<u8>::empty());
            assert(final(self).end_offs@ =~= Seq::<u32>::empty());
        }
    }
}

} // verus!
