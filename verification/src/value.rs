//! The versioned record consumed by the builder, with its byte encoding.
//!
//! A value carries flag bits, a 64-bit version, a short user-meta string and
//! the payload. Its encoding is `meta ‖ user_meta_len ‖ version (LE) ‖
//! user_meta ‖ payload`, ten bytes of header plus the two byte strings.

use vstd::prelude::*;
use crate::le::{u64_le, put_u64_le};

verus! {

/// Number of fixed header bytes in an encoded value.
pub const VALUE_HEADER_SIZE: usize = 10;

/// A versioned record: flag byte, version, user meta and payload.
pub struct Value {
    pub meta: u8,
    pub user_meta: Vec<u8>,
    pub version: u64,
    pub value: Vec<u8>,
}

impl Value {
    /// A value is well formed when its user meta fits the one-byte length
    /// field and the whole encoding fits in memory.
    pub open spec fn wf(self) -> bool {
        &&& self.user_meta@.len() <= 255
        &&& 10 + self.user_meta@.len() + self.value@.len() <= usize::MAX
    }

    /// The number of bytes of the encoding.
    pub open spec fn spec_encoded_size(self) -> int {
        10 + self.user_meta@.len() as int + self.value@.len() as int
    }

    /// The byte image of the value.
    pub open spec fn spec_encode(self) -> Seq<u8> {
        seq![self.meta, self.user_meta@.len() as u8] + u64_le(self.version)
            + self.user_meta@ + self.value@
    }

    /// Builds a value from its parts.
    pub fn new(meta: u8, user_meta: Vec<u8>, version: u64, value: Vec<u8>) -> (r: Value)
        requires
            user_meta@.len() <= 255,
            10 + user_meta@.len() + value@.len() <= usize::MAX,
        ensures
            r.meta == meta,
            r.user_meta == user_meta,
            r.version == version,
            r.value == value,
            r.wf(),
    {
        Value { meta, user_meta, version, value }
    }

    /// Length in bytes of the encoding of this value.
    pub fn encoded_size(&self) -> (r: usize)
        requires
            self.wf(),
        ensures
            r == self.spec_encoded_size(),
    {
        10 + self.user_meta.len() + self.value.len()
    }

    /// Appends the encoding of this value to `buf`.
    pub fn encode_to(&self, buf: &mut Vec<u8>) -> (written: usize)
        requires
            self.wf(),
            old(buf)@.len() + self.spec_encoded_size() <= usize::MAX,
        ensures
            final(buf)@ == old(buf)@ + self.spec_encode(),
            written == self.spec_encoded_size(),
    {
        let ghost start = buf@;
        buf.push(self.meta);
        buf.push(self.user_meta.len() as u8);
        put_u64_le(buf, self.version);
        let mut i: usize = 0;
        while i < self.user_meta.len()
            invariant
                i <= self.user_meta@.len(),
                self.wf(),
                buf@ == start + seq![self.meta, self.user_meta@.len() as u8]
                    + u64_le(self.version) + self.user_meta@.take(i as int),
            decreases self.user_meta@.len() - i,
        {
            buf.push(self.user_meta[i]);
            i += 1;
            proof {
                assert(self.user_meta@.take(i as int)
                    =~= self.user_meta@.take(i - 1).push(self.user_meta@[i - 1]));
            }
        }
        proof {
            assert(self.user_meta@.take(self.user_meta@.len() as int) =~= self.user_meta@);
        }
        let mut j: usize = 0;
        while j < self.value.len()
            invariant
                j <= self.value@.len(),
                self.wf(),
                buf@ == start + seq![self.meta, self.user_meta@.len() as u8]
                    + u64_le(self.version) + self.user_meta@ + self.value@.take(j as int),
            decreases self.value@.len() - j,
        {
            buf.push(self.value[j]);
            j += 1;
            proof {
                assert(self.value@.take(j as int)
                    =~= self.value@.take(j - 1).push(self.value@[j - 1]));
            }
        }
        proof {
            assert(self.value@.take(self.value@.len() as int) =~= self.value@);
            assert(buf@ =~= start + self.spec_encode());
        }
        10 + self.user_meta.len() + self.value.len()
    }

    /// Convenience constructor for an encoded value, as a fresh buffer.
    pub fn encode_buf(meta: u8, user_meta: &[u8], version: u64, value: &[u8]) -> (r: Vec<u8>)
        requires
            user_meta@.len() <= 255,
            10 + user_meta@.len() + value@.len() <= usize::MAX,
        ensures
            r@ == seq![meta, user_meta@.len() as u8] + u64_le(version) + user_meta@ + value@,
    {
        let v = Value {
            meta,
            user_meta: vstd::slice::slice_to_vec(user_meta),
            version,
            value: vstd::slice::slice_to_vec(value),
        };
        let mut buf: Vec<u8> = Vec::new();
        v.encode_to(&mut buf);
        proof {
            assert(buf@ =~= seq![meta, user_meta@.len() as u8] + u64_le(version)
                + user_meta@ + value@);
        }
        buf
    }

    /// Decodes a value from its byte image; `data` past the header and the
    /// user meta is the payload.
    pub fn decode(data: &[u8]) -> (r: Value)
        requires
            valid_encoding(data@),
        ensures
            r.wf(),
            r.spec_encode() == data@,
            r.meta == data@[0],
            u64_le(r.version) == data@.subrange(2, 10),
            r.user_meta@ == data@.subrange(10, 10 + data@[1] as int),
            r.value@ == data@.skip(10 + data@[1] as int),
    {
        let meta = data[0];
        let um_len = data[1] as usize;
        let version = crate::le::get_u64_le(data, 2);
        let um_slice = vstd::slice::slice_subrange(data, 10, 10 + um_len);
        let user_meta = vstd::slice::slice_to_vec(um_slice);
        let val_slice = vstd::slice::slice_subrange(data, 10 + um_len, data.len());
        let value = vstd::slice::slice_to_vec(val_slice);
        let r = Value { meta, user_meta, version, value };
        proof {
            assert(r.spec_encode() =~= data@);
        }
        r
    }

    /// The user-meta bytes.
    pub fn user_meta(&self) -> (r: &Vec<u8>)
        ensures
            r@ == self.user_meta@,
    {
        &self.user_meta
    }

    /// The payload bytes.
    pub fn get_value(&self) -> (r: &Vec<u8>)
        ensures
            r@ == self.value@,
    {
        &self.value
    }
}

/// A byte sequence is a valid value encoding when it holds the ten header
/// bytes and the user meta announced by the length byte.
pub open spec fn valid_encoding(data: Seq<u8>) -> bool {
    &&& data.len() >= 10
    &&& data.len() >= 10 + data[1] as int
}

} // verus!
