//! The fixed-size trailer of a table: section offsets, format identifiers
//! and the magic number, all little-endian.

use vstd::prelude::*;
use crate::le::{u16_le, u32_le, put_u16_le, put_u32_le, get_u16_le, get_u32_le};
use crate::FOOTER_SIZE;

verus! {

/// Section offsets and format identifiers stored at the end of a table.
pub struct Footer {
    pub old_data_offset: u32,
    pub index_offset: u32,
    pub old_index_offset: u32,
    pub properties_offset: u32,
    pub compression_type: u8,
    pub checksum_type: u8,
    pub table_format_version: u16,
    pub magic: u32,
}

/// The byte image of a footer.
pub open spec fn footer_bytes(f: Footer) -> Seq<u8> {
    u32_le(f.old_data_offset) + u32_le(f.index_offset) + u32_le(f.old_index_offset)
        + u32_le(f.properties_offset) + seq![f.compression_type, f.checksum_type]
        + u16_le(f.table_format_version) + u32_le(f.magic)
}

impl Default for Footer {
    /// A footer with every field zero.
    fn default() -> (r: Footer)
        ensures
            r.old_data_offset == 0,
            r.index_offset == 0,
            r.old_index_offset == 0,
            r.properties_offset == 0,
            r.compression_type == 0,
            r.checksum_type == 0,
            r.table_format_version == 0,
            r.magic == 0,
    {
        Footer {
            old_data_offset: 0,
            index_offset: 0,
            old_index_offset: 0,
            properties_offset: 0,
            compression_type: 0,
            checksum_type: 0,
            table_format_version: 0,
            magic: 0,
        }
    }
}

impl Footer {
    /// Length of the data section, read off the offsets.
    pub fn data_len(&self) -> (r: usize)
        ensures
            r == self.old_data_offset,
    {
        self.old_data_offset as usize
    }

    /// Length of the old-versions data section.
    pub fn old_data_len(&self) -> (r: usize)
        requires
            self.old_data_offset <= self.index_offset,
        ensures
            r == self.index_offset - self.old_data_offset,
    {
        (self.index_offset - self.old_data_offset) as usize
    }

    /// Length of the index section.
    pub fn index_len(&self) -> (r: usize)
        requires
            self.index_offset <= self.old_index_offset,
        ensures
            r == self.old_index_offset - self.index_offset,
    {
        (self.old_index_offset - self.index_offset) as usize
    }

    /// Length of the old-versions index section.
    pub fn old_index_len(&self) -> (r: usize)
        requires
            self.old_index_offset <= self.properties_offset,
        ensures
            r == self.properties_offset - self.old_index_offset,
    {
        (self.properties_offset - self.old_index_offset) as usize
    }

    /// Length of the properties section, given the size of the whole table.
    pub fn properties_len(&self, table_size: usize) -> (r: usize)
        requires
            self.properties_offset + FOOTER_SIZE <= table_size,
        ensures
            r == table_size - self.properties_offset - FOOTER_SIZE,
    {
        table_size - self.properties_offset as usize - FOOTER_SIZE
    }

    /// Serializes the footer to its fixed-size byte image.
    pub fn marshal(&self) -> (r: Vec<u8>)
        ensures
            r@ == footer_bytes(*self),
            r@.len() == FOOTER_SIZE,
    {
        let mut buf: Vec<u8> = Vec::new();
        put_u32_le(&mut buf, self.old_data_offset);
        put_u32_le(&mut buf, self.index_offset);
        put_u32_le(&mut buf, self.old_index_offset);
        put_u32_le(&mut buf, self.properties_offset);
        buf.push(self.compression_type);
        buf.push(self.checksum_type);
        put_u16_le(&mut buf, self.table_format_version);
        put_u32_le(&mut buf, self.magic);
        proof {
            assert(buf@ =~= footer_bytes(*self));
        }
        buf
    }

    /// Reads the footer stored at the front of `data`.
    pub fn unmarshal(&mut self, data: &[u8])
        requires
            data@.len() >= FOOTER_SIZE,
        ensures
            footer_bytes(*final(self)) == data@.subrange(0, FOOTER_SIZE as int),
    {
        self.old_data_offset = get_u32_le(data, 0);
        self.index_offset = get_u32_le(data, 4);
        self.old_index_offset = get_u32_le(data, 8);
        self.properties_offset = get_u32_le(data, 12);
        self.compression_type = data[16];
        self.checksum_type = data[17];
        self.table_format_version = get_u16_le(data, 18);
        self.magic = get_u32_le(data, 20);
        proof {
            assert(footer_bytes(*self) =~= data@.subrange(0, FOOTER_SIZE as int));
        }
    }
}

} // verus!
