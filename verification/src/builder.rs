//! The top-level table builder: routes each incoming record to the current
//! or the old-versions stream, tracks the smallest and biggest keys and the
//! key fingerprints, and emits the finished table.

use vstd::prelude::*;
use crate::block::{
    BlockBuilder, block_emitted, common_prefix_len, index_emitted, keys_sorted, keys_len_sum,
    lex_le, lemma_entry_slice_len_sum, lemma_keys_len_sum_prefix_agree, lemma_lex_le_refl,
    lemma_lex_le_trans,
};
use crate::footer::{Footer, footer_bytes};
use crate::hashes::fingerprint64_of;
use crate::le::{u16_le, u32_le, put_u16_le, put_u32_le, set_u32_le};
use crate::value::Value;
use crate::{CRC32_CASTAGNOLI, FOOTER_SIZE, MAGIC_NUMBER, NO_COMPRESSION, TABLE_FORMAT};

verus! {

/// Tuning knobs for a table build. The block size is a soft bound on a
/// block's staged footprint; the table size is advisory only.
#[derive(Clone, Copy)]
pub struct TableBuilderOptions {
    pub block_size: usize,
    pub max_table_size: usize,
}

impl Default for TableBuilderOptions {
    /// 64 KiB blocks in tables of up to 16 MiB.
    fn default() -> (r: TableBuilderOptions)
        ensures
            r.block_size == 65536,
            r.max_table_size == 16777216,
    {
        TableBuilderOptions { block_size: 65536, max_table_size: 16777216 }
    }
}

/// What a finished build hands back: the file id and the key range.
pub struct BuildResult {
    pub id: u64,
    pub smallest: Vec<u8>,
    pub biggest: Vec<u8>,
}

/// The byte image of one property record: its key and value, each behind
/// its length.
pub open spec fn prop_bytes(key: Seq<u8>, val: Seq<u8>) -> Seq<u8> {
    u16_le(key.len() as u16) + key + u32_le(val.len() as u32) + val
}

/// The name under which the smallest key is stored in the properties.
pub open spec fn smallest_prop_key() -> Seq<u8> {
    seq![115u8, 109u8, 97u8, 108u8, 108u8, 101u8, 115u8, 116u8]
}

/// The name under which the biggest key is stored in the properties.
pub open spec fn biggest_prop_key() -> Seq<u8> {
    seq![98u8, 105u8, 103u8, 103u8, 101u8, 115u8, 116u8]
}

/// The whole properties section: checksum, then the two key-range records.
pub open spec fn props_section(smallest: Seq<u8>, biggest: Seq<u8>, checksum_tp: u8) -> Seq<u8> {
    let body = prop_bytes(smallest_prop_key(), smallest) + prop_bytes(biggest_prop_key(), biggest);
    (if checksum_tp == CRC32_CASTAGNOLI {
        u32_le(crate::hashes::crc32c_of(body))
    } else {
        u32_le(0)
    }) + body
}

/// The property key naming the smallest key, as bytes.
pub fn prop_key_smallest() -> (r: Vec<u8>)
    ensures
        r@ == smallest_prop_key(),
{
    let mut v: Vec<u8> = Vec::new();
    v.push(115);
    v.push(109);
    v.push(97);
    v.push(108);
    v.push(108);
    v.push(101);
    v.push(115);
    v.push(116);
    proof {
        assert(v@ =~= smallest_prop_key());
    }
    v
}

/// The property key naming the biggest key, as bytes.
pub fn prop_key_biggest() -> (r: Vec<u8>)
    ensures
        r@ == biggest_prop_key(),
{
    let mut v: Vec<u8> = Vec::new();
    v.push(98);
    v.push(105);
    v.push(103);
    v.push(103);
    v.push(101);
    v.push(115);
    v.push(116);
    proof {
        assert(v@ =~= biggest_prop_key());
    }
    v
}

/// A block stream's bytes once its pending block is closed.
pub open spec fn flushed_buf(b: BlockBuilder, checksum_tp: u8) -> Seq<u8> {
    if b.block.tmp_keys@.len() > 0 {
        b.buf@ + block_emitted(b.block.tmp_keys@, b.block.tmp_vals@, b.block.old_vers@,
            b.block.entry_sizes@, checksum_tp)
    } else {
        b.buf@
    }
}

/// A block stream's start keys once its pending block is closed.
pub open spec fn flushed_keys(b: BlockBuilder) -> Seq<Seq<u8>> {
    if b.block.tmp_keys@.len() > 0 {
        b.block_keys@.push(b.block.tmp_keys@[0])
    } else {
        b.block_keys@
    }
}

/// A block stream's addresses once its pending block is closed.
pub open spec fn flushed_addrs(b: BlockBuilder, fid: u64) -> Seq<crate::block::BlockAddress> {
    if b.block.tmp_keys@.len() > 0 {
        b.block_addrs@.push(crate::block::BlockAddress {
            origin_fid: fid,
            origin_off: b.buf@.len() as u32,
            curr_off: b.buf@.len() as u32,
        })
    } else {
        b.block_addrs@
    }
}

/// Bytes of start keys once the pending block is closed.
pub open spec fn flushed_kbuf_len(b: BlockBuilder) -> int {
    if b.block.tmp_keys@.len() > 0 {
        b.block_keys.buf@.len() + b.block.tmp_keys@[0].len() as int
    } else {
        b.block_keys.buf@.len() as int
    }
}

/// Number of blocks once the pending block is closed.
pub open spec fn flushed_nblocks(b: BlockBuilder) -> int {
    if b.block.tmp_keys@.len() > 0 {
        b.block_addrs@.len() + 1 as int
    } else {
        b.block_addrs@.len() as int
    }
}

/// A bound on an index section over the flushed stream, filter aside.
pub open spec fn index_bound(b: BlockBuilder) -> int {
    16 + 20 * flushed_nblocks(b) + flushed_kbuf_len(b) + 65536
}

/// A flushed stream's start keys stay sorted and bounded, its key bytes
/// sum to the flushed start key buffer, and starts and addresses stay
/// aligned.
pub proof fn lemma_flushed_stream_facts(b: BlockBuilder, fid: u64)
    requires
        b.wf(),
    ensures
        keys_sorted(flushed_keys(b)),
        flushed_addrs(b, fid).len() == flushed_keys(b).len(),
        flushed_keys(b).len() == flushed_nblocks(b),
        forall|j: int| 0 <= j < flushed_keys(b).len() ==>
            (#[trigger] flushed_keys(b)[j]).len() <= u16::MAX,
        keys_len_sum(flushed_keys(b), flushed_keys(b).len() as int) == flushed_kbuf_len(b),
{
    let kb = b.block_keys@;
    let n = kb.len() as int;
    lemma_entry_slice_len_sum(b.block_keys, n);
    if b.block.tmp_keys@.len() > 0 {
        let first = b.block.tmp_keys@[0];
        let fk = flushed_keys(b);
        lemma_keys_len_sum_prefix_agree(fk, kb, n);
        assert(keys_len_sum(fk, n + 1) == keys_len_sum(fk, n) + first.len());
        assert forall|i: int, j: int| 0 <= i <= j < fk.len() implies
            lex_le(#[trigger] fk[i], #[trigger] fk[j]) by {
            if j < n {
                assert(lex_le(kb[i], kb[j]));
            } else if i < n {
                assert(lex_le(kb[i], kb[n - 1]));
                assert(lex_le(kb[n - 1], first));
                lemma_lex_le_trans(kb[i], kb[n - 1], first);
            } else {
                lemma_lex_le_refl(first);
            }
        }
    }
}

/// Builds one table from a non-decreasing stream of records.
pub struct Builder {
    pub fid: u64,
    pub block_builder: BlockBuilder,
    pub old_builder: BlockBuilder,
    pub block_size: usize,
    pub checksum_tp: u8,
    pub key_hashes: Vec<u64>,
    pub smallest: Vec<u8>,
    pub biggest: Vec<u8>,
}

impl Builder {
    /// Last key of the current stream's open block.
    pub open spec fn spec_last_key(self) -> Seq<u8> {
        self.block_builder.block.tmp_keys@[self.block_builder.block.tmp_keys@.len() - 1]
    }

    /// True once any record has been accepted since the last reset.
    pub open spec fn spec_active(self) -> bool {
        self.block_builder.block.tmp_keys@.len() > 0
    }

    /// Both streams are well formed, nothing precedes the first record, and
    /// every stored key is bounded by the last accepted one.
    pub open spec fn wf(self) -> bool {
        let bb = self.block_builder;
        let ob = self.old_builder;
        &&& bb.wf()
        &&& ob.wf()
        &&& self.checksum_tp == CRC32_CASTAGNOLI
        &&& (bb.block_keys@.len() > 0 || ob.block.tmp_keys@.len() > 0
                || ob.block_keys@.len() > 0 || self.key_hashes@.len() > 0
                || self.smallest@.len() > 0) ==> self.spec_active()
        &&& self.spec_active() ==> {
                &&& ob.block.tmp_keys@.len() > 0 ==> lex_le(
                    ob.block.tmp_keys@[ob.block.tmp_keys@.len() - 1],
                    self.spec_last_key(),
                )
                &&& ob.block_keys@.len() > 0 ==> lex_le(
                    ob.block_keys@[ob.block_keys@.len() - 1],
                    self.spec_last_key(),
                )
            }
        &&& self.smallest@.len() <= u16::MAX
        &&& self.biggest@.len() == 0
    }

    /// A fresh builder for file `fid` with the given options.
    pub fn new(fid: u64, opt: TableBuilderOptions) -> (r: Builder)
        ensures
            r.wf(),
            r.fid == fid,
            r.block_size == opt.block_size,
            r.checksum_tp == CRC32_CASTAGNOLI,
            !r.spec_active(),
            r.key_hashes@.len() == 0,
            r.smallest@.len() == 0,
            r.biggest@.len() == 0,
            r.block_builder.buf@.len() == 0,
            r.old_builder.buf@.len() == 0,
            r.old_builder.block.tmp_keys@.len() == 0,
            r.block_builder.block_keys@.len() == 0,
            r.old_builder.block_keys@.len() == 0,
            r.block_builder.block_addrs@.len() == 0,
            r.old_builder.block_addrs@.len() == 0,
            r.block_builder.block.size == 0,
            r.old_builder.block.size == 0,
    {
        Builder {
            fid,
            block_builder: BlockBuilder::new(),
            old_builder: BlockBuilder::new(),
            block_size: opt.block_size,
            checksum_tp: CRC32_CASTAGNOLI,
            key_hashes: Vec::new(),
            smallest: Vec::new(),
            biggest: Vec::new(),
        }
    }

    /// Empties every buffer, keeping capacity, and adopts a new file id.
    pub fn reset(&mut self, fid: u64)
        ensures
            final(self).wf(),
            final(self).fid == fid,
            final(self).block_size == old(self).block_size,
            final(self).checksum_tp == CRC32_CASTAGNOLI,
            !final(self).spec_active(),
            final(self).key_hashes@.len() == 0,
            final(self).smallest@.len() == 0,
            final(self).biggest@.len() == 0,
            final(self).block_builder.buf@.len() == 0,
            final(self).old_builder.buf@.len() == 0,
            final(self).old_builder.block.tmp_keys@.len() == 0,
            final(self).block_builder.block_keys@.len() == 0,
            final(self).old_builder.block_keys@.len() == 0,
            final(self).block_builder.block_addrs@.len() == 0,
            final(self).old_builder.block_addrs@.len() == 0,
            final(self).block_builder.block.size == 0,
            final(self).old_builder.block.size == 0,
    {
        self.fid = fid;
        self.checksum_tp = CRC32_CASTAGNOLI;
        self.block_builder.reset_all();
        self.old_builder.reset_all();
        self.key_hashes.truncate(0);
        self.smallest.truncate(0);
        self.biggest.truncate(0);
        proof {
            assert(final(self).key_hashes@ =~= Seq::<u64>::empty());
            assert(final(self).smallest@ =~= Seq::<u8>::empty());
            assert(final(self).biggest@ =~= Seq::<u8>::empty());
        }
    }

    /// Appends one property record to `buf`.
    pub fn add_property(buf: &mut Vec<u8>, key: &[u8], val: &[u8])
        requires
            key@.len() <= u16::MAX,
            val@.len() <= u32::MAX,
        ensures
            final(buf)@ == old(buf)@ + prop_bytes(key@, val@),
    {
        put_u16_le(buf, key.len() as u16);
        buf.extend_from_slice(key);
        put_u32_le(buf, val.len() as u32);
        buf.extend_from_slice(val);
        proof {
            assert(buf@ =~= old(buf)@ + prop_bytes(key@, val@));
        }
    }

    /// True until the first record arrives.
    pub fn is_empty(&self) -> (r: bool)
        ensures
            r <==> self.smallest@.len() == 0,
    {
        self.smallest.len() == 0
    }

    /// The smallest key accepted so far.
    pub fn get_smallest(&self) -> (r: &[u8])
        ensures
            r@ == self.smallest@,
    {
        self.smallest.as_slice()
    }

    /// The biggest key of the finished table.
    pub fn get_biggest(&self) -> (r: &[u8])
        ensures
            r@ == self.biggest@,
    {
        self.biggest.as_slice()
    }

    /// True when `key` repeats the last accepted key, so the record belongs
    /// to the old-versions stream.
    pub open spec fn spec_is_dup(self, key: Seq<u8>) -> bool {
        self.spec_active() && self.spec_last_key() == key
    }

    /// Accepts one record. A repeated key routes the record to the
    /// old-versions stream and promotes its version into the current
    /// entry's superseded slot if that slot is free; a new key first closes
    /// any over-full block in either stream, then joins the current block,
    /// its fingerprint recorded and the smallest key pinned on first use.
    pub fn add(&mut self, key: &[u8], val: &Value)
        requires
            old(self).wf(),
            val.wf(),
            key@.len() <= u16::MAX,
            old(self).spec_active() ==> lex_le(old(self).spec_last_key(), key@),
            old(self).spec_is_dup(key@) ==> val.version != 0,
            old(self).block_builder.buf@.len() + 14
                + 4 * old(self).block_builder.block.tmp_keys@.len()
                + 2 * old(self).block_builder.block.spec_sizes_total() <= u32::MAX,
            old(self).old_builder.buf@.len() + 14
                + 4 * old(self).old_builder.block.tmp_keys@.len()
                + 2 * old(self).old_builder.block.spec_sizes_total() <= u32::MAX,
            old(self).block_builder.block.spec_sizes_total() + 2 + key@.len()
                + val.spec_encoded_size() + 8 <= u32::MAX,
            old(self).old_builder.block.spec_sizes_total() + 2 + key@.len()
                + val.spec_encoded_size() + 8 <= u32::MAX,
        ensures
            final(self).wf(),
            final(self).spec_active(),
            final(self).fid == old(self).fid,
            final(self).block_size == old(self).block_size,
            final(self).checksum_tp == old(self).checksum_tp,
            final(self).biggest == old(self).biggest,
            old(self).spec_is_dup(key@) ==> {
                let bb0 = old(self).block_builder;
                let ob0 = old(self).old_builder;
                let n = bb0.block.old_vers@.len();
                &&& final(self).old_builder.block.tmp_keys@ == ob0.block.tmp_keys@.push(key@)
                &&& final(self).old_builder.block.tmp_vals@ == ob0.block.tmp_vals@.push(
                    val.spec_encode())
                &&& final(self).old_builder.block.old_vers@ == ob0.block.old_vers@.push(0)
                &&& final(self).old_builder.block.entry_sizes@ == ob0.block.entry_sizes@.push(
                    (2 + key@.len() + val.spec_encoded_size()) as u32)
                &&& final(self).old_builder.block.size == ob0.block.size + 2 + key@.len()
                    + val.spec_encoded_size()
                &&& final(self).old_builder.buf == ob0.buf
                &&& final(self).old_builder.block_keys == ob0.block_keys
                &&& final(self).old_builder.block_addrs == ob0.block_addrs
                &&& final(self).block_builder.buf == bb0.buf
                &&& final(self).block_builder.block.tmp_keys@ == bb0.block.tmp_keys@
                &&& final(self).block_builder.block.tmp_vals@ == bb0.block.tmp_vals@
                &&& final(self).block_builder.block.size == bb0.block.size
                &&& final(self).block_builder.block_keys == bb0.block_keys
                &&& final(self).block_builder.block_addrs == bb0.block_addrs
                &&& (if bb0.block.old_vers@[n - 1] == 0 {
                    final(self).block_builder.block.old_vers@ == bb0.block.old_vers@.update(
                        n - 1,
                        val.version,
                    )
                } else {
                    final(self).block_builder.block.old_vers@ == bb0.block.old_vers@
                })
                &&& final(self).key_hashes == old(self).key_hashes
                &&& final(self).smallest == old(self).smallest
            },
            !old(self).spec_is_dup(key@) ==> {
                let bb0 = old(self).block_builder;
                let ob0 = old(self).old_builder;
                let bbcut = bb0.block.size > old(self).block_size;
                let obcut = ob0.block.size > old(self).block_size;
                &&& final(self).block_builder.buf@ == bb0.buf@ + (if bbcut {
                    block_emitted(bb0.block.tmp_keys@, bb0.block.tmp_vals@,
                        bb0.block.old_vers@, bb0.block.entry_sizes@, old(self).checksum_tp)
                } else {
                    Seq::<u8>::empty()
                })
                &&& final(self).block_builder.block_keys@ == (if bbcut {
                    bb0.block_keys@.push(bb0.block.tmp_keys@[0])
                } else {
                    bb0.block_keys@
                })
                &&& final(self).block_builder.block.tmp_keys@ == (if bbcut {
                    seq![key@]
                } else {
                    bb0.block.tmp_keys@.push(key@)
                })
                &&& final(self).block_builder.block.tmp_vals@ == (if bbcut {
                    seq![val.spec_encode()]
                } else {
                    bb0.block.tmp_vals@.push(val.spec_encode())
                })
                &&& final(self).block_builder.block.old_vers@ == (if bbcut {
                    seq![0u64]
                } else {
                    bb0.block.old_vers@.push(0)
                })
                &&& final(self).old_builder.buf@ == ob0.buf@ + (if obcut {
                    block_emitted(ob0.block.tmp_keys@, ob0.block.tmp_vals@,
                        ob0.block.old_vers@, ob0.block.entry_sizes@, old(self).checksum_tp)
                } else {
                    Seq::<u8>::empty()
                })
                &&& final(self).old_builder.block.tmp_keys@ == (if obcut {
                    Seq::<Seq<u8>>::empty()
                } else {
                    ob0.block.tmp_keys@
                })
                &&& final(self).block_builder.block.entry_sizes@ == (if bbcut {
                    seq![(2 + key@.len() + val.spec_encoded_size()) as u32]
                } else {
                    bb0.block.entry_sizes@.push(
                        (2 + key@.len() + val.spec_encoded_size()) as u32)
                })
                &&& final(self).block_builder.block.size == (if bbcut {
                    0int
                } else {
                    bb0.block.size as int
                }) + 2 + key@.len() + val.spec_encoded_size()
                &&& final(self).block_builder.block_addrs@ == (if bbcut {
                    bb0.block_addrs@.push(crate::block::BlockAddress {
                        origin_fid: old(self).fid,
                        origin_off: bb0.buf@.len() as u32,
                        curr_off: bb0.buf@.len() as u32,
                    })
                } else {
                    bb0.block_addrs@
                })
                &&& final(self).block_builder.block_keys.buf@ == (if bbcut {
                    bb0.block_keys.buf@ + bb0.block.tmp_keys@[0]
                } else {
                    bb0.block_keys.buf@
                })
                &&& final(self).old_builder.block_keys@ == (if obcut {
                    ob0.block_keys@.push(ob0.block.tmp_keys@[0])
                } else {
                    ob0.block_keys@
                })
                &&& final(self).old_builder.block_keys.buf@ == (if obcut {
                    ob0.block_keys.buf@ + ob0.block.tmp_keys@[0]
                } else {
                    ob0.block_keys.buf@
                })
                &&& final(self).old_builder.block_addrs@ == (if obcut {
                    ob0.block_addrs@.push(crate::block::BlockAddress {
                        origin_fid: old(self).fid,
                        origin_off: ob0.buf@.len() as u32,
                        curr_off: ob0.buf@.len() as u32,
                    })
                } else {
                    ob0.block_addrs@
                })
                &&& final(self).old_builder.block.tmp_vals@ == (if obcut {
                    Seq::<Seq<u8>>::empty()
                } else {
                    ob0.block.tmp_vals@
                })
                &&& final(self).old_builder.block.old_vers@ == (if obcut {
                    Seq::<u64>::empty()
                } else {
                    ob0.block.old_vers@
                })
                &&& final(self).old_builder.block.entry_sizes@ == (if obcut {
                    Seq::<u32>::empty()
                } else {
                    ob0.block.entry_sizes@
                })
                &&& final(self).old_builder.block.size == (if obcut {
                    0int
                } else {
                    ob0.block.size as int
                })
                &&& final(self).key_hashes@ == old(self).key_hashes@.push(
                    fingerprint64_of(key@))
                &&& final(self).smallest@ == (if old(self).smallest@.len() == 0 {
                    key@
                } else {
                    old(self).smallest@
                })
            },
    {
        if self.block_builder.same_last_key(key) {
            self.block_builder.set_last_entry_old_ver_if_zero(val.version);
            proof {
                if self.old_builder.block.tmp_keys@.len() > 0 {
                    assert(lex_le(
                        self.old_builder.block.tmp_keys@[
                            self.old_builder.block.tmp_keys@.len() - 1],
                        key@,
                    ));
                }
                if self.old_builder.block.tmp_keys@.len() == 0
                    && self.old_builder.block_keys@.len() > 0 {
                    assert(lex_le(
                        self.old_builder.block_keys@[self.old_builder.block_keys@.len() - 1],
                        key@,
                    ));
                }
            }
            self.old_builder.add_entry(key, val);
            proof {
                lemma_lex_le_refl(key@);
            }
        } else {
            if self.block_builder.block.size > self.block_size {
                self.block_builder.finish_block(self.fid, self.checksum_tp);
            }
            if self.old_builder.block.size > self.block_size {
                self.old_builder.finish_block(self.fid, self.checksum_tp);
            }
            proof {
                let bb = self.block_builder;
                if bb.block.tmp_keys@.len() == 0 && bb.block_keys@.len() > 0 {
                    let kb = bb.block_keys@;
                    let prev = old(self).block_builder.block.tmp_keys@;
                    assert(lex_le(kb[kb.len() - 1], prev[prev.len() - 1]));
                    lemma_lex_le_trans(kb[kb.len() - 1], prev[prev.len() - 1], key@);
                }
            }
            self.block_builder.add_entry(key, val);
            let h = farmhash::fingerprint64(key);
            self.key_hashes.push(h);
            if self.smallest.len() == 0 {
                self.smallest.extend_from_slice(key);
            }
            proof {
                let ob = self.old_builder;
                if ob.block.tmp_keys@.len() > 0 {
                    let olast = ob.block.tmp_keys@[ob.block.tmp_keys@.len() - 1];
                    if old(self).spec_active() {
                        assert(lex_le(olast, old(self).spec_last_key()));
                        lemma_lex_le_trans(olast, old(self).spec_last_key(), key@);
                    }
                }
                if ob.block_keys@.len() > 0 {
                    let oklast = ob.block_keys@[ob.block_keys@.len() - 1];
                    let obcut = old(self).old_builder.block.size > old(self).block_size;
                    if obcut {
                        let otmp = old(self).old_builder.block.tmp_keys@;
                        if oklast == otmp[0] && old(self).spec_active() {
                            assert(lex_le(otmp[0], otmp[otmp.len() - 1]));
                            lemma_lex_le_trans(otmp[0], otmp[otmp.len() - 1],
                                old(self).spec_last_key());
                            lemma_lex_le_trans(oklast, old(self).spec_last_key(), key@);
                        } else if old(self).spec_active() {
                            assert(lex_le(oklast, old(self).spec_last_key()));
                            lemma_lex_le_trans(oklast, old(self).spec_last_key(), key@);
                        }
                    } else {
                        assert(lex_le(oklast, old(self).spec_last_key()));
                        lemma_lex_le_trans(oklast, old(self).spec_last_key(), key@);
                    }
                }
                if old(self).old_builder.block.size > old(self).block_size {
                    assert(self.old_builder.block.tmp_vals@ =~= Seq::<Seq<u8>>::empty());
                    assert(self.old_builder.block.old_vers@ =~= Seq::<u64>::empty());
                    assert(self.old_builder.block.entry_sizes@ =~= Seq::<u32>::empty());
                }
                if old(self).block_builder.block.size > old(self).block_size {
                    assert(self.block_builder.block.entry_sizes@
                        =~= seq![(2 + key@.len() + val.spec_encoded_size()) as u32]);
                }
            }
        }
    }

    /// Everything `finish` needs: a well-formed, non-empty builder whose
    /// flushed sections and indexes fit the 32-bit offset space.
    pub open spec fn finish_ready(self, base_off: u32) -> bool {
        let bb = self.block_builder;
        let ob = self.old_builder;
        let d = flushed_buf(bb, self.checksum_tp).len() as int;
        let od = flushed_buf(ob, self.checksum_tp).len() as int;
        &&& self.wf()
        &&& self.spec_active()
        &&& bb.buf@.len() + 14 + 4 * bb.block.tmp_keys@.len()
                + 2 * bb.block.spec_sizes_total() <= u32::MAX
        &&& ob.buf@.len() + 14 + 4 * ob.block.tmp_keys@.len()
                + 2 * ob.block.spec_sizes_total() <= u32::MAX
        &&& base_off + d + od <= u32::MAX
        &&& d + od + index_bound(ob) + index_bound(bb) <= u32::MAX
    }

    /// The index section that `finish` emits over the current stream.
    pub open spec fn table_index(self, base_off: u32) -> Seq<u8> {
        let ct = self.checksum_tp;
        let d = flushed_buf(self.block_builder, ct);
        let od = flushed_buf(self.old_builder, ct);
        let b1 = u32::MAX - d.len() - od.len() - index_bound(self.old_builder);
        index_emitted(flushed_keys(self.block_builder),
            flushed_addrs(self.block_builder, self.fid), base_off, ct, self.key_hashes@, b1)
    }

    /// The index section that `finish` emits over the old-versions stream.
    pub open spec fn table_old_index(self, base_off: u32) -> Seq<u8> {
        let ct = self.checksum_tp;
        let d = flushed_buf(self.block_builder, ct);
        index_emitted(flushed_keys(self.old_builder),
            flushed_addrs(self.old_builder, self.fid), (base_off + d.len()) as u32, ct,
            Seq::<u64>::empty(), index_bound(self.old_builder))
    }

    /// The footer that `finish` emits: each offset is the byte count of the
    /// sections before it.
    pub open spec fn table_footer(self, base_off: u32) -> Footer {
        let ct = self.checksum_tp;
        let d = flushed_buf(self.block_builder, ct);
        let od = flushed_buf(self.old_builder, ct);
        let ix = self.table_index(base_off);
        let oix = self.table_old_index(base_off);
        Footer {
            old_data_offset: d.len() as u32,
            index_offset: (d.len() + od.len()) as u32,
            old_index_offset: (d.len() + od.len() + ix.len()) as u32,
            properties_offset: (d.len() + od.len() + ix.len() + oix.len()) as u32,
            compression_type: NO_COMPRESSION,
            checksum_type: ct,
            table_format_version: TABLE_FORMAT,
            magic: MAGIC_NUMBER,
        }
    }

    /// The byte image that `finish` appends for this builder state: data,
    /// old-versions data, both indexes, properties and footer.
    pub open spec fn table_suffix(self, base_off: u32) -> Seq<u8> {
        let ct = self.checksum_tp;
        let d = flushed_buf(self.block_builder, ct);
        let od = flushed_buf(self.old_builder, ct);
        let ix = self.table_index(base_off);
        let oix = self.table_old_index(base_off);
        let props = props_section(self.smallest@, self.spec_last_key(), ct);
        let ftr = footer_bytes(self.table_footer(base_off));
        d + od + ix + oix + props + ftr
    }

    /// The table layout law: in the appended image, the footer's fields
    /// carry the frozen constants, its offsets are the cumulative section
    /// sizes in order — so every derived section length is non-negative —
    /// and the sections plus the footer exactly tile the image, whose last
    /// bytes are the footer itself.
    pub proof fn lemma_table_layout(self, base_off: u32)
        requires
            self.finish_ready(base_off),
        ensures
            ({
                let t = self.table_suffix(base_off);
                let f = self.table_footer(base_off);
                let ct = self.checksum_tp;
                let d = flushed_buf(self.block_builder, ct);
                let od = flushed_buf(self.old_builder, ct);
                let ix = self.table_index(base_off);
                let oix = self.table_old_index(base_off);
                let props = props_section(self.smallest@, self.spec_last_key(), ct);
                &&& f.magic == MAGIC_NUMBER
                &&& f.table_format_version == TABLE_FORMAT
                &&& f.compression_type == NO_COMPRESSION
                &&& f.checksum_type == CRC32_CASTAGNOLI
                &&& f.old_data_offset == d.len()
                &&& f.index_offset == d.len() + od.len()
                &&& f.old_index_offset == d.len() + od.len() + ix.len()
                &&& f.properties_offset == d.len() + od.len() + ix.len() + oix.len()
                &&& f.old_data_offset <= f.index_offset <= f.old_index_offset
                    <= f.properties_offset
                &&& t.len() == f.properties_offset + props.len() + FOOTER_SIZE
                &&& t.subrange(t.len() - FOOTER_SIZE, t.len() as int) == footer_bytes(f)
            }),
    {
        let ct = self.checksum_tp;
        let bb = self.block_builder;
        let ob = self.old_builder;
        let d = flushed_buf(bb, ct);
        let od = flushed_buf(ob, ct);
        let e2 = index_bound(ob);
        let b1 = u32::MAX - d.len() - od.len() - e2;
        lemma_flushed_stream_facts(bb, self.fid);
        lemma_flushed_stream_facts(ob, self.fid);
        crate::block::lemma_index_emitted_len_bound(flushed_keys(bb),
            flushed_addrs(bb, self.fid), base_off, ct, self.key_hashes@, b1);
        crate::block::lemma_index_emitted_len_bound(flushed_keys(ob),
            flushed_addrs(ob, self.fid), (base_off + d.len()) as u32, ct,
            Seq::<u64>::empty(), e2);
        let t = self.table_suffix(base_off);
        let f = self.table_footer(base_off);
        assert(t.subrange(t.len() - FOOTER_SIZE, t.len() as int) =~= footer_bytes(f));
    }

    /// Appends the properties section for this builder's key range.
    pub fn build_properties(&self, buf: &mut Vec<u8>)
        requires
            self.smallest@.len() <= u16::MAX,
            self.biggest@.len() <= u16::MAX,
        ensures
            final(buf)@ == old(buf)@ + props_section(self.smallest@, self.biggest@,
                self.checksum_tp),
    {
        let origin_len = buf.len();
        put_u32_le(buf, 0);
        let sk = prop_key_smallest();
        Builder::add_property(buf, sk.as_slice(), self.smallest.as_slice());
        let bk = prop_key_biggest();
        Builder::add_property(buf, bk.as_slice(), self.biggest.as_slice());
        let ghost body = prop_bytes(smallest_prop_key(), self.smallest@)
            + prop_bytes(biggest_prop_key(), self.biggest@);
        proof {
            assert(buf@ =~= old(buf)@ + u32_le(0) + body);
            assert(buf@.subrange(origin_len + 4, buf@.len() as int) =~= body);
        }
        if self.checksum_tp == CRC32_CASTAGNOLI {
            let end = buf.len();
            let payload = vstd::slice::slice_subrange(buf.as_slice(), origin_len + 4, end);
            let checksum = crc32c::crc32c(payload);
            set_u32_le(buf, origin_len, checksum);
            proof {
                assert(buf@ =~= old(buf)@ + props_section(self.smallest@, self.biggest@,
                    self.checksum_tp));
            }
        }
    }

    /// Closes both streams and appends the whole table: data, old-versions
    /// data, both indexes, the properties and the footer. Returns the file
    /// id and the key range of the finished table.
    #[verifier::rlimit(100)]
    pub fn finish(&mut self, base_off: u32, data_buf: &mut Vec<u8>) -> (r: BuildResult)
        requires
            old(self).finish_ready(base_off),
        ensures
            final(data_buf)@ == old(data_buf)@ + old(self).table_suffix(base_off),
            r.id == old(self).fid,
            r.smallest@ == old(self).smallest@,
            r.biggest@ == old(self).spec_last_key(),
    {
        let ghost start = data_buf@;
        let ghost ct = self.checksum_tp;
        let ghost dspec = flushed_buf(old(self).block_builder, ct);
        let ghost odspec = flushed_buf(old(self).old_builder, ct);
        let ghost e2spec = index_bound(old(self).old_builder);
        let last_key = self.block_builder.block.tmp_keys.get_last();
        self.biggest.extend_from_slice(last_key);
        proof {
            assert(self.biggest@ =~= old(self).spec_last_key());
        }
        self.block_builder.finish_block(self.fid, self.checksum_tp);
        if self.old_builder.block.size > 0 {
            self.old_builder.finish_block(self.fid, self.checksum_tp);
        }
        proof {
            assert(self.block_builder.buf@ == dspec);
            assert(self.old_builder.buf@ == odspec);
            assert(self.block_builder.block_keys@.len() > 0);
            assert(self.block_builder.block_keys@ == flushed_keys(old(self).block_builder));
            assert(self.block_builder.block_addrs@
                == flushed_addrs(old(self).block_builder, old(self).fid));
            assert(self.old_builder.block_keys@ == flushed_keys(old(self).old_builder));
            assert(self.old_builder.block_addrs@
                == flushed_addrs(old(self).old_builder, old(self).fid));
            assert(self.block_builder.block_keys.buf@.len()
                == flushed_kbuf_len(old(self).block_builder));
            assert(self.old_builder.block_keys.buf@.len()
                == flushed_kbuf_len(old(self).old_builder));
            assert(self.block_builder.block_addrs@.len()
                == flushed_nblocks(old(self).block_builder));
            assert(self.old_builder.block_addrs@.len()
                == flushed_nblocks(old(self).old_builder));
        }
        data_buf.extend_from_slice(self.block_builder.buf.as_slice());
        let data_section_size = self.block_builder.buf.len() as u32;
        data_buf.extend_from_slice(self.old_builder.buf.as_slice());
        let old_data_section_size = self.old_builder.buf.len() as u32;
        let e2: u64 = 16 + 20 * (self.old_builder.block_addrs.len() as u64)
            + (self.old_builder.block_keys.buf.len() as u64) + 65536;
        proof {
            assert(e2 == e2spec);
            assert(dspec.len() + odspec.len() + e2spec + index_bound(old(self).block_builder)
                <= u32::MAX);
        }
        let b1: u32 = ((u32::MAX as u64) - (data_section_size as u64)
            - (old_data_section_size as u64) - e2) as u32;
        self.block_builder.build_index(base_off, self.checksum_tp, &self.key_hashes, b1);
        data_buf.extend_from_slice(self.block_builder.buf.as_slice());
        let index_section_size = self.block_builder.buf.len() as u32;
        let no_hashes: Vec<u64> = Vec::new();
        self.old_builder.build_index(
            base_off + data_section_size,
            self.checksum_tp,
            &no_hashes,
            e2 as u32,
        );
        data_buf.extend_from_slice(self.old_builder.buf.as_slice());
        let old_index_section_size = self.old_builder.buf.len() as u32;
        self.build_properties(data_buf);
        let mut footer = Footer::default();
        footer.old_data_offset = data_section_size;
        footer.index_offset = footer.old_data_offset + old_data_section_size;
        footer.old_index_offset = footer.index_offset + index_section_size;
        footer.properties_offset = footer.old_index_offset + old_index_section_size;
        footer.compression_type = NO_COMPRESSION;
        footer.checksum_type = self.checksum_tp;
        footer.table_format_version = TABLE_FORMAT;
        footer.magic = MAGIC_NUMBER;
        let footer_buf = footer.marshal();
        data_buf.extend_from_slice(footer_buf.as_slice());
        proof {
            assert(data_buf@ =~= start + old(self).table_suffix(base_off));
        }
        BuildResult {
            id: self.fid,
            smallest: vstd::slice::slice_to_vec(self.smallest.as_slice()),
            biggest: vstd::slice::slice_to_vec(self.biggest.as_slice()),
        }
    }

    /// Bytes emitted and staged so far, inflated a little to pre-reserve
    /// output capacity.
    pub fn estimated_size(&self) -> (r: usize)
        requires
            self.block_builder.buf@.len() + self.old_builder.buf@.len()
                + self.block_builder.block.size + self.old_builder.block.size <= usize::MAX,
            (self.block_builder.buf@.len() + self.old_builder.buf@.len()
                + self.block_builder.block.size + self.old_builder.block.size) as int * 33 / 32
                <= usize::MAX,
        ensures
            ({
                let base = self.block_builder.buf@.len() + self.old_builder.buf@.len()
                    + self.block_builder.block.size + self.old_builder.block.size;
                r == base + base as int / 32
            }),
    {
        let mut size = self.block_builder.buf.len() + self.old_builder.buf.len()
            + self.block_builder.block.size + self.old_builder.block.size;
        proof {
            let base = self.block_builder.buf@.len() + self.old_builder.buf@.len()
                + self.block_builder.block.size + self.old_builder.block.size;
            assert(base + base as int / 32 <= base as int * 33 / 32);
        }
        size += size / 32;
        size
    }
}

} // verus!
