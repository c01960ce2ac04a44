//! Staging and emission of the framed blocks that make up a table: the open
//! block buffer, the finished-block stream, and the index over it.

use vstd::prelude::*;
use crate::entry_slice::EntrySlice;
use crate::hashes::{crc32c_of, filter_section_of};
use crate::le::{u16_le, u32_le, u64_le, put_u16_le, put_u32_le, put_u64_le, set_u32_le};
use crate::value::{Value, valid_encoding};
use crate::{CRC32_CASTAGNOLI, EXTRA_END, EXTRA_FILTER, EXTRA_FILTER_TYPE_BINARY_FUSE_8,
    META_HAS_OLD};

verus! {

/// Byte-wise lexicographic order on byte strings.
pub open spec fn lex_le(a: Seq<u8>, b: Seq<u8>) -> bool
    decreases a.len(),
{
    if a.len() == 0 {
        true
    } else if b.len() == 0 {
        false
    } else if a[0] < b[0] {
        true
    } else if a[0] > b[0] {
        false
    } else {
        lex_le(a.skip(1), b.skip(1))
    }
}

/// Length of the longest common prefix of two byte strings.
pub open spec fn common_prefix_len(a: Seq<u8>, b: Seq<u8>) -> int
    decreases a.len(),
{
    if a.len() == 0 || b.len() == 0 || a[0] != b[0] {
        0
    } else {
        1 + common_prefix_len(a.skip(1), b.skip(1))
    }
}

/// The common prefix is a prefix of both strings and is maximal.
pub proof fn lemma_common_prefix_basic(a: Seq<u8>, b: Seq<u8>)
    ensures
        0 <= common_prefix_len(a, b),
        common_prefix_len(a, b) <= a.len(),
        common_prefix_len(a, b) <= b.len(),
        a.take(common_prefix_len(a, b)) == b.take(common_prefix_len(a, b)),
    decreases a.len(),
{
    let p = common_prefix_len(a, b);
    if a.len() == 0 || b.len() == 0 || a[0] != b[0] {
        assert(a.take(0) =~= b.take(0));
    } else {
        lemma_common_prefix_basic(a.skip(1), b.skip(1));
        let q = common_prefix_len(a.skip(1), b.skip(1));
        assert(a.take(p) =~= seq![a[0]] + a.skip(1).take(q));
        assert(b.take(p) =~= seq![b[0]] + b.skip(1).take(q));
    }
}

/// `lex_le` is reflexive.
pub proof fn lemma_lex_le_refl(a: Seq<u8>)
    ensures
        lex_le(a, a),
    decreases a.len(),
{
    if a.len() > 0 {
        lemma_lex_le_refl(a.skip(1));
    }
}

/// `lex_le` is transitive.
pub proof fn lemma_lex_le_trans(a: Seq<u8>, b: Seq<u8>, c: Seq<u8>)
    requires
        lex_le(a, b),
        lex_le(b, c),
    ensures
        lex_le(a, c),
    decreases a.len(),
{
    if a.len() == 0 {
    } else if b.len() == 0 {
    } else if c.len() == 0 {
    } else {
        if a[0] == b[0] && b[0] == c[0] {
            lemma_lex_le_trans(a.skip(1), b.skip(1), c.skip(1));
        }
    }
}

/// A string between `a` and `c` in the order shares their whole common
/// prefix: it is at least that long and agrees with it byte for byte.
pub proof fn lemma_between_shares_prefix(a: Seq<u8>, b: Seq<u8>, c: Seq<u8>)
    requires
        lex_le(a, b),
        lex_le(b, c),
    ensures
        common_prefix_len(a, c) <= b.len(),
        b.take(common_prefix_len(a, c)) == a.take(common_prefix_len(a, c)),
    decreases a.len(),
{
    let p = common_prefix_len(a, c);
    lemma_common_prefix_basic(a, c);
    if a.len() == 0 || c.len() == 0 || a[0] != c[0] {
        assert(b.take(0) =~= a.take(0));
    } else {
        if b.len() == 0 {
            assert(!lex_le(a, b));
        } else {
            if a[0] < b[0] {
                if b[0] < c[0] {
                    assert(false);
                } else if b[0] > c[0] {
                    assert(!lex_le(b, c));
                } else {
                    assert(false);
                }
            } else if a[0] > b[0] {
                assert(!lex_le(a, b));
            }
            assert(a[0] == b[0]);
            lemma_between_shares_prefix(a.skip(1), b.skip(1), c.skip(1));
            lemma_common_prefix_basic(a.skip(1), c.skip(1));
            let q = common_prefix_len(a.skip(1), c.skip(1));
            assert(p == 1 + q);
            assert(b.skip(1).take(q) =~= b.subrange(1, p));
            assert(b.take(p) =~= seq![b[0]] + b.subrange(1, p));
            assert(a.skip(1).take(q) =~= a.subrange(1, p));
            assert(a.take(p) =~= seq![a[0]] + a.subrange(1, p));
        }
    }
}

/// Every pair of a non-decreasing run of keys is ordered.
pub open spec fn keys_sorted(ks: Seq<Seq<u8>>) -> bool {
    forall|i: int, j: int| 0 <= i <= j < ks.len() ==> lex_le(#[trigger] ks[i], #[trigger] ks[j])
}

/// Index of the first byte at which two keys differ.
pub fn key_diff_idx(k1: &[u8], k2: &[u8]) -> (r: usize)
    ensures
        r == common_prefix_len(k1@, k2@),
{
    proof {
        lemma_common_prefix_basic(k1@, k2@);
        assert(k1@.skip(0) =~= k1@);
        assert(k2@.skip(0) =~= k2@);
    }
    let mut i: usize = 0;
    while i < k1.len() && i < k2.len() && k1[i] == k2[i]
        invariant
            i <= k1@.len(),
            i <= k2@.len(),
            common_prefix_len(k1@, k2@) == i + common_prefix_len(k1@.skip(i as int), k2@.skip(i as int)),
        decreases k1@.len() - i,
    {
        proof {
            let a = k1@.skip(i as int);
            let b = k2@.skip(i as int);
            assert(a[0] == b[0]);
            assert(a.skip(1) =~= k1@.skip(i + 1));
            assert(b.skip(1) =~= k2@.skip(i + 1));
        }
        i += 1;
    }
    proof {
        let a = k1@.skip(i as int);
        let b = k2@.skip(i as int);
        assert(a.len() == 0 || b.len() == 0 || a[0] != b[0]);
    }
    i
}

/// True iff the byte strings are equal.
pub fn bytes_eq(a: &[u8], b: &[u8]) -> (r: bool)
    ensures
        r <==> a@ == b@,
{
    if a.len() != b.len() {
        proof {
            assert(a@.len() != b@.len());
        }
        return false;
    }
    let mut i: usize = 0;
    while i < a.len()
        invariant
            a@.len() == b@.len(),
            i <= a@.len(),
            forall|j: int| 0 <= j < i ==> a@[j] == b@[j],
        decreases a@.len() - i,
    {
        if a[i] != b[i] {
            return false;
        }
        i += 1;
    }
    proof {
        assert(a@ =~= b@);
    }
    true
}

/// Where a block originally lived, and where it stands in the stream being
/// built.
#[derive(Clone, Copy)]
pub struct BlockAddress {
    pub origin_fid: u64,
    pub origin_off: u32,
    pub curr_off: u32,
}

impl BlockAddress {
    /// An address for a freshly built block: it originates here.
    pub fn new(fid: u64, offset: u32) -> (r: BlockAddress)
        ensures
            r.origin_fid == fid,
            r.origin_off == offset,
            r.curr_off == offset,
    {
        BlockAddress { origin_fid: fid, origin_off: offset, curr_off: offset }
    }
}

/// The bytes of one emitted entry: key suffix with its length, normalized
/// meta byte, version, the superseded version where one is present, then
/// user meta and payload straight from the encoded value.
pub open spec fn entry_bytes(key: Seq<u8>, venc: Seq<u8>, old_ver: u64, cpl: int) -> Seq<u8> {
    let suffix = key.skip(cpl);
    let meta: u8 = if old_ver != 0 {
        venc[0] | META_HAS_OLD
    } else {
        venc[0] & 0xfd
    };
    u16_le(suffix.len() as u16) + suffix + seq![meta] + venc.subrange(2, 10) + (if old_ver != 0 {
        u64_le(old_ver)
    } else {
        Seq::<u8>::empty()
    }) + seq![venc[1]] + venc.skip(10)
}

/// The concatenation of the first `n` emitted entries.
pub open spec fn entries_bytes(
    keys: Seq<Seq<u8>>,
    vals: Seq<Seq<u8>>,
    old_vers: Seq<u64>,
    cpl: int,
    n: int,
) -> Seq<u8>
    decreases n,
{
    if n <= 0 {
        Seq::empty()
    } else {
        entries_bytes(keys, vals, old_vers, cpl, n - 1)
            + entry_bytes(keys[n - 1], vals[n - 1], old_vers[n - 1], cpl)
    }
}

/// Sum of the first `n` staged entry sizes.
pub open spec fn sizes_sum(sizes: Seq<u32>, n: int) -> int
    decreases n,
{
    if n <= 0 {
        0
    } else {
        sizes_sum(sizes, n - 1) + sizes[n - 1]
    }
}

/// In-block offset of entry `i`: the staged sizes before it, less the
/// common prefix stripped from each.
pub open spec fn offset_at(sizes: Seq<u32>, cpl: int, i: int) -> int
    decreases i,
{
    if i <= 0 {
        0
    } else {
        offset_at(sizes, cpl, i - 1) + sizes[i - 1] - cpl
    }
}

/// The offset table of the first `n` entries, one little-endian word each.
pub open spec fn offsets_bytes(sizes: Seq<u32>, cpl: int, n: int) -> Seq<u8>
    decreases n,
{
    if n <= 0 {
        Seq::empty()
    } else {
        offsets_bytes(sizes, cpl, n - 1) + u32_le(offset_at(sizes, cpl, n - 1) as u32)
    }
}

/// Sum of the staged footprints of the first `n` entries, before any
/// old-version promotion.
pub open spec fn base_sizes_sum(keys: Seq<Seq<u8>>, vals: Seq<Seq<u8>>, n: int) -> int
    decreases n,
{
    if n <= 0 {
        0
    } else {
        base_sizes_sum(keys, vals, n - 1) + 2 + keys[n - 1].len() + vals[n - 1].len()
    }
}

/// The body of a framed block: entry count, offset table, common prefix
/// with its length, then the entries.
pub open spec fn block_body(
    keys: Seq<Seq<u8>>,
    vals: Seq<Seq<u8>>,
    old_vers: Seq<u64>,
    sizes: Seq<u32>,
    cpl: int,
) -> Seq<u8> {
    u32_le(keys.len() as u32) + offsets_bytes(sizes, cpl, keys.len() as int)
        + u16_le(cpl as u16) + keys[0].take(cpl)
        + entries_bytes(keys, vals, old_vers, cpl, keys.len() as int)
}

/// A framed block as emitted: its checksum, then its body. The common
/// prefix is the one shared by the first and the last key.
pub open spec fn block_emitted(
    keys: Seq<Seq<u8>>,
    vals: Seq<Seq<u8>>,
    old_vers: Seq<u64>,
    sizes: Seq<u32>,
    checksum_tp: u8,
) -> Seq<u8> {
    let cpl = common_prefix_len(keys[0], keys[keys.len() - 1]);
    let body = block_body(keys, vals, old_vers, sizes, cpl);
    (if checksum_tp == CRC32_CASTAGNOLI {
        u32_le(crc32c_of(body))
    } else {
        u32_le(0)
    }) + body
}

/// One open block's staging: keys and encoded values in arrival order, the
/// superseded-version slot and the staged footprint of every entry, and the
/// running footprint total.
pub struct BlockBuffer {
    pub tmp_keys: EntrySlice,
    pub tmp_vals: EntrySlice,
    pub old_vers: Vec<u64>,
    pub entry_sizes: Vec<u32>,
    pub size: usize,
}

impl BlockBuffer {
    /// Sum of the staged entry sizes, promotions included.
    pub open spec fn spec_sizes_total(self) -> int {
        sizes_sum(self.entry_sizes@, self.entry_sizes@.len() as int)
    }

    /// The staging arrays are aligned, sorted, well sized and bounded.
    pub open spec fn wf(self) -> bool {
        &&& self.tmp_keys.wf()
        &&& self.tmp_vals.wf()
        &&& self.tmp_vals@.len() == self.tmp_keys@.len()
        &&& self.old_vers@.len() == self.tmp_keys@.len()
        &&& self.entry_sizes@.len() == self.tmp_keys@.len()
        &&& forall|i: int| 0 <= i < self.tmp_keys@.len() ==>
                valid_encoding(#[trigger] self.tmp_vals@[i])
        &&& forall|i: int| 0 <= i < self.tmp_keys@.len() ==>
                #[trigger] self.entry_sizes@[i] as int == 2 + self.tmp_keys@[i].len()
                    + self.tmp_vals@[i].len() + (if self.old_vers@[i] != 0 { 8int } else { 0int })
        &&& self.size == base_sizes_sum(self.tmp_keys@, self.tmp_vals@, self.tmp_keys@.len() as int)
        &&& (self.size > 0 <==> self.tmp_keys@.len() > 0)
        &&& self.size <= self.spec_sizes_total()
        &&& self.tmp_keys.buf@.len() <= self.size
        &&& self.tmp_vals.buf@.len() <= self.size
        &&& self.spec_sizes_total() <= u32::MAX
        &&& keys_sorted(self.tmp_keys@)
        &&& forall|i: int| 0 <= i < self.tmp_keys@.len() ==>
                (#[trigger] self.tmp_keys@[i]).len() <= u16::MAX
    }

    /// A fresh, empty staging buffer.
    pub fn new() -> (r: BlockBuffer)
        ensures
            r.wf(),
            r.tmp_keys@.len() == 0,
            r.size == 0,
    {
        BlockBuffer {
            tmp_keys: EntrySlice::new(),
            tmp_vals: EntrySlice::new(),
            old_vers: Vec::new(),
            entry_sizes: Vec::new(),
            size: 0,
        }
    }

    /// Empties the staging buffer, keeping its capacity.
    pub fn reset(&mut self)
        ensures
            final(self).wf(),
            final(self).tmp_keys@.len() == 0,
            final(self).size == 0,
    {
        self.tmp_keys.reset();
        self.tmp_vals.reset();
        self.old_vers.truncate(0);
        self.entry_sizes.truncate(0);
        self.size = 0;
        proof {
            assert(final(self).old_vers@ =~= Seq::<u64>::empty());
            assert(final(self).entry_sizes@ =~= Seq::<u32>::empty());
        }
    }
}

/// Builds one stream of framed blocks: the open staging buffer, the bytes
/// of the blocks finished so far, and the start key and address of each.
pub struct BlockBuilder {
    pub buf: Vec<u8>,
    pub block: BlockBuffer,
    pub block_keys: EntrySlice,
    pub block_addrs: Vec<BlockAddress>,
}

impl BlockBuilder {
    /// The finished blocks and the open block agree: starts are recorded
    /// for every finished block in order, and everything stays addressable.
    pub open spec fn wf(self) -> bool {
        &&& self.block.wf()
        &&& self.block_keys.wf()
        &&& self.block_addrs@.len() == self.block_keys@.len()
        &&& keys_sorted(self.block_keys@)
        &&& forall|i: int| 0 <= i < self.block_keys@.len() ==>
                (#[trigger] self.block_keys@[i]).len() <= u16::MAX
        &&& self.buf@.len() <= u32::MAX
        &&& self.block_keys.buf@.len() <= self.buf@.len()
        &&& forall|i: int| 0 <= i < self.block_addrs@.len() ==>
                (#[trigger] self.block_addrs@[i]).origin_off as int <= self.buf@.len()
                    && self.block_addrs@[i].curr_off as int <= self.buf@.len()
        &&& (self.block_keys@.len() > 0 && self.block.tmp_keys@.len() > 0 ==>
                lex_le(self.block_keys@[self.block_keys@.len() - 1], self.block.tmp_keys@[0]))
    }

    /// A fresh, empty block builder.
    pub fn new() -> (r: BlockBuilder)
        ensures
            r.wf(),
            r.buf@.len() == 0,
            r.block.tmp_keys@.len() == 0,
            r.block_keys@.len() == 0,
            r.block.size == 0,
    {
        BlockBuilder {
            buf: Vec::new(),
            block: BlockBuffer::new(),
            block_keys: EntrySlice::new(),
            block_addrs: Vec::new(),
        }
    }

    /// True iff the open block is non-empty and its last staged key equals
    /// `key`.
    pub fn same_last_key(&self, key: &[u8]) -> (r: bool)
        requires
            self.wf(),
        ensures
            r <==> (self.block.tmp_keys@.len() > 0
                && self.block.tmp_keys@[self.block.tmp_keys@.len() - 1] == key@),
    {
        if self.block.tmp_keys.length() > 0 {
            let last = self.block.tmp_keys.get_last();
            return bytes_eq(last, key);
        }
        false
    }

    /// Promotes `ver` into the last entry's superseded-version slot if that
    /// slot is still empty, growing the entry's staged footprint by the
    /// version word; otherwise leaves everything unchanged. The running
    /// `size` total deliberately stays at the pre-promotion sum — cutover
    /// decisions ignore promoted version words — so promotions never move
    /// a block boundary.
    pub fn set_last_entry_old_ver_if_zero(&mut self, ver: u64)
        requires
            old(self).wf(),
            old(self).block.tmp_keys@.len() > 0,
            ver != 0,
            old(self).block.spec_sizes_total() + 8 <= u32::MAX,
        ensures
            final(self).wf(),
            ({
                let n = old(self).block.old_vers@.len();
                if old(self).block.old_vers@[n - 1] == 0 {
                    final(self).block.old_vers@ == old(self).block.old_vers@.update(n - 1, ver)
                        && final(self).block.entry_sizes@ == old(self).block.entry_sizes@.update(
                            n - 1,
                            (old(self).block.entry_sizes@[n - 1] + 8) as u32,
                        )
                } else {
                    *final(self) == *old(self)
                }
            }),
            final(self).block.tmp_keys@ == old(self).block.tmp_keys@,
            final(self).block.tmp_vals@ == old(self).block.tmp_vals@,
            final(self).block.size == old(self).block.size,
            final(self).buf == old(self).buf,
            final(self).block_keys == old(self).block_keys,
            final(self).block_addrs == old(self).block_addrs,
    {
        let last_idx = self.block.old_vers.len() - 1;
        if self.block.old_vers[last_idx] == 0 {
            proof {
                let sizes = self.block.entry_sizes@;
                let n = sizes.len() as int;
                lemma_sizes_sum_snoc(sizes, n - 1);
                lemma_sizes_sum_mono(sizes, 0, n - 1);
                assert(sizes[n - 1] + 8 <= u32::MAX);
                lemma_sizes_sum_update(sizes, last_idx as int, 8);
            }
            self.block.old_vers.set(last_idx, ver);
            let bumped = self.block.entry_sizes[last_idx] + 8;
            self.block.entry_sizes.set(last_idx, bumped);
        }
    }

    /// Stages one entry: the key, the encoded value, an empty
    /// superseded-version slot and the entry's staged footprint.
    pub fn add_entry(&mut self, key: &[u8], val: &Value)
        requires
            old(self).wf(),
            val.wf(),
            key@.len() <= u16::MAX,
            old(self).block.tmp_keys@.len() > 0 ==> lex_le(
                old(self).block.tmp_keys@[old(self).block.tmp_keys@.len() - 1],
                key@,
            ),
            old(self).block.tmp_keys@.len() == 0 && old(self).block_keys@.len() > 0 ==> lex_le(
                old(self).block_keys@[old(self).block_keys@.len() - 1],
                key@,
            ),
            old(self).block.spec_sizes_total() + 2 + key@.len() + val.spec_encoded_size() + 8
                <= u32::MAX,
        ensures
            final(self).wf(),
            final(self).block.tmp_keys@ == old(self).block.tmp_keys@.push(key@),
            final(self).block.tmp_vals@ == old(self).block.tmp_vals@.push(val.spec_encode()),
            final(self).block.old_vers@ == old(self).block.old_vers@.push(0),
            final(self).block.entry_sizes@ == old(self).block.entry_sizes@.push(
                (2 + key@.len() + val.spec_encoded_size()) as u32,
            ),
            final(self).block.size == old(self).block.size + 2 + key@.len()
                + val.spec_encoded_size(),
            final(self).buf == old(self).buf,
            final(self).block_keys == old(self).block_keys,
            final(self).block_addrs == old(self).block_addrs,
    {
        proof {
            lemma_sizes_sum_mono(old(self).block.entry_sizes@, 0,
                old(self).block.entry_sizes@.len() as int);
            assert(valid_encoding(val.spec_encode())) by {
                assert(val.spec_encode().len() == val.spec_encoded_size());
                assert(val.spec_encode()[1] == val.user_meta@.len() as u8);
            }
        }
        let es = &mut self.block;
        es.tmp_keys.append(key);
        es.tmp_vals.append_value(val);
        es.old_vers.push(0);
        let entry_size: usize = 2 + key.len() + val.encoded_size();
        es.entry_sizes.push(entry_size as u32);
        es.size = es.size + entry_size;
        proof {
            let new = *self;
            let prev = *old(self);
            let nk = new.block.tmp_keys@;
            let n = nk.len() as int;
            assert(new.block.entry_sizes@.drop_last() =~= prev.block.entry_sizes@);
            lemma_sizes_sum_snoc(new.block.entry_sizes@, n - 1);
            assert(sizes_sum(new.block.entry_sizes@, n - 1)
                == sizes_sum(prev.block.entry_sizes@, n - 1)) by {
                lemma_sizes_sum_prefix_agree(new.block.entry_sizes@, prev.block.entry_sizes@, n - 1);
            }
            lemma_base_sum_prefix_agree(nk, new.block.tmp_vals@, prev.block.tmp_keys@,
                prev.block.tmp_vals@, n - 1);
            assert forall|i: int, j: int| 0 <= i <= j < n implies
                lex_le(#[trigger] nk[i], #[trigger] nk[j]) by {
                if j < n - 1 {
                    assert(lex_le(prev.block.tmp_keys@[i], prev.block.tmp_keys@[j]));
                } else if i < n - 1 {
                    let last = prev.block.tmp_keys@[prev.block.tmp_keys@.len() - 1];
                    lemma_lex_le_trans(nk[i], last, key@);
                } else {
                    lemma_lex_le_refl(key@);
                }
            }
        }
    }

    /// The open block's staging arrays describe a well-formed block whose
    /// every key carries the common prefix of the first and last key.
    pub open spec fn open_block_ok(self) -> bool {
        let keys = self.block.tmp_keys@;
        let cpl = common_prefix_len(keys[0], keys[keys.len() - 1]);
        &&& self.block.wf()
        &&& keys.len() > 0
        &&& forall|j: int| 0 <= j < keys.len() ==> cpl <= (#[trigger] keys[j]).len()
                && keys[j].take(cpl) == keys[0].take(cpl)
    }

    /// In a sorted, non-empty open block, every key shares the common
    /// prefix of the first and last key.
    pub proof fn lemma_open_block_ok(self)
        requires
            self.block.wf(),
            self.block.tmp_keys@.len() > 0,
        ensures
            self.open_block_ok(),
    {
        let keys = self.block.tmp_keys@;
        let n = keys.len() as int;
        let cpl = common_prefix_len(keys[0], keys[n - 1]);
        lemma_common_prefix_basic(keys[0], keys[n - 1]);
        assert forall|j: int| 0 <= j < n implies cpl <= (#[trigger] keys[j]).len()
            && keys[j].take(cpl) == keys[0].take(cpl) by {
            assert(lex_le(keys[0], keys[j]));
            assert(lex_le(keys[j], keys[n - 1]));
            lemma_between_shares_prefix(keys[0], keys[j], keys[n - 1]);
        }
    }

    /// Length in bytes of the common prefix shared by the open block's
    /// first and last staged keys.
    pub fn get_block_common_prefix_len(&self) -> (r: usize)
        requires
            self.block.tmp_keys.wf(),
            self.block.tmp_keys@.len() > 0,
        ensures
            r == common_prefix_len(
                self.block.tmp_keys@[0],
                self.block.tmp_keys@[self.block.tmp_keys@.len() - 1],
            ),
    {
        let first_key = self.block.tmp_keys.get_entry(0);
        let last_key = self.block.tmp_keys.get_last();
        key_diff_idx(first_key, last_key)
    }

    /// Length in bytes of the common prefix shared by the first and last
    /// block start keys.
    pub fn get_index_common_prefix_len(&self) -> (r: usize)
        requires
            self.block_keys.wf(),
            self.block_keys@.len() > 0,
        ensures
            r == common_prefix_len(
                self.block_keys@[0],
                self.block_keys@[self.block_keys@.len() - 1],
            ),
    {
        let first_key = self.block_keys.get_entry(0);
        let last_key = self.block_keys.get_last();
        key_diff_idx(first_key, last_key)
    }

    /// Emits entry `i` of the open block, its key stripped of the common
    /// prefix.
    pub fn build_entry(&mut self, i: usize, common_prefix_len: usize)
        requires
            old(self).block.wf(),
            i < old(self).block.tmp_keys@.len(),
            common_prefix_len <= old(self).block.tmp_keys@[i as int].len(),
            old(self).buf@.len() + old(self).block.entry_sizes@[i as int] <= usize::MAX,
        ensures
            final(self).buf@ == old(self).buf@ + entry_bytes(
                old(self).block.tmp_keys@[i as int],
                old(self).block.tmp_vals@[i as int],
                old(self).block.old_vers@[i as int],
                common_prefix_len as int,
            ),
            final(self).block == old(self).block,
            final(self).block_keys == old(self).block_keys,
            final(self).block_addrs == old(self).block_addrs,
    {
        let ghost venc = self.block.tmp_vals@[i as int];
        let ghost pre = self.buf@;
        let key = self.block.tmp_keys.get_entry(i);
        let key_suffix = vstd::slice::slice_subrange(key, common_prefix_len, key.len());
        put_u16_le(&mut self.buf, key_suffix.len() as u16);
        self.buf.extend_from_slice(key_suffix);
        let val_bin = self.block.tmp_vals.get_entry(i);
        let v = Value::decode(val_bin);
        let old_ver = self.block.old_vers[i];
        let meta: u8 = if old_ver != 0 {
            v.meta | META_HAS_OLD
        } else {
            v.meta & 0xfd
        };
        self.buf.push(meta);
        put_u64_le(&mut self.buf, v.version);
        if old_ver != 0 {
            put_u64_le(&mut self.buf, old_ver);
        }
        self.buf.push(v.user_meta.len() as u8);
        self.buf.extend_from_slice(v.user_meta.as_slice());
        self.buf.extend_from_slice(v.value.as_slice());
        proof {
            let keyv = old(self).block.tmp_keys@[i as int];
            let suffix = keyv.skip(common_prefix_len as int);
            assert(key_suffix@ =~= suffix);
            assert(v.user_meta@.len() as u8 == venc[1]);
            assert(venc.skip(10) =~= venc.subrange(10, 10 + venc[1] as int)
                + venc.skip(10 + venc[1] as int));
            assert(self.buf@ =~= pre + entry_bytes(keyv, venc,
                old(self).block.old_vers@[i as int], common_prefix_len as int));
        }
    }

    /// Closes the open block: records its start key and address, emits its
    /// checksum, offset table, common prefix and entries, and clears the
    /// staging buffer.
    #[verifier::rlimit(100)]
    pub fn finish_block(&mut self, fid: u64, checksum_tp: u8)
        requires
            old(self).wf(),
            old(self).block.tmp_keys@.len() > 0,
            old(self).buf@.len() + 14 + 4 * old(self).block.tmp_keys@.len()
                + 2 * old(self).block.spec_sizes_total() <= u32::MAX,
        ensures
            final(self).wf(),
            final(self).buf@ == old(self).buf@ + block_emitted(
                old(self).block.tmp_keys@,
                old(self).block.tmp_vals@,
                old(self).block.old_vers@,
                old(self).block.entry_sizes@,
                checksum_tp,
            ),
            final(self).block_keys@ == old(self).block_keys@.push(old(self).block.tmp_keys@[0]),
            final(self).block_keys.buf@ == old(self).block_keys.buf@
                + old(self).block.tmp_keys@[0],
            final(self).block_addrs@ == old(self).block_addrs@.push(
                BlockAddress {
                    origin_fid: fid,
                    origin_off: old(self).buf@.len() as u32,
                    curr_off: old(self).buf@.len() as u32,
                },
            ),
            final(self).block.tmp_keys@.len() == 0,
            final(self).block.size == 0,
    {
        let ghost keys = self.block.tmp_keys@;
        let ghost vals = self.block.tmp_vals@;
        let ghost overs = self.block.old_vers@;
        let ghost sizes = self.block.entry_sizes@;
        let ghost n = keys.len() as int;
        let ghost cplg = common_prefix_len(keys[0], keys[n - 1]);
        let ghost total = self.block.spec_sizes_total();
        let ghost buf0 = self.buf@;
        proof {
            self.lemma_open_block_ok();
            lemma_common_prefix_basic(keys[0], keys[n - 1]);
            lemma_sizes_sum_mono(sizes, 0, n);
            lemma_count_le_sum(sizes, n);
            lemma_offsets_bytes_len(sizes, cplg, n);
            assert forall|k: int| 0 <= k < sizes.len() implies cplg + 2 <= #[trigger] sizes[k] by {
                assert(cplg <= keys[k].len());
                assert(vals[k].len() >= 10);
            }
            lemma_offset_at_mono(sizes, cplg, 0, n);
            lemma_entries_bytes_len(keys, vals, overs, sizes, cplg, n);
        }
        let first = self.block.tmp_keys.get_entry(0);
        self.block_keys.append(first);
        proof {
            let kb = self.block_keys@;
            assert forall|i: int, j: int| 0 <= i <= j < kb.len() implies
                lex_le(#[trigger] kb[i], #[trigger] kb[j]) by {
                let prev = old(self).block_keys@;
                if j < prev.len() {
                    assert(lex_le(prev[i], prev[j]));
                } else if i < prev.len() {
                    assert(lex_le(prev[i], prev[prev.len() - 1]));
                    assert(lex_le(prev[prev.len() - 1], keys[0]));
                    lemma_lex_le_trans(kb[i], prev[prev.len() - 1], keys[0]);
                } else {
                    lemma_lex_le_refl(keys[0]);
                }
            }
        }
        let start_off = self.buf.len() as u32;
        self.block_addrs.push(BlockAddress::new(fid, start_off));
        let ghost kb1 = self.block_keys;
        let ghost ba1 = self.block_addrs@;
        put_u32_le(&mut self.buf, 0);
        let begin_off = self.buf.len();
        let num_entries = self.block.tmp_keys.length();
        put_u32_le(&mut self.buf, num_entries as u32);
        let cpl = self.get_block_common_prefix_len();
        let ghost buf1 = self.buf@;
        let mut offset: u32 = 0;
        let mut i: usize = 0;
        while i < num_entries
            invariant
                self.block == old(self).block,
                self.block_keys == kb1,
                kb1@ == old(self).block_keys@.push(keys[0]),
                kb1.buf@ == old(self).block_keys.buf@ + keys[0],
                kb1.wf(),
                keys_sorted(kb1@),
                forall|k: int| 0 <= k < kb1@.len() ==> (#[trigger] kb1@[k]).len() <= u16::MAX,
                self.block_addrs@ == ba1,
                ba1 == old(self).block_addrs@.push(
                    BlockAddress {
                        origin_fid: fid,
                        origin_off: buf0.len() as u32,
                        curr_off: buf0.len() as u32,
                    },
                ),
                num_entries == n,
                n == keys.len(),
                cpl == cplg,
                cplg == common_prefix_len(keys[0], keys[n - 1]),
                0 <= cplg <= u16::MAX,
                forall|k: int| 0 <= k < sizes.len() ==> cplg + 2 <= #[trigger] sizes[k],
                i <= n,
                keys == self.block.tmp_keys@,
                sizes == self.block.entry_sizes@,
                self.block.wf(),
                self.open_block_ok(),
                total == self.block.spec_sizes_total(),
                2 * total + 14 + 4 * n + buf0.len() <= u32::MAX,
                buf1.len() == buf0.len() + 8,
                offset == offset_at(sizes, cplg, i as int),
                0 <= offset_at(sizes, cplg, i as int) <= sizes_sum(sizes, i as int),
                self.buf@ == buf1 + offsets_bytes(sizes, cplg, i as int),
            decreases n - i,
        {
            proof {
                lemma_offsets_bytes_len(sizes, cplg, i as int);
                lemma_sizes_sum_mono(sizes, i as int + 1, n);
                lemma_sizes_sum_snoc(sizes, i as int);
                lemma_offset_at_mono(sizes, cplg, i as int, i as int + 1);
            }
            put_u32_le(&mut self.buf, offset);
            let es = self.block.entry_sizes[i];
            offset = offset + (es - cpl as u32);
            i += 1;
        }
        proof {
            lemma_offsets_bytes_len(sizes, cplg, n);
        }
        put_u16_le(&mut self.buf, cpl as u16);
        let first_again = self.block.tmp_keys.get_entry(0);
        let common_prefix = vstd::slice::slice_subrange(first_again, 0, cpl);
        self.buf.extend_from_slice(common_prefix);
        proof {
            assert(common_prefix@ =~= keys[0].take(cplg));
        }
        let ghost buf2 = self.buf@;
        let mut j: usize = 0;
        while j < num_entries
            invariant
                self.block == old(self).block,
                self.block_keys == kb1,
                kb1@ == old(self).block_keys@.push(keys[0]),
                kb1.buf@ == old(self).block_keys.buf@ + keys[0],
                kb1.wf(),
                keys_sorted(kb1@),
                forall|k: int| 0 <= k < kb1@.len() ==> (#[trigger] kb1@[k]).len() <= u16::MAX,
                self.block_addrs@ == ba1,
                ba1 == old(self).block_addrs@.push(
                    BlockAddress {
                        origin_fid: fid,
                        origin_off: buf0.len() as u32,
                        curr_off: buf0.len() as u32,
                    },
                ),
                num_entries == n,
                n == keys.len(),
                cpl == cplg,
                cplg == common_prefix_len(keys[0], keys[n - 1]),
                0 <= cplg <= u16::MAX,
                forall|k: int| 0 <= k < sizes.len() ==> cplg + 2 <= #[trigger] sizes[k],
                j <= n,
                keys == self.block.tmp_keys@,
                vals == self.block.tmp_vals@,
                overs == self.block.old_vers@,
                sizes == self.block.entry_sizes@,
                self.block.wf(),
                self.open_block_ok(),
                total == self.block.spec_sizes_total(),
                2 * total + 14 + 4 * n + buf0.len() <= u32::MAX,
                buf2.len() == buf0.len() + 10 + 4 * n + cplg,
                cplg <= keys[0].len(),
                self.buf@ == buf2 + entries_bytes(keys, vals, overs, cplg, j as int),
            decreases n - j,
        {
            proof {
                lemma_entries_bytes_len(keys, vals, overs, sizes, cplg, j as int);
                lemma_offset_at_mono(sizes, cplg, j as int, j as int + 1);
                lemma_sizes_sum_mono(sizes, j as int + 1, n);
                lemma_sizes_sum_snoc(sizes, j as int);
                assert(cplg <= keys[j as int].len());
            }
            self.build_entry(j, cpl);
            j += 1;
        }
        proof {
            lemma_entries_bytes_len(keys, vals, overs, sizes, cplg, n);
        }
        let end_off = self.buf.len();
        let checksum: u32 = if checksum_tp == CRC32_CASTAGNOLI {
            let body = vstd::slice::slice_subrange(self.buf.as_slice(), begin_off, end_off);
            crc32c::crc32c(body)
        } else {
            0
        };
        let ghost body = block_body(keys, vals, overs, sizes, cplg);
        proof {
            assert(self.buf@ =~= buf0 + u32_le(0) + body);
            assert(self.buf@.subrange(begin_off as int, end_off as int) =~= body);
        }
        set_u32_le(&mut self.buf, begin_off - 4, checksum);
        self.block.reset();
        proof {
            assert(self.buf@ =~= buf0 + block_emitted(keys, vals, overs, sizes,
                checksum_tp));
            lemma_offset_at_mono(sizes, cplg, 1, n);
            assert(offset_at(sizes, cplg, 1) == sizes[0] - cplg);
            assert(vals[0].len() >= 10);
            assert(keys[0].len() + 2 <= sizes[0]);
            assert(self.block_keys.buf@.len()
                == old(self).block_keys.buf@.len() + keys[0].len());
            assert(self.block_keys.buf@.len() <= self.buf@.len());
        }
    }

    /// Appends the filter extra record for the given fingerprints, their
    /// duplicates dropped, unless construction fails or the serialized
    /// filter would push the section past `budget` bytes.
    pub fn build_filter(&mut self, key_hashes: &Vec<u64>, budget: u32)
        requires
            key_hashes@.len() > 0,
        ensures
            final(self).buf@ == old(self).buf@ + filter_extra_bytes(
                key_hashes@,
                old(self).buf@.len() as int,
                budget as int,
            ),
            filter_section_of(dedup_hashes_spec(key_hashes@)) matches Some(s) ==>
                s.len() <= 6 * dedup_hashes_spec(key_hashes@).len() + 786470,
            final(self).block == old(self).block,
            final(self).block_keys == old(self).block_keys,
            final(self).block_addrs == old(self).block_addrs,
    {
        let ghost pre = self.buf@;
        let uniq = dedup_hashes(key_hashes);
        proof {
            lemma_dedup_distinct(key_hashes@);
        }
        match crate::hashes::build_filter_section(&uniq) {
            Some(bin) => {
                if (self.buf.len() as u128) + (bin.len() as u128) + 7 <= budget as u128 {
                    self.buf.push(EXTRA_FILTER);
                    self.buf.push(EXTRA_FILTER_TYPE_BINARY_FUSE_8);
                    put_u32_le(&mut self.buf, bin.len() as u32);
                    self.buf.extend_from_slice(bin.as_slice());
                    proof {
                        assert(self.buf@ =~= pre + filter_extra_bytes(key_hashes@,
                            pre.len() as int, budget as int));
                    }
                }
            },
            None => {},
        }
    }

    /// Replaces the output buffer with the index section over the finished
    /// blocks: a checksum, the start key offset table, the rebased block
    /// addresses, the start keys as common prefix plus suffixes, the filter
    /// extra where one is due, and the terminator. The section never grows
    /// past `budget` bytes.
    #[verifier::rlimit(100)]
    pub fn build_index(&mut self, base_off: u32, checksum_tp: u8, key_hashes: &Vec<u64>, budget: u32)
        requires
            old(self).wf(),
            forall|i: int| 0 <= i < old(self).block_addrs@.len() ==>
                (#[trigger] old(self).block_addrs@[i]).origin_off + base_off <= u32::MAX
                    && old(self).block_addrs@[i].curr_off + base_off <= u32::MAX,
            16 + 20 * old(self).block_addrs@.len() + old(self).block_keys.buf@.len() + 65536
                <= budget,
        ensures
            final(self).buf@ == index_emitted(
                old(self).block_keys@,
                old(self).block_addrs@,
                base_off,
                checksum_tp,
                key_hashes@,
                budget as int,
            ),
            final(self).buf@.len() <= budget,
            key_hashes@.len() > 0 ==> (filter_section_of(dedup_hashes_spec(key_hashes@))
                matches Some(s) ==> s.len() <= 6 * dedup_hashes_spec(key_hashes@).len()
                + 786470),
            final(self).block == old(self).block,
            final(self).block_keys == old(self).block_keys,
            final(self).block_addrs == old(self).block_addrs,
    {
        let ghost kb = self.block_keys@;
        let ghost addrs = self.block_addrs@;
        let ghost n = kb.len() as int;
        let ghost kbuf = self.block_keys.buf@.len() as int;
        self.buf.truncate(0);
        proof {
            assert(self.buf@ =~= Seq::<u8>::empty());
            lemma_entry_slice_len_sum(old(self).block_keys, n);
        }
        let num_blocks = self.block_addrs.len();
        put_u32_le(&mut self.buf, 0);
        put_u32_le(&mut self.buf, num_blocks as u32);
        let mut cpl: usize = 0;
        if num_blocks > 0 {
            cpl = self.get_index_common_prefix_len();
        }
        let ghost cplg = cpl as int;
        proof {
            if n > 0 {
                lemma_common_prefix_basic(kb[0], kb[n - 1]);
                assert forall|j: int| 0 <= j < n implies cplg <= (#[trigger] kb[j]).len()
                    && kb[j].take(cplg) == kb[0].take(cplg) by {
                    assert(lex_le(kb[0], kb[j]));
                    assert(lex_le(kb[j], kb[n - 1]));
                    lemma_between_shares_prefix(kb[0], kb[j], kb[n - 1]);
                }
            }
            lemma_key_offset_mono(kb, cplg, 0, n);
            lemma_key_sum_eq(kb, cplg, n);
        }
        let ghost head1 = self.buf@;
        let mut key_offset: u32 = 0;
        let mut i: usize = 0;
        while i < num_blocks
            invariant
                self.block == old(self).block,
                self.block_keys == old(self).block_keys,
                self.block_addrs == old(self).block_addrs,
                kb == self.block_keys@,
                addrs == self.block_addrs@,
                n == kb.len(),
                num_blocks == n,
                self.block_keys.wf(),
                cpl == cplg,
                0 <= cplg <= u16::MAX,
                forall|j: int| 0 <= j < n ==> cplg <= (#[trigger] kb[j]).len()
                    && (#[trigger] kb[j]).len() <= u16::MAX,
                key_offset_at(kb, cplg, n) + cplg * n <= kbuf <= u32::MAX,
                i <= n,
                key_offset == key_offset_at(kb, cplg, i as int),
                self.buf@ == head1 + key_offsets_bytes(kb, cplg, i as int),
            decreases n - i,
        {
            proof {
                lemma_key_offset_mono(kb, cplg, i as int, i as int + 1);
                lemma_key_offset_mono(kb, cplg, i as int + 1, n);
            }
            put_u32_le(&mut self.buf, key_offset);
            let bk = self.block_keys.get_entry(i);
            key_offset = key_offset + (bk.len() as u32 - cpl as u32);
            i += 1;
        }
        let ghost head2 = self.buf@;
        let mut j: usize = 0;
        while j < num_blocks
            invariant
                self.block == old(self).block,
                self.block_keys == old(self).block_keys,
                self.block_addrs == old(self).block_addrs,
                kb == self.block_keys@,
                addrs == self.block_addrs@,
                n == kb.len(),
                num_blocks == n,
                addrs.len() == n,
                forall|k: int| 0 <= k < n ==>
                    (#[trigger] addrs[k]).origin_off + base_off <= u32::MAX
                        && addrs[k].curr_off + base_off <= u32::MAX,
                j <= n,
                self.buf@ == head2 + addrs_bytes(addrs, base_off, j as int),
            decreases n - j,
        {
            let a = self.block_addrs[j];
            put_u64_le(&mut self.buf, a.origin_fid);
            put_u32_le(&mut self.buf, a.origin_off + base_off);
            put_u32_le(&mut self.buf, a.curr_off + base_off);
            j += 1;
        }
        put_u16_le(&mut self.buf, cpl as u16);
        if cpl > 0 {
            let first = self.block_keys.get_entry(0);
            let prefix = vstd::slice::slice_subrange(first, 0, cpl);
            self.buf.extend_from_slice(prefix);
            proof {
                assert(prefix@ =~= kb[0].take(cplg));
            }
        }
        proof {
            lemma_key_offset_mono(kb, cplg, 0, n);
        }
        let block_keys_len = self.block_keys.buf.len() - num_blocks * cpl;
        put_u32_le(&mut self.buf, block_keys_len as u32);
        let ghost head3 = self.buf@;
        let mut s: usize = 0;
        while s < num_blocks
            invariant
                self.block == old(self).block,
                self.block_keys == old(self).block_keys,
                self.block_addrs == old(self).block_addrs,
                kb == self.block_keys@,
                addrs == self.block_addrs@,
                n == kb.len(),
                num_blocks == n,
                self.block_keys.wf(),
                cpl == cplg,
                forall|k: int| 0 <= k < n ==> cplg <= (#[trigger] kb[k]).len(),
                s <= n,
                self.buf@ == head3 + suffixes_bytes(kb, cplg, s as int),
            decreases n - s,
        {
            let bk = self.block_keys.get_entry(s);
            let suffix = vstd::slice::slice_subrange(bk, cpl, bk.len());
            self.buf.extend_from_slice(suffix);
            proof {
                assert(suffix@ =~= kb[s as int].skip(cplg));
                assert(suffixes_bytes(kb, cplg, s + 1) =~= suffixes_bytes(kb, cplg, s as int)
                    + kb[s as int].skip(cplg));
            }
            s += 1;
        }
        proof {
            lemma_key_offsets_bytes_len(kb, cplg, n);
            lemma_addrs_bytes_len(addrs, base_off, n);
            lemma_suffixes_bytes_len(kb, cplg, n);
            assert(self.buf@ =~= u32_le(0) + index_pre_body(kb, addrs, base_off));
        }
        if key_hashes.len() > 0 {
            self.build_filter(key_hashes, budget);
        }
        self.buf.push(EXTRA_END);
        let ghost body = index_pre_body(kb, addrs, base_off) + filter_extra_bytes(
            key_hashes@,
            4 + index_pre_body(kb, addrs, base_off).len() as int,
            budget as int,
        ) + seq![EXTRA_END];
        proof {
            assert(self.buf@ =~= u32_le(0) + body);
        }
        let end_off = self.buf.len();
        if checksum_tp == CRC32_CASTAGNOLI {
            let bodyslice = vstd::slice::slice_subrange(self.buf.as_slice(), 4, end_off);
            proof {
                assert(bodyslice@ =~= body);
            }
            let checksum = crc32c::crc32c(bodyslice);
            set_u32_le(&mut self.buf, 0, checksum);
        }
        proof {
            assert(self.buf@ =~= index_emitted(kb, addrs, base_off, checksum_tp, key_hashes@,
                budget as int));
        }
    }

    /// Empties the whole builder: staging, emitted bytes, starts and
    /// addresses.
    pub fn reset_all(&mut self)
        ensures
            final(self).wf(),
            final(self).buf@.len() == 0,
            final(self).block.tmp_keys@.len() == 0,
            final(self).block_keys@.len() == 0,
            final(self).block_addrs@.len() == 0,
            final(self).block.size == 0,
    {
        self.block.reset();
        self.buf.truncate(0);
        self.block_keys.reset();
        self.block_addrs.truncate(0);
        proof {
            assert(final(self).buf@ =~= Seq::<u8>::empty());
            assert(final(self).block_addrs@ =~= Seq::<BlockAddress>::empty());
        }
    }
}

/// Summing a size list that grew by one entry adds that entry's size.
pub proof fn lemma_sizes_sum_snoc(sizes: Seq<u32>, n: int)
    requires
        0 <= n < sizes.len(),
    ensures
        sizes_sum(sizes, n + 1) == sizes_sum(sizes, n) + sizes[n],
{
}

/// Prefix sums of non-negative sizes grow with the prefix.
pub proof fn lemma_sizes_sum_mono(sizes: Seq<u32>, m: int, n: int)
    requires
        0 <= m <= n <= sizes.len(),
    ensures
        0 <= sizes_sum(sizes, m) <= sizes_sum(sizes, n),
    decreases n,
{
    if n > m {
        lemma_sizes_sum_mono(sizes, m, n - 1);
    } else if n > 0 {
        lemma_sizes_sum_mono(sizes, 0, n - 1);
    }
}

/// Sums over a prefix agree when the lists agree on that prefix.
pub proof fn lemma_sizes_sum_prefix_agree(a: Seq<u32>, b: Seq<u32>, n: int)
    requires
        0 <= n <= a.len(),
        n <= b.len(),
        forall|i: int| 0 <= i < n ==> a[i] == b[i],
    ensures
        sizes_sum(a, n) == sizes_sum(b, n),
    decreases n,
{
    if n > 0 {
        lemma_sizes_sum_prefix_agree(a, b, n - 1);
    }
}

/// Offset of block start key `i` in the index's suffix region: the lengths
/// of the keys before it, each stripped of the common prefix.
pub open spec fn key_offset_at(keys: Seq<Seq<u8>>, cpl: int, i: int) -> int
    decreases i,
{
    if i <= 0 {
        0
    } else {
        key_offset_at(keys, cpl, i - 1) + keys[i - 1].len() - cpl
    }
}

/// The block-start-key offset table of the index, one word per block.
pub open spec fn key_offsets_bytes(keys: Seq<Seq<u8>>, cpl: int, n: int) -> Seq<u8>
    decreases n,
{
    if n <= 0 {
        Seq::empty()
    } else {
        key_offsets_bytes(keys, cpl, n - 1) + u32_le(key_offset_at(keys, cpl, n - 1) as u32)
    }
}

/// The block address records of the index, rebased by `base_off`.
pub open spec fn addrs_bytes(addrs: Seq<BlockAddress>, base_off: u32, n: int) -> Seq<u8>
    decreases n,
{
    if n <= 0 {
        Seq::empty()
    } else {
        addrs_bytes(addrs, base_off, n - 1) + u64_le(addrs[n - 1].origin_fid)
            + u32_le((addrs[n - 1].origin_off + base_off) as u32)
            + u32_le((addrs[n - 1].curr_off + base_off) as u32)
    }
}

/// The concatenated block start key suffixes of the index.
pub open spec fn suffixes_bytes(keys: Seq<Seq<u8>>, cpl: int, n: int) -> Seq<u8>
    decreases n,
{
    if n <= 0 {
        Seq::empty()
    } else {
        suffixes_bytes(keys, cpl, n - 1) + keys[n - 1].skip(cpl)
    }
}

/// The fingerprint list with every repeated value dropped, first
/// occurrences kept in order.
pub open spec fn dedup_hashes_spec(s: Seq<u64>) -> Seq<u64>
    decreases s.len(),
{
    if s.len() == 0 {
        Seq::empty()
    } else {
        let p = dedup_hashes_spec(s.drop_last());
        if p.contains(s.last()) {
            p
        } else {
            p.push(s.last())
        }
    }
}

/// Deduplication yields a list of distinct values, no longer than the
/// input.
pub proof fn lemma_dedup_distinct(s: Seq<u64>)
    ensures
        forall|i: int, j: int| 0 <= i < j < dedup_hashes_spec(s).len() ==>
            dedup_hashes_spec(s)[i] != dedup_hashes_spec(s)[j],
        dedup_hashes_spec(s).len() <= s.len(),
    decreases s.len(),
{
    if s.len() > 0 {
        lemma_dedup_distinct(s.drop_last());
        let p = dedup_hashes_spec(s.drop_last());
        let r = dedup_hashes_spec(s);
        if !p.contains(s.last()) {
            assert forall|i: int, j: int| 0 <= i < j < r.len() implies r[i] != r[j] by {
                if j == r.len() - 1 {
                    if r[i] == s.last() {
                        assert(p.contains(s.last()));
                    }
                }
            }
        }
    }
}

/// True iff `x` occurs in `v`.
fn contains_u64(v: &Vec<u64>, x: u64) -> (r: bool)
    ensures
        r <==> v@.contains(x),
{
    let mut i: usize = 0;
    while i < v.len()
        invariant
            i <= v@.len(),
            forall|k: int| 0 <= k < i ==> v@[k] != x,
        decreases v@.len() - i,
    {
        if v[i] == x {
            return true;
        }
        i += 1;
    }
    false
}

/// Drops repeated fingerprints, keeping first occurrences in order.
fn dedup_hashes(v: &Vec<u64>) -> (r: Vec<u64>)
    ensures
        r@ == dedup_hashes_spec(v@),
{
    let mut out: Vec<u64> = Vec::new();
    let mut i: usize = 0;
    proof {
        assert(v@.take(0) =~= Seq::<u64>::empty());
    }
    while i < v.len()
        invariant
            i <= v@.len(),
            out@ == dedup_hashes_spec(v@.take(i as int)),
        decreases v@.len() - i,
    {
        let x = v[i];
        proof {
            assert(v@.take(i + 1).drop_last() =~= v@.take(i as int));
            assert(v@.take(i + 1).last() == v@[i as int]);
        }
        if !contains_u64(&out, x) {
            out.push(x);
        }
        i += 1;
    }
    proof {
        assert(v@.take(v@.len() as int) =~= v@);
    }
    out
}

/// The filter extra record: present when there are fingerprints, filter
/// construction over the deduplicated fingerprints succeeds, and the
/// serialized filter keeps the section within `budget` bytes.
pub open spec fn filter_extra_bytes(hashes: Seq<u64>, cur_len: int, budget: int) -> Seq<u8> {
    if hashes.len() == 0 {
        Seq::empty()
    } else {
        match filter_section_of(dedup_hashes_spec(hashes)) {
            Some(b) => if cur_len + b.len() + 7 <= budget {
                seq![EXTRA_FILTER, EXTRA_FILTER_TYPE_BINARY_FUSE_8] + u32_le(b.len() as u32) + b
            } else {
                Seq::empty()
            },
            None => Seq::empty(),
        }
    }
}

/// The index body before the extras region.
pub open spec fn index_pre_body(
    keys: Seq<Seq<u8>>,
    addrs: Seq<BlockAddress>,
    base_off: u32,
) -> Seq<u8> {
    let n = keys.len() as int;
    let cpl = if n > 0 {
        common_prefix_len(keys[0], keys[n - 1])
    } else {
        0
    };
    u32_le(n as u32) + key_offsets_bytes(keys, cpl, n) + addrs_bytes(addrs, base_off, n)
        + u16_le(cpl as u16) + (if cpl > 0 {
        keys[0].take(cpl)
    } else {
        Seq::<u8>::empty()
    }) + u32_le(key_offset_at(keys, cpl, n) as u32) + suffixes_bytes(keys, cpl, n)
}

/// A whole emitted index section: checksum, body, extras, terminator.
pub open spec fn index_emitted(
    keys: Seq<Seq<u8>>,
    addrs: Seq<BlockAddress>,
    base_off: u32,
    checksum_tp: u8,
    hashes: Seq<u64>,
    budget: int,
) -> Seq<u8> {
    let pre = index_pre_body(keys, addrs, base_off);
    let body = pre + filter_extra_bytes(hashes, 4 + pre.len() as int, budget)
        + seq![EXTRA_END];
    (if checksum_tp == CRC32_CASTAGNOLI {
        u32_le(crc32c_of(body))
    } else {
        u32_le(0)
    }) + body
}

/// Sum of the lengths of the first `n` keys.
pub open spec fn keys_len_sum(keys: Seq<Seq<u8>>, n: int) -> int
    decreases n,
{
    if n <= 0 {
        0
    } else {
        keys_len_sum(keys, n - 1) + keys[n - 1].len()
    }
}

/// The entries of a well-formed container account for its whole buffer.
pub proof fn lemma_entry_slice_len_sum(es: EntrySlice, n: int)
    requires
        es.wf(),
        n == es@.len(),
    ensures
        keys_len_sum(es@, n) == es.buf@.len(),
{
    lemma_entry_slice_len_sum_aux(es, n);
}

/// The first `n` entries of a container reach exactly to the `n`th end
/// offset.
proof fn lemma_entry_slice_len_sum_aux(es: EntrySlice, n: int)
    requires
        es.wf(),
        0 <= n <= es@.len(),
    ensures
        keys_len_sum(es@, n) == es.spec_start(n),
        n == es@.len() ==> keys_len_sum(es@, n) == es.buf@.len(),
    decreases n,
{
    if n > 0 {
        lemma_entry_slice_len_sum_aux(es, n - 1);
        assert(es@[n - 1].len() == es.end_offs@[n - 1] - es.spec_start(n - 1));
    }
}

/// Start key offsets stay non-negative and grow with the block when every
/// key covers the common prefix.
pub proof fn lemma_key_offset_mono(keys: Seq<Seq<u8>>, cpl: int, m: int, n: int)
    requires
        0 <= m <= n <= keys.len(),
        0 <= cpl,
        forall|j: int| 0 <= j < keys.len() ==> cpl <= (#[trigger] keys[j]).len(),
    ensures
        0 <= key_offset_at(keys, cpl, m),
        key_offset_at(keys, cpl, m) <= key_offset_at(keys, cpl, n),
    decreases n,
{
    if n > m {
        lemma_key_offset_mono(keys, cpl, m, n - 1);
    } else if n > 0 {
        lemma_key_offset_mono(keys, cpl, 0, n - 1);
    }
}

/// Stripping the common prefix from every key removes it once per key
/// from the total length.
pub proof fn lemma_key_sum_eq(keys: Seq<Seq<u8>>, cpl: int, n: int)
    requires
        0 <= n <= keys.len(),
    ensures
        key_offset_at(keys, cpl, n) == keys_len_sum(keys, n) - n * cpl,
    decreases n,
{
    if n > 0 {
        lemma_key_sum_eq(keys, cpl, n - 1);
        assert(key_offset_at(keys, cpl, n)
            == key_offset_at(keys, cpl, n - 1) + keys[n - 1].len() - cpl);
        assert(keys_len_sum(keys, n) == keys_len_sum(keys, n - 1) + keys[n - 1].len());
        assert(n * cpl == (n - 1) * cpl + cpl) by (nonlinear_arith);
    } else {
        assert(n * cpl == 0) by (nonlinear_arith)
            requires n == 0;
    }
}

/// The start key offset table takes four bytes per block.
pub proof fn lemma_key_offsets_bytes_len(keys: Seq<Seq<u8>>, cpl: int, n: int)
    requires
        n >= 0,
    ensures
        key_offsets_bytes(keys, cpl, n).len() == 4 * n,
    decreases n,
{
    if n > 0 {
        lemma_key_offsets_bytes_len(keys, cpl, n - 1);
    }
}

/// Each block address record takes sixteen bytes.
pub proof fn lemma_addrs_bytes_len(addrs: Seq<BlockAddress>, base_off: u32, n: int)
    requires
        n >= 0,
    ensures
        addrs_bytes(addrs, base_off, n).len() == 16 * n,
    decreases n,
{
    if n > 0 {
        lemma_addrs_bytes_len(addrs, base_off, n - 1);
    }
}

/// The suffix region takes the stripped length of every start key.
pub proof fn lemma_suffixes_bytes_len(keys: Seq<Seq<u8>>, cpl: int, n: int)
    requires
        0 <= n <= keys.len(),
        0 <= cpl,
        forall|j: int| 0 <= j < keys.len() ==> cpl <= (#[trigger] keys[j]).len(),
    ensures
        suffixes_bytes(keys, cpl, n).len() == key_offset_at(keys, cpl, n),
    decreases n,
{
    if n > 0 {
        lemma_suffixes_bytes_len(keys, cpl, n - 1);
    }
}

/// The offset table takes four bytes per entry.
pub proof fn lemma_offsets_bytes_len(sizes: Seq<u32>, cpl: int, n: int)
    requires
        n >= 0,
    ensures
        offsets_bytes(sizes, cpl, n).len() == 4 * n,
    decreases n,
{
    if n > 0 {
        lemma_offsets_bytes_len(sizes, cpl, n - 1);
    }
}

/// Entry offsets stay non-negative, grow with the entry, and sit within
/// the size budget, when every staged size covers the common prefix and
/// the length field.
pub proof fn lemma_offset_at_mono(sizes: Seq<u32>, cpl: int, m: int, n: int)
    requires
        0 <= m <= n <= sizes.len(),
        0 <= cpl,
        forall|j: int| 0 <= j < sizes.len() ==> cpl + 2 <= #[trigger] sizes[j],
    ensures
        0 <= offset_at(sizes, cpl, m),
        offset_at(sizes, cpl, m) <= offset_at(sizes, cpl, n),
        offset_at(sizes, cpl, n) <= sizes_sum(sizes, n),
    decreases n,
{
    if n > m {
        lemma_offset_at_mono(sizes, cpl, m, n - 1);
    } else if n > 0 {
        lemma_offset_at_mono(sizes, cpl, 0, n - 1);
    }
}

/// The emitted entries take exactly the staged sizes, each stripped of the
/// common prefix.
pub proof fn lemma_entries_bytes_len(
    keys: Seq<Seq<u8>>,
    vals: Seq<Seq<u8>>,
    old_vers: Seq<u64>,
    sizes: Seq<u32>,
    cpl: int,
    n: int,
)
    requires
        0 <= n <= keys.len(),
        keys.len() == vals.len(),
        keys.len() == old_vers.len(),
        keys.len() == sizes.len(),
        0 <= cpl,
        forall|i: int| 0 <= i < keys.len() ==> valid_encoding(#[trigger] vals[i]),
        forall|i: int| 0 <= i < keys.len() ==> cpl <= (#[trigger] keys[i]).len(),
        forall|i: int| 0 <= i < keys.len() ==>
            #[trigger] sizes[i] as int == 2 + keys[i].len() + vals[i].len()
                + (if old_vers[i] != 0 { 8int } else { 0int }),
    ensures
        entries_bytes(keys, vals, old_vers, cpl, n).len() == offset_at(sizes, cpl, n),
    decreases n,
{
    if n > 0 {
        lemma_entries_bytes_len(keys, vals, old_vers, sizes, cpl, n - 1);
        assert(entry_bytes(keys[n - 1], vals[n - 1], old_vers[n - 1], cpl).len()
            == sizes[n - 1] - cpl);
    }
}

/// A sum over sizes of at least twelve bytes each bounds the entry count.
pub proof fn lemma_count_le_sum(sizes: Seq<u32>, n: int)
    requires
        0 <= n <= sizes.len(),
        forall|j: int| 0 <= j < sizes.len() ==> #[trigger] sizes[j] >= 12,
    ensures
        12 * n <= sizes_sum(sizes, n),
    decreases n,
{
    if n > 0 {
        lemma_count_le_sum(sizes, n - 1);
    }
}

/// Entry offsets reconstruct the entries: within the entries region of a
/// block, entry `i` spans exactly the bytes between its stored offset and
/// the next one, so walking the offset table yields the input entries in
/// order.
pub proof fn lemma_entry_offsets_reconstruct(
    keys: Seq<Seq<u8>>,
    vals: Seq<Seq<u8>>,
    old_vers: Seq<u64>,
    sizes: Seq<u32>,
    cpl: int,
    i: int,
)
    requires
        0 <= i < keys.len(),
        keys.len() == vals.len(),
        keys.len() == old_vers.len(),
        keys.len() == sizes.len(),
        0 <= cpl,
        forall|j: int| 0 <= j < keys.len() ==> valid_encoding(#[trigger] vals[j]),
        forall|j: int| 0 <= j < keys.len() ==> cpl <= (#[trigger] keys[j]).len(),
        forall|j: int| 0 <= j < keys.len() ==>
            #[trigger] sizes[j] as int == 2 + keys[j].len() + vals[j].len()
                + (if old_vers[j] != 0 { 8int } else { 0int }),
    ensures
        entries_bytes(keys, vals, old_vers, cpl, keys.len() as int).subrange(
            offset_at(sizes, cpl, i),
            offset_at(sizes, cpl, i + 1),
        ) == entry_bytes(keys[i], vals[i], old_vers[i], cpl),
    decreases keys.len() - i,
{
    let n = keys.len() as int;
    lemma_entries_bytes_len(keys, vals, old_vers, sizes, cpl, i);
    lemma_entries_bytes_len(keys, vals, old_vers, sizes, cpl, i + 1);
    lemma_entries_bytes_len(keys, vals, old_vers, sizes, cpl, n);
    lemma_entries_prefix_within(keys, vals, old_vers, sizes, cpl, i + 1, n);
    assert(entries_bytes(keys, vals, old_vers, cpl, n).subrange(
        offset_at(sizes, cpl, i),
        offset_at(sizes, cpl, i + 1),
    ) =~= entry_bytes(keys[i], vals[i], old_vers[i], cpl));
}

/// The first `m` entries of the entries region are a prefix of the first
/// `n`.
proof fn lemma_entries_prefix_within(
    keys: Seq<Seq<u8>>,
    vals: Seq<Seq<u8>>,
    old_vers: Seq<u64>,
    sizes: Seq<u32>,
    cpl: int,
    m: int,
    n: int,
)
    requires
        0 <= m <= n <= keys.len(),
        keys.len() == vals.len(),
        keys.len() == old_vers.len(),
        keys.len() == sizes.len(),
        0 <= cpl,
        forall|j: int| 0 <= j < keys.len() ==> valid_encoding(#[trigger] vals[j]),
        forall|j: int| 0 <= j < keys.len() ==> cpl <= (#[trigger] keys[j]).len(),
        forall|j: int| 0 <= j < keys.len() ==>
            #[trigger] sizes[j] as int == 2 + keys[j].len() + vals[j].len()
                + (if old_vers[j] != 0 { 8int } else { 0int }),
    ensures
        forall|k: int| 0 <= k < entries_bytes(keys, vals, old_vers, cpl, m).len() ==>
            #[trigger] entries_bytes(keys, vals, old_vers, cpl, n)[k]
                == entries_bytes(keys, vals, old_vers, cpl, m)[k],
        entries_bytes(keys, vals, old_vers, cpl, m).len()
            <= entries_bytes(keys, vals, old_vers, cpl, n).len(),
    decreases n,
{
    if n > m {
        lemma_entries_prefix_within(keys, vals, old_vers, sizes, cpl, m, n - 1);
    }
}

/// Common-prefix round trip: in a sorted block, gluing the block's common
/// prefix onto any entry's stored key suffix restores that entry's key.
pub proof fn lemma_common_prefix_round_trip(keys: Seq<Seq<u8>>, i: int)
    requires
        keys_sorted(keys),
        keys.len() > 0,
        0 <= i < keys.len(),
    ensures
        ({
            let cpl = common_prefix_len(keys[0], keys[keys.len() - 1]);
            keys[0].take(cpl) + keys[i].skip(cpl) == keys[i]
        }),
{
    let n = keys.len() as int;
    let cpl = common_prefix_len(keys[0], keys[n - 1]);
    lemma_common_prefix_basic(keys[0], keys[n - 1]);
    assert(lex_le(keys[0], keys[i]));
    assert(lex_le(keys[i], keys[n - 1]));
    lemma_between_shares_prefix(keys[0], keys[i], keys[n - 1]);
    assert(keys[0].take(cpl) + keys[i].skip(cpl) =~= keys[i]);
}

/// Key length sums agree on a shared prefix.
pub proof fn lemma_keys_len_sum_prefix_agree(a: Seq<Seq<u8>>, b: Seq<Seq<u8>>, n: int)
    requires
        0 <= n <= a.len(),
        n <= b.len(),
        forall|i: int| 0 <= i < n ==> #[trigger] a[i] == b[i],
    ensures
        keys_len_sum(a, n) == keys_len_sum(b, n),
    decreases n,
{
    if n > 0 {
        lemma_keys_len_sum_prefix_agree(a, b, n - 1);
    }
}

/// An emitted index section stays within its byte budget: the fixed parts
/// are bounded by the block count and the start key bytes, and the filter
/// extra is emitted only when it fits.
pub proof fn lemma_index_emitted_len_bound(
    keys: Seq<Seq<u8>>,
    addrs: Seq<BlockAddress>,
    base_off: u32,
    checksum_tp: u8,
    hashes: Seq<u64>,
    budget: int,
)
    requires
        keys_sorted(keys),
        addrs.len() == keys.len(),
        forall|j: int| 0 <= j < keys.len() ==> (#[trigger] keys[j]).len() <= u16::MAX,
        16 + 20 * keys.len() + keys_len_sum(keys, keys.len() as int) + 65536 <= budget,
    ensures
        index_emitted(keys, addrs, base_off, checksum_tp, hashes, budget).len() <= budget,
{
    let n = keys.len() as int;
    let kbuf = keys_len_sum(keys, n);
    let cpl = if n > 0 {
        common_prefix_len(keys[0], keys[n - 1])
    } else {
        0
    };
    if n > 0 {
        lemma_common_prefix_basic(keys[0], keys[n - 1]);
        assert forall|j: int| 0 <= j < n implies cpl <= (#[trigger] keys[j]).len() by {
            assert(lex_le(keys[0], keys[j]));
            assert(lex_le(keys[j], keys[n - 1]));
            lemma_between_shares_prefix(keys[0], keys[j], keys[n - 1]);
        }
        assert(n * cpl >= cpl) by (nonlinear_arith)
            requires n >= 1 && cpl >= 0;
    }
    lemma_key_offsets_bytes_len(keys, cpl, n);
    lemma_addrs_bytes_len(addrs, base_off, n);
    lemma_suffixes_bytes_len(keys, cpl, n);
    lemma_key_sum_eq(keys, cpl, n);
    lemma_key_offset_mono(keys, cpl, 0, n);
    let pre = index_pre_body(keys, addrs, base_off);
    assert(pre.len() <= 14 + 20 * n + kbuf);
    let extra = filter_extra_bytes(hashes, 4 + pre.len() as int, budget);
    let emitted = index_emitted(keys, addrs, base_off, checksum_tp, hashes, budget);
    assert(emitted.len() == 4 + pre.len() + extra.len() + 1);
    if hashes.len() > 0 {
        match filter_section_of(dedup_hashes_spec(hashes)) {
            Some(b) => {
                if 4 + pre.len() + b.len() + 7 <= budget {
                    assert(extra.len() == 6 + b.len());
                } else {
                    assert(extra.len() == 0);
                }
            },
            None => {
                assert(extra.len() == 0);
            },
        }
    }
}

/// Staged footprint sums agree on a shared prefix of keys and values.
pub proof fn lemma_base_sum_prefix_agree(
    ka: Seq<Seq<u8>>,
    va: Seq<Seq<u8>>,
    kb: Seq<Seq<u8>>,
    vb: Seq<Seq<u8>>,
    n: int,
)
    requires
        0 <= n <= ka.len(),
        n <= va.len(),
        n <= kb.len(),
        n <= vb.len(),
        forall|i: int| 0 <= i < n ==> #[trigger] ka[i] == kb[i],
        forall|i: int| 0 <= i < n ==> #[trigger] va[i] == vb[i],
    ensures
        base_sizes_sum(ka, va, n) == base_sizes_sum(kb, vb, n),
    decreases n,
{
    if n > 0 {
        lemma_base_sum_prefix_agree(ka, va, kb, vb, n - 1);
    }
}

/// Bumping one size by `d` bumps every sum that covers it by `d`.
pub proof fn lemma_sizes_sum_update(sizes: Seq<u32>, i: int, d: int)
    requires
        0 <= i < sizes.len(),
        0 <= sizes[i] + d <= u32::MAX,
    ensures
        forall|n: int| i < n <= sizes.len() ==>
            #[trigger] sizes_sum(sizes.update(i, (sizes[i] + d) as u32), n)
                == sizes_sum(sizes, n) + d,
        forall|n: int| 0 <= n <= i ==>
            #[trigger] sizes_sum(sizes.update(i, (sizes[i] + d) as u32), n)
                == sizes_sum(sizes, n),
{
    let s2 = sizes.update(i, (sizes[i] + d) as u32);
    assert forall|n: int| 0 <= n <= sizes.len() implies
        (if n <= i {
            sizes_sum(s2, n) == sizes_sum(sizes, n)
        } else {
            sizes_sum(s2, n) == sizes_sum(sizes, n) + d
        }) by {
        lemma_sizes_sum_update_aux(sizes, s2, i, d, n);
    }
}

/// Helper induction for sums over an updated size list.
proof fn lemma_sizes_sum_update_aux(a: Seq<u32>, b: Seq<u32>, i: int, d: int, n: int)
    requires
        0 <= i < a.len(),
        b == a.update(i, (a[i] + d) as u32),
        0 <= a[i] + d <= u32::MAX,
        0 <= n <= a.len(),
    ensures
        n <= i ==> sizes_sum(b, n) == sizes_sum(a, n),
        n > i ==> sizes_sum(b, n) == sizes_sum(a, n) + d,
    decreases n,
{
    if n > 0 {
        lemma_sizes_sum_update_aux(a, b, i, d, n - 1);
    }
}

} // verus!

