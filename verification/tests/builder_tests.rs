use std::convert::TryFrom;
use sst_builder::builder::{Builder, TableBuilderOptions};
use sst_builder::entry_slice::EntrySlice;
use sst_builder::footer::Footer;
use sst_builder::value::Value;
use sst_builder::{CRC32_CASTAGNOLI, EXTRA_END, EXTRA_FILTER, FOOTER_SIZE, MAGIC_NUMBER,
    META_HAS_OLD, NO_COMPRESSION, TABLE_FORMAT};

fn mkval(meta: u8, user_meta: &[u8], version: u64, value: &[u8]) -> Value {
    Value::new(meta, user_meta.to_vec(), version, value.to_vec())
}

fn rd_u16(b: &[u8], off: usize) -> u16 {
    u16::from_le_bytes([b[off], b[off + 1]])
}

fn rd_u32(b: &[u8], off: usize) -> u32 {
    u32::from_le_bytes([b[off], b[off + 1], b[off + 2], b[off + 3]])
}

fn rd_u64(b: &[u8], off: usize) -> u64 {
    u64::from_le_bytes([
        b[off], b[off + 1], b[off + 2], b[off + 3], b[off + 4], b[off + 5], b[off + 6],
        b[off + 7],
    ])
}

struct ParsedEntry {
    key: Vec<u8>,
    meta: u8,
    version: u64,
    old_version: Option<u64>,
    user_meta: Vec<u8>,
    value: Vec<u8>,
}

struct ParsedBlock {
    checksum: u32,
    entries: Vec<ParsedEntry>,
}

fn parse_block(b: &[u8]) -> ParsedBlock {
    let checksum = rd_u32(b, 0);
    let n = rd_u32(b, 4) as usize;
    let mut offsets = Vec::new();
    for i in 0..n {
        offsets.push(rd_u32(b, 8 + 4 * i) as usize);
    }
    let mut pos = 8 + 4 * n;
    let cpl = rd_u16(b, pos) as usize;
    pos += 2;
    let prefix = b[pos..pos + cpl].to_vec();
    pos += cpl;
    let entries_start = pos;
    let mut entries = Vec::new();
    for i in 0..n {
        let mut p = entries_start + offsets[i];
        let end = if i + 1 < n {
            entries_start + offsets[i + 1]
        } else {
            b.len()
        };
        let suffix_len = rd_u16(b, p) as usize;
        p += 2;
        let mut key = prefix.clone();
        key.extend_from_slice(&b[p..p + suffix_len]);
        p += suffix_len;
        let meta = b[p];
        p += 1;
        let version = rd_u64(b, p);
        p += 8;
        let old_version = if meta & META_HAS_OLD != 0 {
            let ov = rd_u64(b, p);
            p += 8;
            Some(ov)
        } else {
            None
        };
        let um_len = b[p] as usize;
        p += 1;
        let user_meta = b[p..p + um_len].to_vec();
        p += um_len;
        let value = b[p..end].to_vec();
        entries.push(ParsedEntry { key, meta, version, old_version, user_meta, value });
    }
    ParsedBlock { checksum, entries }
}

struct ParsedIndex {
    checksum: u32,
    block_keys: Vec<Vec<u8>>,
    key_offsets: Vec<u32>,
    block_addrs: Vec<(u64, u32, u32)>,
    extras: Vec<u8>,
}

fn parse_index(b: &[u8]) -> ParsedIndex {
    let checksum = rd_u32(b, 0);
    let n = rd_u32(b, 4) as usize;
    let mut key_offsets = Vec::new();
    for i in 0..n {
        key_offsets.push(rd_u32(b, 8 + 4 * i));
    }
    let mut pos = 8 + 4 * n;
    let mut block_addrs = Vec::new();
    for _ in 0..n {
        block_addrs.push((rd_u64(b, pos), rd_u32(b, pos + 8), rd_u32(b, pos + 12)));
        pos += 16;
    }
    let cpl = rd_u16(b, pos) as usize;
    pos += 2;
    let prefix = if cpl > 0 {
        let p = b[pos..pos + cpl].to_vec();
        pos += cpl;
        p
    } else {
        Vec::new()
    };
    let block_keys_len = rd_u32(b, pos) as usize;
    pos += 4;
    let suffix_region = &b[pos..pos + block_keys_len];
    pos += block_keys_len;
    let mut block_keys = Vec::new();
    for i in 0..n {
        let start = key_offsets[i] as usize;
        let end = if i + 1 < n {
            key_offsets[i + 1] as usize
        } else {
            suffix_region.len()
        };
        let mut k = prefix.clone();
        k.extend_from_slice(&suffix_region[start..end]);
        block_keys.push(k);
    }
    let extras = b[pos..].to_vec();
    ParsedIndex { checksum, block_keys, key_offsets, block_addrs, extras }
}

struct Sections {
    data: Vec<u8>,
    old_data: Vec<u8>,
    index: Vec<u8>,
    old_index: Vec<u8>,
    props: Vec<u8>,
    footer: Footer,
}

fn split_sections(out: &[u8]) -> Sections {
    let mut footer = Footer {
        old_data_offset: 0,
        index_offset: 0,
        old_index_offset: 0,
        properties_offset: 0,
        compression_type: 0,
        checksum_type: 0,
        table_format_version: 0,
        magic: 0,
    };
    footer.unmarshal(&out[out.len() - FOOTER_SIZE..]);
    let od = footer.old_data_offset as usize;
    let io = footer.index_offset as usize;
    let oio = footer.old_index_offset as usize;
    let po = footer.properties_offset as usize;
    Sections {
        data: out[..od].to_vec(),
        old_data: out[od..io].to_vec(),
        index: out[io..oio].to_vec(),
        old_index: out[oio..po].to_vec(),
        props: out[po..out.len() - FOOTER_SIZE].to_vec(),
        footer,
    }
}

#[test]
fn test_entry_slice() {
    let mut es = EntrySlice::new();
    es.append("abc".as_bytes());
    let val_buf = Value::encode_buf(1, &[1], 1, "abc".as_bytes());
    let val = Value::decode(&val_buf);
    es.append_value(&val);
    assert_eq!(es.length(), 2);
    assert_eq!(es.get_entry(0), "abc".as_bytes());
    assert_eq!(es.get_entry(1), val_buf.as_slice());
}

#[test]
fn value_encode_decode_round_trip() {
    let buf = Value::encode_buf(3, &[7, 8], 42, b"payload");
    assert_eq!(buf.len(), 10 + 2 + 7);
    assert_eq!(buf[0], 3);
    assert_eq!(buf[1], 2);
    assert_eq!(rd_u64(&buf, 2), 42);
    let v = Value::decode(&buf);
    assert_eq!(v.meta, 3);
    assert_eq!(v.version, 42);
    assert_eq!(v.user_meta(), &vec![7u8, 8u8]);
    assert_eq!(v.get_value(), &b"payload".to_vec());
    let mut re = Vec::new();
    v.encode_to(&mut re);
    assert_eq!(re, buf);
}

#[test]
fn footer_marshal_round_trip() {
    let f = Footer {
        old_data_offset: 10,
        index_offset: 20,
        old_index_offset: 30,
        properties_offset: 40,
        compression_type: NO_COMPRESSION,
        checksum_type: CRC32_CASTAGNOLI,
        table_format_version: TABLE_FORMAT,
        magic: MAGIC_NUMBER,
    };
    let bytes = f.marshal();
    assert_eq!(bytes.len(), FOOTER_SIZE);
    let mut g = Footer {
        old_data_offset: 0,
        index_offset: 0,
        old_index_offset: 0,
        properties_offset: 0,
        compression_type: 0,
        checksum_type: 0,
        table_format_version: 0,
        magic: 0,
    };
    g.unmarshal(&bytes);
    assert_eq!(g.old_data_offset, 10);
    assert_eq!(g.index_offset, 20);
    assert_eq!(g.old_index_offset, 30);
    assert_eq!(g.properties_offset, 40);
    assert_eq!(g.table_format_version, TABLE_FORMAT);
    assert_eq!(g.magic, MAGIC_NUMBER);
    assert_eq!(g.data_len(), 10);
    assert_eq!(g.old_data_len(), 10);
    assert_eq!(g.index_len(), 10);
    assert_eq!(g.old_index_len(), 10);
    assert_eq!(g.properties_len(100), 100 - 40 - FOOTER_SIZE);
}

#[test]
fn single_key() {
    let mut b = Builder::new(1, TableBuilderOptions::default());
    b.add(b"a", &mkval(0, &[], 5, b"x"));
    assert!(!b.is_empty());
    let mut out = Vec::new();
    let res = b.finish(0, &mut out);
    assert_eq!(res.id, 1);
    assert_eq!(res.smallest, b"a".to_vec());
    assert_eq!(res.biggest, b"a".to_vec());
    let s = split_sections(&out);
    assert_eq!(s.footer.magic, MAGIC_NUMBER);
    assert_eq!(s.footer.table_format_version, TABLE_FORMAT);
    assert_eq!(s.footer.compression_type, NO_COMPRESSION);
    assert_eq!(s.footer.checksum_type, CRC32_CASTAGNOLI);
    assert_eq!(s.footer.old_data_offset as usize, s.data.len());
    assert!(s.old_data.is_empty());
    let blk = parse_block(&s.data);
    assert_eq!(blk.entries.len(), 1);
    assert_eq!(blk.entries[0].key, b"a".to_vec());
    assert_eq!(blk.entries[0].version, 5);
    assert_eq!(blk.entries[0].meta, 0);
    assert_eq!(blk.entries[0].old_version, None);
    assert_eq!(blk.entries[0].value, b"x".to_vec());
    let ix = parse_index(&s.index);
    assert_eq!(ix.block_keys.len(), 1);
    assert_eq!(ix.block_keys[0], b"a".to_vec());
    assert_eq!(blk.checksum, crc32c::crc32c(&s.data[4..]));
    assert_eq!(ix.checksum, crc32c::crc32c(&s.index[4..]));
    assert_eq!(rd_u32(&s.props, 0), crc32c::crc32c(&s.props[4..]));
}

#[test]
fn two_distinct_keys_one_block() {
    let mut b = Builder::new(1, TableBuilderOptions::default());
    b.add(b"apple", &mkval(0, &[], 2, b"v1"));
    b.add(b"apricot", &mkval(0, &[], 1, b"v2"));
    let mut out = Vec::new();
    let res = b.finish(0, &mut out);
    assert_eq!(res.smallest, b"apple".to_vec());
    assert_eq!(res.biggest, b"apricot".to_vec());
    let s = split_sections(&out);
    let cpl = rd_u16(&s.data, 8 + 4 * 2) as usize;
    assert_eq!(cpl, 2);
    assert_eq!(&s.data[8 + 4 * 2 + 2..8 + 4 * 2 + 2 + 2], b"ap");
    let blk = parse_block(&s.data);
    assert_eq!(blk.entries.len(), 2);
    assert_eq!(blk.entries[0].key, b"apple".to_vec());
    assert_eq!(blk.entries[1].key, b"apricot".to_vec());
}

#[test]
fn duplicate_key_promotion() {
    let mut b = Builder::new(1, TableBuilderOptions::default());
    b.add(b"k", &mkval(0, &[], 10, b"a"));
    b.add(b"k", &mkval(0, &[], 7, b"b"));
    b.add(b"k", &mkval(0, &[], 3, b"c"));
    b.add(b"m", &mkval(0, &[], 1, b"d"));
    assert_eq!(b.key_hashes.len(), 2);
    assert_eq!(b.key_hashes[0], farmhash::fingerprint64(b"k"));
    assert_eq!(b.key_hashes[1], farmhash::fingerprint64(b"m"));
    let mut out = Vec::new();
    b.finish(0, &mut out);
    let s = split_sections(&out);
    let blk = parse_block(&s.data);
    assert_eq!(blk.entries.len(), 2);
    assert_eq!(blk.entries[0].key, b"k".to_vec());
    assert_eq!(blk.entries[0].version, 10);
    assert_eq!(blk.entries[0].old_version, Some(7));
    assert_ne!(blk.entries[0].meta & META_HAS_OLD, 0);
    assert_eq!(blk.entries[1].key, b"m".to_vec());
    assert_eq!(blk.entries[1].old_version, None);
    let old_blk = parse_block(&s.old_data);
    assert_eq!(old_blk.entries.len(), 2);
    assert_eq!(old_blk.entries[0].key, b"k".to_vec());
    assert_eq!(old_blk.entries[0].version, 7);
    assert_eq!(old_blk.entries[1].key, b"k".to_vec());
    assert_eq!(old_blk.entries[1].version, 3);
    let old_ix = parse_index(&s.old_index);
    assert_eq!(old_ix.extras, vec![EXTRA_END]);
}

#[test]
fn block_cutover() {
    let mut b = Builder::new(1, TableBuilderOptions {
        block_size: 64,
        max_table_size: 16777216,
    });
    let mut keys = Vec::new();
    for i in 0..100 {
        keys.push(format!("k{:02}", i).into_bytes());
    }
    for k in &keys {
        b.add(k, &mkval(0, &[], 9, &[7u8; 50]));
    }
    let mut out = Vec::new();
    b.finish(0, &mut out);
    let s = split_sections(&out);
    let ix = parse_index(&s.index);
    assert!(ix.block_keys.len() > 1);
    for w in ix.key_offsets.windows(2) {
        assert!(w[0] < w[1]);
    }
    for (i, (_fid, _orig, curr)) in ix.block_addrs.iter().enumerate() {
        let end = if i + 1 < ix.block_addrs.len() {
            ix.block_addrs[i + 1].2 as usize
        } else {
            s.data.len()
        };
        let blk = parse_block(&s.data[*curr as usize..end]);
        assert_eq!(blk.entries[0].key, ix.block_keys[i]);
        assert_eq!(blk.checksum, crc32c::crc32c(&s.data[*curr as usize + 4..end]));
    }
    let mut walked = Vec::new();
    for (i, (_fid, _orig, curr)) in ix.block_addrs.iter().enumerate() {
        let end = if i + 1 < ix.block_addrs.len() {
            ix.block_addrs[i + 1].2 as usize
        } else {
            s.data.len()
        };
        for e in parse_block(&s.data[*curr as usize..end]).entries {
            walked.push(e.key);
        }
    }
    assert_eq!(walked, keys);
}

#[test]
fn filter_faithfulness() {
    let mut b = Builder::new(1, TableBuilderOptions::default());
    let mut keys = Vec::new();
    for i in 0..100 {
        keys.push(format!("key{:03}", i).into_bytes());
    }
    for k in &keys {
        b.add(k, &mkval(0, &[], 1, b"v"));
    }
    let mut out = Vec::new();
    b.finish(0, &mut out);
    let s = split_sections(&out);
    let ix = parse_index(&s.index);
    assert_eq!(ix.extras[0], EXTRA_FILTER);
    assert_eq!(ix.extras[1], 1);
    let flen = rd_u32(&ix.extras, 2) as usize;
    let fbytes = &ix.extras[6..6 + flen];
    assert_eq!(ix.extras[6 + flen], EXTRA_END);
    let fp_count = rd_u64(fbytes, 20) as usize;
    assert_eq!(fbytes.len(), 28 + fp_count);
    let hashes: Vec<u64> = keys.iter().map(|k| farmhash::fingerprint64(k)).collect();
    let filter = xorf::BinaryFuse8::try_from(&hashes).unwrap();
    assert_eq!(rd_u64(fbytes, 0), filter.descriptor.seed);
    assert_eq!(rd_u32(fbytes, 8), filter.descriptor.segment_length);
    assert_eq!(rd_u32(fbytes, 12), filter.descriptor.segment_length_mask);
    assert_eq!(rd_u32(fbytes, 16), filter.descriptor.segment_count_length);
    assert_eq!(&fbytes[28..], &filter.fingerprints[..]);
    for k in &keys {
        assert!(xorf::Filter::contains(&filter, &farmhash::fingerprint64(k)));
    }
}

#[test]
fn reset_replay_is_deterministic() {
    let mut b = Builder::new(5, TableBuilderOptions::default());
    let add_all = |b: &mut Builder| {
        b.add(b"alpha", &mkval(0, &[1], 3, b"one"));
        b.add(b"alpha", &mkval(0, &[], 2, b"two"));
        b.add(b"beta", &mkval(0, &[], 9, b"three"));
        b.add(b"gamma", &mkval(0, &[2, 3], 4, b"four"));
    };
    add_all(&mut b);
    let mut out1 = Vec::new();
    b.finish(0, &mut out1);
    b.reset(5);
    assert!(b.is_empty());
    add_all(&mut b);
    let mut out2 = Vec::new();
    b.finish(0, &mut out2);
    assert_eq!(out1, out2);
}

#[test]
fn footer_offsets_account_for_whole_table() {
    let mut b = Builder::new(1, TableBuilderOptions {
        block_size: 256,
        max_table_size: 16777216,
    });
    let mut keys = Vec::new();
    let mut x: u64 = 12345;
    for _ in 0..1000 {
        x = x.wrapping_mul(6364136223846793005).wrapping_add(1442695040888963407);
        keys.push(format!("{:016x}", x).into_bytes());
    }
    keys.sort();
    keys.dedup();
    for k in &keys {
        b.add(k, &mkval(0, &[], 1, b"v"));
    }
    let mut out = Vec::new();
    b.finish(0, &mut out);
    let s = split_sections(&out);
    let total = out.len();
    assert_eq!(
        s.footer.old_data_offset as usize
            + s.footer.old_data_len()
            + s.footer.index_len()
            + s.footer.old_index_len()
            + s.footer.properties_len(total)
            + FOOTER_SIZE,
        total
    );
    assert!(s.footer.index_offset >= s.footer.old_data_offset);
    assert!(s.footer.old_index_offset >= s.footer.index_offset);
    assert!(s.footer.properties_offset >= s.footer.old_index_offset);
}

#[test]
fn properties_hold_key_range() {
    let mut b = Builder::new(1, TableBuilderOptions::default());
    b.add(b"first", &mkval(0, &[], 2, b"v"));
    b.add(b"last", &mkval(0, &[], 1, b"w"));
    assert_eq!(b.get_smallest(), b"first");
    let mut out = Vec::new();
    b.finish(0, &mut out);
    assert_eq!(b.get_biggest(), b"last");
    let s = split_sections(&out);
    let mut pos = 4;
    let klen = rd_u16(&s.props, pos) as usize;
    pos += 2;
    assert_eq!(&s.props[pos..pos + klen], b"smallest");
    pos += klen;
    let vlen = rd_u32(&s.props, pos) as usize;
    pos += 4;
    assert_eq!(&s.props[pos..pos + vlen], b"first");
    pos += vlen;
    let klen2 = rd_u16(&s.props, pos) as usize;
    pos += 2;
    assert_eq!(&s.props[pos..pos + klen2], b"biggest");
    pos += klen2;
    let vlen2 = rd_u32(&s.props, pos) as usize;
    pos += 4;
    assert_eq!(&s.props[pos..pos + vlen2], b"last");
}

#[test]
fn estimated_size_tracks_staged_bytes() {
    let mut b = Builder::new(1, TableBuilderOptions::default());
    assert_eq!(b.estimated_size(), 0);
    b.add(b"k", &mkval(0, &[], 1, b"v"));
    let staged = 2 + 1 + (10 + 1);
    assert_eq!(b.estimated_size(), staged + staged / 32);
}
