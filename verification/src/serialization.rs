//! The on-disk file format.
//!
//! A file is `MAGIC || u32_le(HEADER_LEN) || HEADER_BYTES || PAYLOAD`, where
//! the magic is the eight ASCII bytes `MIMDB002`, the header is a
//! deterministic binary encoding of [`FileHeader`], and the payload holds,
//! for each column in header order and each batch in batch order, exactly
//! `compressed_size` bytes of codec output.  Batches are cut every
//! `batch_size` rows and are independent codec invocations, so a batch can
//! be decoded without its neighbours.

use crate::compression::{
    lemma_int64_codec_roundtrip, lemma_varchar_codec_roundtrip, spec_decode_int64,
    spec_encode_int64, spec_varchar_records, string_from_utf8, strs_view, take_varchar_values,
    varchar_fits, compress_int64_column, compress_varchar_column, decompress_int64_column,
    decompress_varchar_column, lz4_of, zstd_of,
};
use crate::error::{DbError, ErrorKind};
use crate::table::{col_len, col_type, col_view, spec_has_col, ColumnData, ColumnDataV, ColumnType, Table};
use vstd::bytes::*;
use vstd::prelude::*;
use vstd::slice::{slice_subrange, slice_to_vec};
use vstd::utf8::{decode_utf8, encode_utf8, valid_utf8};

verus! {

pub const FORMAT_VERSION: u32 = 2;

/// Default number of rows per batch.
pub const DEFAULT_BATCH_SIZE: usize = 100_000;

/// Smallest accepted batch size.
pub const MIN_BATCH_SIZE: usize = 1_000;

/// Largest accepted batch size.
pub const MAX_BATCH_SIZE: usize = 1_000_000;

/// The eight ASCII bytes of `MIMDB002`.
pub open spec fn spec_magic() -> Seq<u8> {
    seq![0x4du8, 0x49u8, 0x4du8, 0x44u8, 0x42u8, 0x30u8, 0x30u8, 0x32u8]
}

/// Configuration for batch processing.
#[derive(Clone, Copy, Debug)]
pub struct BatchConfig {
    pub batch_size: usize,
}

pub open spec fn spec_clamped_batch_size(requested: usize) -> usize {
    if requested < MIN_BATCH_SIZE {
        MIN_BATCH_SIZE
    } else if requested > MAX_BATCH_SIZE {
        MAX_BATCH_SIZE
    } else {
        requested
    }
}

impl BatchConfig {
    pub open spec fn valid(self) -> bool {
        MIN_BATCH_SIZE <= self.batch_size <= MAX_BATCH_SIZE
    }

    /// Create a batch configuration, clamping the requested size into the
    /// accepted range.
    pub fn new(batch_size: usize) -> (r: BatchConfig)
        ensures
            r.batch_size == spec_clamped_batch_size(batch_size),
            r.valid(),
    {
        let clamped: usize = if batch_size < MIN_BATCH_SIZE {
            MIN_BATCH_SIZE
        } else if batch_size > MAX_BATCH_SIZE {
            MAX_BATCH_SIZE
        } else {
            batch_size
        };
        BatchConfig { batch_size: clamped }
    }
}

impl Default for BatchConfig {
    fn default() -> (r: BatchConfig)
        ensures
            r.batch_size == DEFAULT_BATCH_SIZE,
            r.valid(),
    {
        BatchConfig { batch_size: DEFAULT_BATCH_SIZE }
    }
}

// ------------------------------------------------------------------
// header structures
// ------------------------------------------------------------------

/// Metadata for a single batch within a column.
#[derive(Clone, Copy, Debug)]
pub struct BatchMeta {
    pub start_row: usize,
    pub row_count: usize,
    pub compressed_size: usize,
    pub uncompressed_size: usize,
}

/// Column metadata with batch information.
#[derive(Debug)]
pub struct ColumnMeta {
    pub name: String,
    pub column_type: ColumnType,
    pub total_compressed_size: usize,
    pub total_uncompressed_size: usize,
    pub total_row_count: usize,
    pub batch_size: usize,
    pub batches: Vec<BatchMeta>,
}

/// The mathematical content of a [`ColumnMeta`].
pub struct ColumnMetaV {
    pub name: Seq<char>,
    pub column_type: ColumnType,
    pub total_compressed_size: usize,
    pub total_uncompressed_size: usize,
    pub total_row_count: usize,
    pub batch_size: usize,
    pub batches: Seq<BatchMeta>,
}

impl View for ColumnMeta {
    type V = ColumnMetaV;

    open spec fn view(&self) -> ColumnMetaV {
        ColumnMetaV {
            name: self.name@,
            column_type: self.column_type,
            total_compressed_size: self.total_compressed_size,
            total_uncompressed_size: self.total_uncompressed_size,
            total_row_count: self.total_row_count,
            batch_size: self.batch_size,
            batches: self.batches@,
        }
    }
}

/// File header structure.
#[derive(Debug)]
pub struct FileHeader {
    pub version: u32,
    pub column_count: u32,
    pub row_count: u64,
    pub columns: Vec<ColumnMeta>,
}

/// The mathematical content of a [`FileHeader`].
pub struct FileHeaderV {
    pub version: u32,
    pub column_count: u32,
    pub row_count: u64,
    pub columns: Seq<ColumnMetaV>,
}

impl View for FileHeader {
    type V = FileHeaderV;

    open spec fn view(&self) -> FileHeaderV {
        FileHeaderV {
            version: self.version,
            column_count: self.column_count,
            row_count: self.row_count,
            columns: self.columns@.map_values(|c: ColumnMeta| c.view()),
        }
    }
}

// ------------------------------------------------------------------
// header byte encoding
// ------------------------------------------------------------------

pub open spec fn spec_u64_field(v: usize) -> Seq<u8> {
    spec_u64_to_le_bytes(v as u64)
}

pub open spec fn spec_type_byte(t: ColumnType) -> u8 {
    match t {
        ColumnType::Int64 => 0,
        ColumnType::Varchar => 1,
    }
}

pub open spec fn spec_batch_meta_bytes(b: BatchMeta) -> Seq<u8> {
    spec_u64_field(b.start_row) + spec_u64_field(b.row_count) + spec_u64_field(b.compressed_size)
        + spec_u64_field(b.uncompressed_size)
}

pub open spec fn spec_batch_list_bytes(bs: Seq<BatchMeta>) -> Seq<u8>
    decreases bs.len(),
{
    if bs.len() == 0 {
        Seq::empty()
    } else {
        spec_batch_meta_bytes(bs[0]) + spec_batch_list_bytes(bs.drop_first())
    }
}

pub open spec fn spec_column_meta_bytes(c: ColumnMetaV) -> Seq<u8> {
    spec_u32_to_le_bytes(encode_utf8(c.name).len() as u32) + encode_utf8(c.name) + seq![
        spec_type_byte(c.column_type),
    ] + spec_u64_field(c.total_compressed_size) + spec_u64_field(c.total_uncompressed_size)
        + spec_u64_field(c.total_row_count) + spec_u64_field(c.batch_size) + spec_u32_to_le_bytes(
        c.batches.len() as u32,
    ) + spec_batch_list_bytes(c.batches)
}

pub open spec fn spec_column_list_bytes(cs: Seq<ColumnMetaV>) -> Seq<u8>
    decreases cs.len(),
{
    if cs.len() == 0 {
        Seq::empty()
    } else {
        spec_column_meta_bytes(cs[0]) + spec_column_list_bytes(cs.drop_first())
    }
}

/// The deterministic binary encoding of a file header.
pub open spec fn spec_header_bytes(h: FileHeaderV) -> Seq<u8> {
    spec_u32_to_le_bytes(h.version) + spec_u32_to_le_bytes(h.column_count) + spec_u64_to_le_bytes(
        h.row_count,
    ) + spec_column_list_bytes(h.columns)
}

/// Whether a header can be framed: every name and every batch list fits its
/// length prefix.
pub open spec fn header_fits(h: FileHeaderV) -> bool {
    forall|i: int| 0 <= i < h.columns.len() ==> (#[trigger] encode_utf8(
        h.columns[i].name,
    )).len() <= u32::MAX && h.columns[i].batches.len() <= u32::MAX
}

// ------------------------------------------------------------------
// header parsing specification
// ------------------------------------------------------------------

pub open spec fn take_u32_field(bytes: Seq<u8>) -> Option<(u32, nat)> {
    if bytes.len() < 4 {
        None
    } else {
        Some((spec_u32_from_le_bytes(bytes.take(4)), 4))
    }
}

/// Read a u64 field and require it to fit a usize.
pub open spec fn take_usize_field(bytes: Seq<u8>) -> Option<(usize, nat)> {
    if bytes.len() < 8 {
        None
    } else {
        let v = spec_u64_from_le_bytes(bytes.take(8));
        if v > usize::MAX {
            None
        } else {
            Some((v as usize, 8))
        }
    }
}

pub open spec fn take_batch_meta(bytes: Seq<u8>) -> Option<(BatchMeta, nat)> {
    match take_usize_field(bytes) {
        None => None,
        Some((start_row, n0)) => match take_usize_field(bytes.skip(n0 as int)) {
            None => None,
            Some((row_count, n1)) => match take_usize_field(bytes.skip(n0 + n1 as int)) {
                None => None,
                Some((compressed_size, n2)) => match take_usize_field(
                    bytes.skip(n0 + n1 + n2 as int),
                ) {
                    None => None,
                    Some((uncompressed_size, n3)) => Some(
                        (
                            BatchMeta { start_row, row_count, compressed_size, uncompressed_size },
                            n0 + n1 + n2 + n3,
                        ),
                    ),
                },
            },
        },
    }
}

pub open spec fn take_batch_list(bytes: Seq<u8>, n: nat) -> Option<(Seq<BatchMeta>, nat)>
    decreases n,
{
    if n == 0 {
        Some((Seq::empty(), 0))
    } else {
        match take_batch_meta(bytes) {
            None => None,
            Some((b, k)) => match take_batch_list(bytes.skip(k as int), (n - 1) as nat) {
                None => None,
                Some((bs, m)) => Some((seq![b] + bs, k + m)),
            },
        }
    }
}

pub open spec fn take_column_meta(bytes: Seq<u8>) -> Option<(ColumnMetaV, nat)> {
    match take_u32_field(bytes) {
        None => None,
        Some((name_len, n0)) => {
            if bytes.len() < n0 + name_len {
                None
            } else {
                let name_bytes = bytes.subrange(n0 as int, n0 + name_len);
                if !valid_utf8(name_bytes) {
                    None
                } else {
                    let p1 = n0 + name_len as nat;
                    if bytes.len() < p1 + 1 {
                        None
                    } else {
                        let tb = bytes[p1 as int];
                        if tb != 0 && tb != 1 {
                            None
                        } else {
                            let ct = if tb == 0 {
                                ColumnType::Int64
                            } else {
                                ColumnType::Varchar
                            };
                            match take_usize_field(bytes.skip(p1 as int + 1)) {
                                None => None,
                                Some((tcs, m0)) => match take_usize_field(
                                    bytes.skip(p1 as int + 1 + m0),
                                ) {
                                    None => None,
                                    Some((tus, m1)) => match take_usize_field(
                                        bytes.skip(p1 as int + 1 + m0 + m1),
                                    ) {
                                        None => None,
                                        Some((trc, m2)) => match take_usize_field(
                                            bytes.skip(p1 as int + 1 + m0 + m1 + m2),
                                        ) {
                                            None => None,
                                            Some((bsz, m3)) => match take_u32_field(
                                                bytes.skip(p1 as int + 1 + m0 + m1 + m2 + m3),
                                            ) {
                                                None => None,
                                                Some((bcount, m4)) => match take_batch_list(
                                                    bytes.skip(p1 as int + 1 + m0 + m1 + m2 + m3 + m4),
                                                    bcount as nat,
                                                ) {
                                                    None => None,
                                                    Some((batches, m5)) => Some(
                                                        (
                                                            ColumnMetaV {
                                                                name: decode_utf8(name_bytes),
                                                                column_type: ct,
                                                                total_compressed_size: tcs,
                                                                total_uncompressed_size: tus,
                                                                total_row_count: trc,
                                                                batch_size: bsz,
                                                                batches,
                                                            },
                                                            p1 + 1 + m0 + m1 + m2 + m3 + m4 + m5,
                                                        ),
                                                    ),
                                                },
                                            },
                                        },
                                    },
                                },
                            }
                        }
                    }
                }
            }
        },
    }
}

pub open spec fn take_column_list(bytes: Seq<u8>, n: nat) -> Option<(Seq<ColumnMetaV>, nat)>
    decreases n,
{
    if n == 0 {
        Some((Seq::empty(), 0))
    } else {
        match take_column_meta(bytes) {
            None => None,
            Some((c, k)) => match take_column_list(bytes.skip(k as int), (n - 1) as nat) {
                None => None,
                Some((cs, m)) => Some((seq![c] + cs, k + m)),
            },
        }
    }
}

/// Parse a header: version, column count, row count, then that many column
/// descriptions.
pub open spec fn take_header(bytes: Seq<u8>) -> Option<(FileHeaderV, nat)> {
    match take_u32_field(bytes) {
        None => None,
        Some((version, n0)) => match take_u32_field(bytes.skip(n0 as int)) {
            None => None,
            Some((column_count, n1)) => {
                if bytes.len() < n0 + n1 + 8 {
                    None
                } else {
                    let row_count = spec_u64_from_le_bytes(
                        bytes.subrange(n0 + n1 as int, n0 + n1 as int + 8),
                    );
                    match take_column_list(bytes.skip(n0 + n1 as int + 8), column_count as nat) {
                        None => None,
                        Some((columns, m)) => Some(
                            (
                                FileHeaderV { version, column_count, row_count, columns },
                                n0 + n1 + 8 + m,
                            ),
                        ),
                    }
                }
            },
        },
    }
}

// ------------------------------------------------------------------
// header round trip
// ------------------------------------------------------------------

proof fn lemma_take_usize_field_of(v: usize, rest: Seq<u8>)
    ensures
        take_usize_field(spec_u64_field(v) + rest) == Some((v, 8nat)),
{
    lemma_auto_spec_u64_to_from_le_bytes();
    let all = spec_u64_field(v) + rest;
    assert(all.take(8) =~= spec_u64_field(v));
}

proof fn lemma_take_batch_meta_of(b: BatchMeta, rest: Seq<u8>)
    ensures
        take_batch_meta(spec_batch_meta_bytes(b) + rest) == Some((b, 32nat)),
{
    lemma_auto_spec_u64_to_from_le_bytes();
    let all = spec_batch_meta_bytes(b) + rest;
    let r1 = spec_u64_field(b.row_count) + spec_u64_field(b.compressed_size) + spec_u64_field(
        b.uncompressed_size,
    ) + rest;
    let r2 = spec_u64_field(b.compressed_size) + spec_u64_field(b.uncompressed_size) + rest;
    let r3 = spec_u64_field(b.uncompressed_size) + rest;
    assert(all =~= spec_u64_field(b.start_row) + r1);
    lemma_take_usize_field_of(b.start_row, r1);
    assert(all.skip(8) =~= r1);
    lemma_take_usize_field_of(b.row_count, r2);
    assert(r1 =~= spec_u64_field(b.row_count) + r2);
    assert(all.skip(16) =~= r2);
    lemma_take_usize_field_of(b.compressed_size, r3);
    assert(r2 =~= spec_u64_field(b.compressed_size) + r3);
    assert(all.skip(24) =~= r3);
    lemma_take_usize_field_of(b.uncompressed_size, rest);
    assert(r3 =~= spec_u64_field(b.uncompressed_size) + rest);
}

proof fn lemma_take_batch_list_of(bs: Seq<BatchMeta>, rest: Seq<u8>)
    ensures
        take_batch_list(spec_batch_list_bytes(bs) + rest, bs.len()) == Some(
            (bs, spec_batch_list_bytes(bs).len() as nat),
        ),
    decreases bs.len(),
{
    if bs.len() == 0 {
        assert(spec_batch_list_bytes(bs) =~= Seq::<u8>::empty());
        assert(Seq::<BatchMeta>::empty() =~= bs);
    } else {
        let head = bs[0];
        let tail = bs.drop_first();
        let all = spec_batch_list_bytes(bs) + rest;
        assert(all =~= spec_batch_meta_bytes(head) + (spec_batch_list_bytes(tail) + rest));
        lemma_take_batch_meta_of(head, spec_batch_list_bytes(tail) + rest);
        assert(spec_batch_meta_bytes(head).len() == 32) by {
            lemma_auto_spec_u64_to_from_le_bytes();
        }
        assert(all.skip(32) =~= spec_batch_list_bytes(tail) + rest);
        lemma_take_batch_list_of(tail, rest);
        assert(seq![head] + tail =~= bs);
        assert(spec_batch_list_bytes(bs).len() == 32 + spec_batch_list_bytes(tail).len());
    }
}

proof fn lemma_take_column_meta_of(c: ColumnMetaV, rest: Seq<u8>)
    requires
        encode_utf8(c.name).len() <= u32::MAX,
        c.batches.len() <= u32::MAX,
    ensures
        take_column_meta(spec_column_meta_bytes(c) + rest) == Some(
            (c, spec_column_meta_bytes(c).len() as nat),
        ),
{
    lemma_auto_spec_u32_to_from_le_bytes();
    lemma_auto_spec_u64_to_from_le_bytes();
    broadcast use vstd::utf8::encode_utf8_valid_utf8, vstd::utf8::encode_utf8_decode_utf8;

    let name_b = encode_utf8(c.name);
    let nl = name_b.len() as int;
    let all = spec_column_meta_bytes(c) + rest;
    assert(all.take(4) =~= spec_u32_to_le_bytes(nl as u32));
    assert(all.subrange(4, 4 + nl) =~= name_b);
    let p1 = 4 + nl;
    assert(all[p1] == spec_type_byte(c.column_type));
    let r0 = spec_u64_field(c.total_compressed_size) + (spec_u64_field(c.total_uncompressed_size)
        + (spec_u64_field(c.total_row_count) + (spec_u64_field(c.batch_size) + (
    spec_u32_to_le_bytes(c.batches.len() as u32) + (spec_batch_list_bytes(c.batches)
        + rest)))));
    assert(all.skip(p1 + 1) =~= r0);
    let r1 = spec_u64_field(c.total_uncompressed_size) + (spec_u64_field(c.total_row_count) + (
    spec_u64_field(c.batch_size) + (spec_u32_to_le_bytes(c.batches.len() as u32) + (
    spec_batch_list_bytes(c.batches) + rest))));
    let r2 = spec_u64_field(c.total_row_count) + (spec_u64_field(c.batch_size) + (
    spec_u32_to_le_bytes(c.batches.len() as u32) + (spec_batch_list_bytes(c.batches) + rest)));
    let r3 = spec_u64_field(c.batch_size) + (spec_u32_to_le_bytes(c.batches.len() as u32) + (
    spec_batch_list_bytes(c.batches) + rest));
    let r4 = spec_u32_to_le_bytes(c.batches.len() as u32) + (spec_batch_list_bytes(c.batches)
        + rest);
    let r5 = spec_batch_list_bytes(c.batches) + rest;
    lemma_take_usize_field_of(c.total_compressed_size, r1);
    lemma_take_usize_field_of(c.total_uncompressed_size, r2);
    lemma_take_usize_field_of(c.total_row_count, r3);
    lemma_take_usize_field_of(c.batch_size, r4);
    assert(all.skip(p1 + 1 + 8) =~= r1);
    assert(all.skip(p1 + 1 + 16) =~= r2);
    assert(all.skip(p1 + 1 + 24) =~= r3);
    assert(all.skip(p1 + 1 + 32) =~= r4);
    assert(all.skip(p1 + 1 + 36) =~= r5);
    assert(all.skip(p1 + 1 + 32).take(4) =~= spec_u32_to_le_bytes(c.batches.len() as u32));
    lemma_take_batch_list_of(c.batches, rest);
    assert(decode_utf8(name_b) == c.name);
    assert(take_column_meta(all) == Some(
        (c, (p1 + 1 + 8 + 8 + 8 + 8 + 4 + spec_batch_list_bytes(c.batches).len()) as nat),
    ));
}

#[verifier::rlimit(100)]
proof fn lemma_take_column_list_of(cs: Seq<ColumnMetaV>, rest: Seq<u8>)
    requires
        forall|i: int| 0 <= i < cs.len() ==> (#[trigger] encode_utf8(cs[i].name)).len()
            <= u32::MAX && cs[i].batches.len() <= u32::MAX,
    ensures
        take_column_list(spec_column_list_bytes(cs) + rest, cs.len()) == Some(
            (cs, spec_column_list_bytes(cs).len() as nat),
        ),
    decreases cs.len(),
{
    if cs.len() == 0 {
        assert(spec_column_list_bytes(cs) =~= Seq::<u8>::empty());
        assert(Seq::<ColumnMetaV>::empty() =~= cs);
    } else {
        let head = cs[0];
        let tail = cs.drop_first();
        let all = spec_column_list_bytes(cs) + rest;
        assert(all =~= spec_column_meta_bytes(head) + (spec_column_list_bytes(tail) + rest));
        lemma_take_column_meta_of(head, spec_column_list_bytes(tail) + rest);
        let k = spec_column_meta_bytes(head).len() as int;
        assert(all.skip(k) =~= spec_column_list_bytes(tail) + rest);
        assert(forall|i: int| 0 <= i < tail.len() ==> tail[i] == cs[i + 1]);
        lemma_take_column_list_of(tail, rest);
        assert(seq![head] + tail =~= cs);
        assert(spec_column_list_bytes(cs).len() == k + spec_column_list_bytes(tail).len());
    }
}

/// Parsing the encoding of a header, followed by anything, recovers the
/// header and consumes exactly the encoding.
pub proof fn lemma_take_header_of(h: FileHeaderV, rest: Seq<u8>)
    requires
        header_fits(h),
        h.column_count == h.columns.len(),
    ensures
        take_header(spec_header_bytes(h) + rest) == Some(
            (h, spec_header_bytes(h).len() as nat),
        ),
{
    lemma_auto_spec_u32_to_from_le_bytes();
    lemma_auto_spec_u64_to_from_le_bytes();
    let all = spec_header_bytes(h) + rest;
    assert(all.take(4) =~= spec_u32_to_le_bytes(h.version));
    assert(all.skip(4).take(4) =~= spec_u32_to_le_bytes(h.column_count));
    assert(all.subrange(8, 16) =~= spec_u64_to_le_bytes(h.row_count));
    assert(all.skip(16) =~= spec_column_list_bytes(h.columns) + rest);
    lemma_take_column_list_of(h.columns, rest);
}

} // verus!

verus! {

// ------------------------------------------------------------------
// executable header codec
// ------------------------------------------------------------------

proof fn lemma_batch_list_bytes_push(bs: Seq<BatchMeta>, b: BatchMeta)
    ensures
        spec_batch_list_bytes(bs.push(b)) == spec_batch_list_bytes(bs) + spec_batch_meta_bytes(b),
    decreases bs.len(),
{
    assert(bs.push(b)[0] == if bs.len() == 0 { b } else { bs[0] });
    if bs.len() == 0 {
        assert(bs.push(b).drop_first() =~= Seq::<BatchMeta>::empty());
        assert(spec_batch_list_bytes(Seq::<BatchMeta>::empty()) == Seq::<u8>::empty());
        assert(spec_batch_list_bytes(bs.push(b)) =~= spec_batch_list_bytes(bs)
            + spec_batch_meta_bytes(b));
    } else {
        assert(bs.push(b).drop_first() =~= bs.drop_first().push(b));
        lemma_batch_list_bytes_push(bs.drop_first(), b);
        assert(spec_batch_list_bytes(bs.push(b)) =~= spec_batch_list_bytes(bs)
            + spec_batch_meta_bytes(b));
    }
}

proof fn lemma_column_list_bytes_push(cs: Seq<ColumnMetaV>, c: ColumnMetaV)
    ensures
        spec_column_list_bytes(cs.push(c)) == spec_column_list_bytes(cs) + spec_column_meta_bytes(
            c,
        ),
    decreases cs.len(),
{
    assert(cs.push(c)[0] == if cs.len() == 0 { c } else { cs[0] });
    if cs.len() == 0 {
        assert(cs.push(c).drop_first() =~= Seq::<ColumnMetaV>::empty());
        assert(spec_column_list_bytes(Seq::<ColumnMetaV>::empty()) == Seq::<u8>::empty());
        assert(spec_column_list_bytes(cs.push(c)) =~= spec_column_list_bytes(cs)
            + spec_column_meta_bytes(c));
    } else {
        assert(cs.push(c).drop_first() =~= cs.drop_first().push(c));
        lemma_column_list_bytes_push(cs.drop_first(), c);
        assert(spec_column_list_bytes(cs.push(c)) =~= spec_column_list_bytes(cs)
            + spec_column_meta_bytes(c));
    }
}

fn push_u64_field(out: &mut Vec<u8>, v: usize)
    ensures
        final(out)@ == old(out)@ + spec_u64_field(v),
{
    let mut b: Vec<u8> = u64_to_le_bytes(v as u64);
    out.append(&mut b);
}

fn encode_batch_meta(out: &mut Vec<u8>, b: &BatchMeta)
    ensures
        final(out)@ == old(out)@ + spec_batch_meta_bytes(*b),
{
    push_u64_field(out, b.start_row);
    push_u64_field(out, b.row_count);
    push_u64_field(out, b.compressed_size);
    push_u64_field(out, b.uncompressed_size);
    proof {
        assert(final(out)@ =~= old(out)@ + spec_batch_meta_bytes(*b));
    }
}

/// Encode one column description.
#[verifier::rlimit(60)]
fn encode_column_meta(out: &mut Vec<u8>, cm: &ColumnMeta) -> (r: Result<(), DbError>)
    ensures
        (encode_utf8(cm@.name).len() <= u32::MAX && cm@.batches.len() <= u32::MAX) ==> (r is Ok
            && final(out)@ == old(out)@ + spec_column_meta_bytes(cm@)),
        !(encode_utf8(cm@.name).len() <= u32::MAX && cm@.batches.len() <= u32::MAX) ==> r is Err,
        r matches Err(e) ==> e.kind == ErrorKind::Io,
{
    let mut name_bytes: Vec<u8> = cm.name.as_str().as_bytes_vec();
    if name_bytes.len() > u32::MAX as usize {
        return Err(DbError::of(ErrorKind::Io, "column name too long for the u32 prefix"));
    }
    if cm.batches.len() > u32::MAX as usize {
        return Err(DbError::of(ErrorKind::Io, "too many batches for the u32 prefix"));
    }
    let mut lb: Vec<u8> = u32_to_le_bytes(name_bytes.len() as u32);
    out.append(&mut lb);
    out.append(&mut name_bytes);
    match cm.column_type {
        ColumnType::Int64 => out.push(0u8),
        ColumnType::Varchar => out.push(1u8),
    }
    push_u64_field(out, cm.total_compressed_size);
    push_u64_field(out, cm.total_uncompressed_size);
    push_u64_field(out, cm.total_row_count);
    push_u64_field(out, cm.batch_size);
    let mut bb: Vec<u8> = u32_to_le_bytes(cm.batches.len() as u32);
    out.append(&mut bb);
    let ghost before_batches: Seq<u8> = out@;
    let mut j: usize = 0;
    proof {
        assert(cm.batches@.take(0) =~= Seq::<BatchMeta>::empty());
        assert(out@ =~= before_batches + spec_batch_list_bytes(cm.batches@.take(0)));
    }
    while j < cm.batches.len()
        invariant
            j <= cm.batches@.len(),
            out@ == before_batches + spec_batch_list_bytes(cm.batches@.take(j as int)),
        decreases cm.batches@.len() - j,
    {
        encode_batch_meta(out, &cm.batches[j]);
        proof {
            lemma_batch_list_bytes_push(cm.batches@.take(j as int), cm.batches@[j as int]);
            assert(cm.batches@.take(j as int).push(cm.batches@[j as int]) =~= cm.batches@.take(
                j + 1,
            ));
        }
        j = j + 1;
    }
    proof {
        assert(cm.batches@.take(cm.batches@.len() as int) =~= cm.batches@);
        assert(out@ =~= old(out)@ + spec_column_meta_bytes(cm@));
    }
    Ok(())
}

/// Encode a header into its deterministic byte form.
#[verifier::rlimit(60)]
fn encode_header(h: &FileHeader) -> (r: Result<Vec<u8>, DbError>)
    ensures
        header_fits(h@) ==> (r matches Ok(v) && v@ == spec_header_bytes(h@)),
        !header_fits(h@) ==> r is Err,
        r matches Err(e) ==> e.kind == ErrorKind::Io,
{
    let mut out: Vec<u8> = Vec::new();
    let mut vb: Vec<u8> = u32_to_le_bytes(h.version);
    out.append(&mut vb);
    let mut cb: Vec<u8> = u32_to_le_bytes(h.column_count);
    out.append(&mut cb);
    let mut rb: Vec<u8> = u64_to_le_bytes(h.row_count);
    out.append(&mut rb);
    let ghost prefix: Seq<u8> = out@;
    let mut i: usize = 0;
    proof {
        assert(h@.columns.take(0) =~= Seq::<ColumnMetaV>::empty());
        assert(out@ =~= prefix + spec_column_list_bytes(h@.columns.take(0)));
    }
    while i < h.columns.len()
        invariant
            i <= h.columns@.len(),
            h@.columns.len() == h.columns@.len(),
            forall|k: int| 0 <= k < h.columns@.len() ==> h@.columns[k] == h.columns@[k]@,
            header_fits(h@) ==> out@ == prefix + spec_column_list_bytes(h@.columns.take(i as int)),
            forall|k: int| 0 <= k < i ==> (#[trigger] encode_utf8(h@.columns[k].name)).len()
                <= u32::MAX && h@.columns[k].batches.len() <= u32::MAX,
        decreases h.columns@.len() - i,
    {
        let cm: &ColumnMeta = &h.columns[i];
        match encode_column_meta(&mut out, cm) {
            Ok(_) => {
                proof {
                    assert(cm@ == h@.columns[i as int]);
                    assert(encode_utf8(h@.columns[i as int].name).len() <= u32::MAX
                        && h@.columns[i as int].batches.len() <= u32::MAX);
                    if header_fits(h@) {
                        let hci = h@.columns[i as int];
                        lemma_column_list_bytes_push(h@.columns.take(i as int), hci);
                        assert(h@.columns.take(i as int).push(h@.columns[i as int])
                            =~= h@.columns.take(i + 1));
                        assert(out@ =~= prefix + spec_column_list_bytes(h@.columns.take(i + 1)));
                    }
                }
            },
            Err(e) => {
                return Err(e);
            },
        }
        proof {
            assert forall|k: int| 0 <= k < i + 1 implies (#[trigger] encode_utf8(
                h@.columns[k].name,
            )).len() <= u32::MAX && h@.columns[k].batches.len() <= u32::MAX by {
                if k == i {
                    assert(encode_utf8(h@.columns[k].name).len() <= u32::MAX);
                }
            }
        }
        i = i + 1;
    }
    proof {
        if header_fits(h@) {
            assert(h@.columns.take(h@.columns.len() as int) =~= h@.columns);
            assert(out@ =~= spec_header_bytes(h@));
        }
    }
    Ok(out)
}

fn read_usize_field(bytes: &[u8], pos: usize) -> (r: Result<usize, DbError>)
    requires
        pos <= bytes@.len(),
    ensures
        match take_usize_field(bytes@.skip(pos as int)) {
            Some((v, n)) => r matches Ok(x) && x == v && n == 8 && pos + 8 <= bytes@.len(),
            None => r matches Err(e) && e.kind == ErrorKind::Corrupt,
        },
{
    let ghost rem = bytes@.skip(pos as int);
    if bytes.len() - pos < 8 {
        return Err(DbError::of(ErrorKind::Corrupt, "truncated header field"));
    }
    let field: &[u8] = slice_subrange(bytes, pos, pos + 8);
    proof {
        assert(field@ =~= rem.take(8));
    }
    let v: u64 = u64_from_le_bytes(field);
    if v > usize::MAX as u64 {
        return Err(DbError::of(ErrorKind::Corrupt, "header field does not fit this platform"));
    }
    Ok(v as usize)
}

fn read_u32_field(bytes: &[u8], pos: usize) -> (r: Result<u32, DbError>)
    requires
        pos <= bytes@.len(),
    ensures
        match take_u32_field(bytes@.skip(pos as int)) {
            Some((v, n)) => r matches Ok(x) && x == v && n == 4 && pos + 4 <= bytes@.len(),
            None => r matches Err(e) && e.kind == ErrorKind::Corrupt,
        },
{
    let ghost rem = bytes@.skip(pos as int);
    if bytes.len() - pos < 4 {
        return Err(DbError::of(ErrorKind::Corrupt, "truncated header field"));
    }
    let field: &[u8] = slice_subrange(bytes, pos, pos + 4);
    proof {
        assert(field@ =~= rem.take(4));
    }
    Ok(u32_from_le_bytes(field))
}

fn parse_batch_meta(bytes: &[u8], pos: usize) -> (r: Result<(BatchMeta, usize), DbError>)
    requires
        pos <= bytes@.len(),
    ensures
        match take_batch_meta(bytes@.skip(pos as int)) {
            Some((b, n)) => r matches Ok(p) && p.0 == b && p.1 == n && pos + n <= bytes@.len(),
            None => r matches Err(e) && e.kind == ErrorKind::Corrupt,
        },
{
    let ghost rem = bytes@.skip(pos as int);
    let blen: usize = bytes.len();
    proof {
        assert(bytes@.len() == blen);
    }
    let start_row: usize = read_usize_field(bytes, pos)?;
    proof {
        assert(rem.skip(8) =~= bytes@.skip(pos + 8));
    }
    let row_count: usize = read_usize_field(bytes, pos + 8)?;
    proof {
        assert(rem.skip(16) =~= bytes@.skip(pos + 16));
    }
    let compressed_size: usize = read_usize_field(bytes, pos + 16)?;
    proof {
        assert(rem.skip(24) =~= bytes@.skip(pos + 24));
    }
    let uncompressed_size: usize = read_usize_field(bytes, pos + 24)?;
    Ok((BatchMeta { start_row, row_count, compressed_size, uncompressed_size }, 32))
}

} // verus!

verus! {

fn parse_batch_list(bytes: &[u8], pos0: usize, n: usize) -> (r: Result<
    (Vec<BatchMeta>, usize),
    DbError,
>)
    requires
        pos0 <= bytes@.len(),
    ensures
        match take_batch_list(bytes@.skip(pos0 as int), n as nat) {
            Some((bs, m)) => r matches Ok(p) && p.0@ == bs && p.1 == m && pos0 + m
                <= bytes@.len(),
            None => r matches Err(e) && e.kind == ErrorKind::Corrupt,
        },
{
    let blen: usize = bytes.len();
    proof {
        assert(bytes@.len() == blen);
    }
    let mut acc: Vec<BatchMeta> = Vec::new();
    let mut pos: usize = pos0;
    let mut i: usize = 0;
    proof {
        if take_batch_list(bytes@.skip(pos0 as int), n as nat) is Some {
            let (bs, m) = take_batch_list(bytes@.skip(pos0 as int), n as nat).unwrap();
            assert(acc@ + bs =~= bs);
        }
    }
    while i < n
        invariant
            i <= n,
            pos0 <= pos <= bytes@.len(),
            bytes@.len() <= usize::MAX,
            acc@.len() == i,
            match take_batch_list(bytes@.skip(pos as int), (n - i) as nat) {
                Some((bs, m)) => take_batch_list(bytes@.skip(pos0 as int), n as nat) == Some(
                    (acc@ + bs, ((pos - pos0) + m) as nat),
                ),
                None => take_batch_list(bytes@.skip(pos0 as int), n as nat) is None,
            },
        decreases n - i,
    {
        match parse_batch_meta(bytes, pos) {
            Err(e) => {
                proof {
                    assert(take_batch_list(bytes@.skip(pos as int), (n - i) as nat) is None);
                }
                return Err(e);
            },
            Ok((b, k)) => {
                proof {
                    let rem = bytes@.skip(pos as int);
                    assert(rem.skip(k as int) =~= bytes@.skip(pos + k));
                    match take_batch_list(bytes@.skip(pos + k), (n - i - 1) as nat) {
                        Some((bs2, m2)) => {
                            assert(take_batch_list(rem, (n - i) as nat) == Some(
                                (seq![b] + bs2, (k + m2) as nat),
                            ));
                            assert(acc@ + (seq![b] + bs2) =~= acc@.push(b) + bs2);
                        },
                        None => {
                            assert(take_batch_list(rem, (n - i) as nat) is None);
                        },
                    }
                }
                acc.push(b);
                pos = pos + k;
                i = i + 1;
            },
        }
    }
    proof {
        assert(take_batch_list(bytes@.skip(pos as int), 0) == Some((Seq::<BatchMeta>::empty(), 0nat)));
        assert(acc@ + Seq::<BatchMeta>::empty() =~= acc@);
    }
    Ok((acc, pos - pos0))
}

#[verifier::rlimit(80)]
fn parse_column_meta(bytes: &[u8], pos: usize) -> (r: Result<(ColumnMeta, usize), DbError>)
    requires
        pos <= bytes@.len(),
    ensures
        match take_column_meta(bytes@.skip(pos as int)) {
            Some((cv, m)) => r matches Ok(p) && p.0@ == cv && p.1 == m && pos + m
                <= bytes@.len(),
            None => r matches Err(e) && e.kind == ErrorKind::Corrupt,
        },
{
    let ghost rem = bytes@.skip(pos as int);
    let blen: usize = bytes.len();
    proof {
        assert(bytes@.len() == blen);
    }
    let name_len32: u32 = read_u32_field(bytes, pos)?;
    let name_len: usize = name_len32 as usize;
    if name_len > blen - (pos + 4) {
        proof {
            assert(take_column_meta(rem) is None);
        }
        return Err(DbError::of(ErrorKind::Corrupt, "truncated column name"));
    }
    let name_slice: &[u8] = slice_subrange(bytes, pos + 4, pos + 4 + name_len);
    proof {
        assert(name_slice@ =~= rem.subrange(4, 4 + name_len as int));
    }
    let name: String = match string_from_utf8(slice_to_vec(name_slice)) {
        Some(s) => s,
        None => {
            proof {
                assert(take_column_meta(rem) is None);
            }
            return Err(DbError::of(ErrorKind::Corrupt, "column name is not valid UTF-8"));
        },
    };
    let p1: usize = pos + 4 + name_len;
    if blen - p1 < 1 {
        proof {
            assert(rem.len() < 4 + name_len as int + 1);
            assert(take_column_meta(rem) is None);
        }
        return Err(DbError::of(ErrorKind::Corrupt, "truncated column type"));
    }
    let tb: u8 = bytes[p1];
    proof {
        assert(tb == rem[4 + name_len as int]);
    }
    let column_type: ColumnType = if tb == 0 {
        ColumnType::Int64
    } else if tb == 1 {
        ColumnType::Varchar
    } else {
        proof {
            assert(take_column_meta(rem) is None);
        }
        return Err(DbError::of(ErrorKind::Corrupt, "unknown column type"));
    };
    proof {
        assert(rem.skip(4 + name_len as int + 1) =~= bytes@.skip(p1 + 1));
    }
    let total_compressed_size: usize = read_usize_field(bytes, p1 + 1)?;
    proof {
        assert(rem.skip(4 + name_len as int + 1 + 8) =~= bytes@.skip(p1 + 9));
    }
    let total_uncompressed_size: usize = read_usize_field(bytes, p1 + 9)?;
    proof {
        assert(rem.skip(4 + name_len as int + 1 + 16) =~= bytes@.skip(p1 + 17));
    }
    let total_row_count: usize = read_usize_field(bytes, p1 + 17)?;
    proof {
        assert(rem.skip(4 + name_len as int + 1 + 24) =~= bytes@.skip(p1 + 25));
    }
    let batch_size: usize = read_usize_field(bytes, p1 + 25)?;
    proof {
        assert(rem.skip(4 + name_len as int + 1 + 32) =~= bytes@.skip(p1 + 33));
    }
    let bcount32: u32 = read_u32_field(bytes, p1 + 33)?;
    proof {
        assert(rem.skip(4 + name_len as int + 1 + 36) =~= bytes@.skip(p1 + 37));
    }
    let (batches, bl_consumed): (Vec<BatchMeta>, usize) = parse_batch_list(
        bytes,
        p1 + 37,
        bcount32 as usize,
    )?;
    let cm = ColumnMeta {
        name,
        column_type,
        total_compressed_size,
        total_uncompressed_size,
        total_row_count,
        batch_size,
        batches,
    };
    let consumed: usize = 4 + name_len + 1 + 36 + bl_consumed;
    proof {
        let tcm = take_column_meta(rem);
        assert(tcm matches Some(p) && p.0 == cm@ && p.1 == consumed);
    }
    Ok((cm, consumed))
}

fn parse_column_list(bytes: &[u8], pos0: usize, n: usize) -> (r: Result<
    (Vec<ColumnMeta>, usize),
    DbError,
>)
    requires
        pos0 <= bytes@.len(),
    ensures
        match take_column_list(bytes@.skip(pos0 as int), n as nat) {
            Some((cs, m)) => r matches Ok(p) && p.0@.map_values(|c: ColumnMeta| c.view()) == cs
                && p.1 == m && pos0 + m <= bytes@.len(),
            None => r matches Err(e) && e.kind == ErrorKind::Corrupt,
        },
{
    let blen: usize = bytes.len();
    proof {
        assert(bytes@.len() == blen);
    }
    let mut acc: Vec<ColumnMeta> = Vec::new();
    let mut pos: usize = pos0;
    let mut i: usize = 0;
    proof {
        assert(acc@.map_values(|c: ColumnMeta| c.view()) =~= Seq::<ColumnMetaV>::empty());
        if take_column_list(bytes@.skip(pos0 as int), n as nat) is Some {
            let (cs, m) = take_column_list(bytes@.skip(pos0 as int), n as nat).unwrap();
            assert(acc@.map_values(|c: ColumnMeta| c.view()) + cs =~= cs);
        }
    }
    while i < n
        invariant
            i <= n,
            pos0 <= pos <= bytes@.len(),
            bytes@.len() <= usize::MAX,
            acc@.len() == i,
            match take_column_list(bytes@.skip(pos as int), (n - i) as nat) {
                Some((cs, m)) => take_column_list(bytes@.skip(pos0 as int), n as nat) == Some(
                    (acc@.map_values(|c: ColumnMeta| c.view()) + cs, ((pos - pos0) + m) as nat),
                ),
                None => take_column_list(bytes@.skip(pos0 as int), n as nat) is None,
            },
        decreases n - i,
    {
        match parse_column_meta(bytes, pos) {
            Err(e) => {
                proof {
                    assert(take_column_list(bytes@.skip(pos as int), (n - i) as nat) is None);
                }
                return Err(e);
            },
            Ok((c, k)) => {
                proof {
                    let rem = bytes@.skip(pos as int);
                    assert(rem.skip(k as int) =~= bytes@.skip(pos + k));
                    match take_column_list(bytes@.skip(pos + k), (n - i - 1) as nat) {
                        Some((cs2, m2)) => {
                            assert(take_column_list(rem, (n - i) as nat) == Some(
                                (seq![c@] + cs2, (k + m2) as nat),
                            ));
                            assert(acc@.push(c).map_values(|cc: ColumnMeta| cc.view())
                                =~= acc@.map_values(|cc: ColumnMeta| cc.view()).push(c@));
                            assert(acc@.map_values(|cc: ColumnMeta| cc.view()) + (seq![c@] + cs2)
                                =~= acc@.map_values(|cc: ColumnMeta| cc.view()).push(c@) + cs2);
                        },
                        None => {
                            assert(take_column_list(rem, (n - i) as nat) is None);
                        },
                    }
                }
                acc.push(c);
                pos = pos + k;
                i = i + 1;
            },
        }
    }
    proof {
        assert(take_column_list(bytes@.skip(pos as int), 0) == Some(
            (Seq::<ColumnMetaV>::empty(), 0nat),
        ));
        assert(acc@.map_values(|c: ColumnMeta| c.view()) + Seq::<ColumnMetaV>::empty()
            =~= acc@.map_values(|c: ColumnMeta| c.view()));
    }
    Ok((acc, pos - pos0))
}

/// Parse a header from the front of `bytes`, returning it and the number of
/// bytes consumed.
pub fn parse_header(bytes: &[u8]) -> (r: Result<(FileHeader, usize), DbError>)
    ensures
        match take_header(bytes@) {
            Some((hv, m)) => r matches Ok(p) && p.0@ == hv && p.1 == m && m <= bytes@.len(),
            None => r matches Err(e) && e.kind == ErrorKind::Corrupt,
        },
{
    let blen: usize = bytes.len();
    proof {
        assert(bytes@.len() == blen);
        assert(bytes@.skip(0) =~= bytes@);
    }
    let version: u32 = read_u32_field(bytes, 0)?;
    proof {
        assert(bytes@.skip(0).skip(4) =~= bytes@.skip(4));
    }
    let column_count: u32 = read_u32_field(bytes, 4)?;
    if blen - 8 < 8 {
        proof {
            assert(take_header(bytes@) is None);
        }
        return Err(DbError::of(ErrorKind::Corrupt, "truncated header"));
    }
    let rc_slice: &[u8] = slice_subrange(bytes, 8, 16);
    proof {
        assert(rc_slice@ =~= bytes@.subrange(8, 16));
    }
    let row_count: u64 = u64_from_le_bytes(rc_slice);
    proof {
        assert(bytes@.skip(0).skip(16) =~= bytes@.skip(16));
    }
    let (columns, m): (Vec<ColumnMeta>, usize) = parse_column_list(
        bytes,
        16,
        column_count as usize,
    )?;
    let h = FileHeader { version, column_count, row_count, columns };
    proof {
        let th = take_header(bytes@);
        assert(th matches Some(p) && p.0 == h@ && p.1 == 16 + m);
    }
    Ok((h, 16 + m))
}

} // verus!

verus! {

// ------------------------------------------------------------------
// payload layout
// ------------------------------------------------------------------

pub open spec fn colv_len(c: ColumnDataV) -> nat {
    match c {
        ColumnDataV::Int64(v) => v.len(),
        ColumnDataV::Varchar(s) => s.len(),
    }
}

pub open spec fn colv_type(c: ColumnDataV) -> ColumnType {
    match c {
        ColumnDataV::Int64(_) => ColumnType::Int64,
        ColumnDataV::Varchar(_) => ColumnType::Varchar,
    }
}

/// The codec output for one batch of a column: rows `[start, start+count)`.
/// An empty batch has an empty image.
pub open spec fn spec_batch_image(c: ColumnDataV, start: int, count: int) -> Seq<u8> {
    if count == 0 {
        Seq::empty()
    } else {
        match c {
            ColumnDataV::Int64(v) => zstd_of(spec_encode_int64(v.subrange(start, start + count))),
            ColumnDataV::Varchar(ss) => lz4_of(
                spec_varchar_records(ss.subrange(start, start + count)),
            ),
        }
    }
}

pub open spec fn sat_cap_usize(x: int) -> usize {
    if x > usize::MAX {
        usize::MAX
    } else if x < 0 {
        0
    } else {
        x as usize
    }
}

/// The uncompressed size of a varchar record stream: four prefix bytes plus
/// the UTF-8 length for each string, saturating at the platform limit.
pub open spec fn spec_varchar_uncomp(ss: Seq<Seq<char>>) -> usize
    decreases ss.len(),
{
    if ss.len() == 0 {
        0
    } else {
        sat_cap_usize(
            spec_varchar_uncomp(ss.drop_last()) + 4 + (encode_utf8(ss.last()).len() as usize),
        )
    }
}

/// The uncompressed size of one batch: eight bytes per int64 row, or the
/// length-prefixed record stream size for varchar rows.
pub open spec fn spec_batch_uncomp(c: ColumnDataV, start: int, count: int) -> usize {
    match c {
        ColumnDataV::Int64(_) => sat_cap_usize(8 * count),
        ColumnDataV::Varchar(ss) => spec_varchar_uncomp(ss.subrange(start, start + count)),
    }
}

pub open spec fn spec_batch_meta_of(c: ColumnDataV, start: int, count: int) -> BatchMeta {
    BatchMeta {
        start_row: start as usize,
        row_count: count as usize,
        compressed_size: spec_batch_image(c, start, count).len() as usize,
        uncompressed_size: spec_batch_uncomp(c, start, count),
    }
}

/// The batch metadata of a column from row `start` on: batches are cut every
/// `bs` rows; a final short batch covers the residual, and a column of at
/// most `bs` rows is a single batch.
pub open spec fn spec_batches_from(c: ColumnDataV, start: int, bs: int) -> Seq<BatchMeta>
    decreases colv_len(c) - start,
    when 1 <= bs && 0 <= start <= colv_len(c)
{
    if colv_len(c) - start <= bs {
        seq![spec_batch_meta_of(c, start, colv_len(c) - start)]
    } else {
        seq![spec_batch_meta_of(c, start, bs)] + spec_batches_from(c, start + bs, bs)
    }
}

/// The payload bytes of a column from row `start` on.
pub open spec fn spec_col_payload_from(c: ColumnDataV, start: int, bs: int) -> Seq<u8>
    decreases colv_len(c) - start,
    when 1 <= bs && 0 <= start <= colv_len(c)
{
    if colv_len(c) - start <= bs {
        spec_batch_image(c, start, colv_len(c) - start)
    } else {
        spec_batch_image(c, start, bs) + spec_col_payload_from(c, start + bs, bs)
    }
}

/// The total uncompressed size of a column from row `start` on, accumulated
/// with saturation into `acc`.
pub open spec fn spec_total_uncomp_from(c: ColumnDataV, start: int, bs: int, acc: usize) -> usize
    decreases colv_len(c) - start,
    when 1 <= bs && 0 <= start <= colv_len(c)
{
    if colv_len(c) - start <= bs {
        sat_cap_usize(acc + spec_batch_uncomp(c, start, colv_len(c) - start))
    } else {
        spec_total_uncomp_from(c, start + bs, bs, sat_cap_usize(acc + spec_batch_uncomp(c, start, bs)))
    }
}

/// The column metadata the writer produces for one column.
pub open spec fn spec_column_meta_of(name: Seq<char>, c: ColumnDataV, bs: int) -> ColumnMetaV {
    ColumnMetaV {
        name,
        column_type: colv_type(c),
        total_compressed_size: spec_col_payload_from(c, 0, bs).len() as usize,
        total_uncompressed_size: spec_total_uncomp_from(c, 0, bs, 0),
        total_row_count: colv_len(c) as usize,
        batch_size: bs as usize,
        batches: spec_batches_from(c, 0, bs),
    }
}

/// The header the writer produces for a table.
pub open spec fn spec_file_header_of(t: Table, bs: int) -> FileHeaderV {
    FileHeaderV {
        version: FORMAT_VERSION,
        column_count: t.columns@.len() as u32,
        row_count: t.row_count as u64,
        columns: t.columns@.map_values(
            |p: (String, ColumnData)| spec_column_meta_of(p.0@, col_view(p.1), bs),
        ),
    }
}

/// The payload: each column's batches in header order.
pub open spec fn spec_payload_of(cols: Seq<(String, ColumnData)>, bs: int) -> Seq<u8>
    decreases cols.len(),
{
    if cols.len() == 0 {
        Seq::empty()
    } else {
        spec_col_payload_from(col_view(cols[0].1), 0, bs) + spec_payload_of(
            cols.drop_first(),
            bs,
        )
    }
}

proof fn lemma_payload_of_push(cols: Seq<(String, ColumnData)>, p: (String, ColumnData), bs: int)
    ensures
        spec_payload_of(cols.push(p), bs) == spec_payload_of(cols, bs) + spec_col_payload_from(
            col_view(p.1),
            0,
            bs,
        ),
    decreases cols.len(),
{
    assert(cols.push(p)[0] == if cols.len() == 0 { p } else { cols[0] });
    if cols.len() == 0 {
        assert(cols.push(p).drop_first() =~= Seq::<(String, ColumnData)>::empty());
        assert(spec_payload_of(Seq::<(String, ColumnData)>::empty(), bs) == Seq::<u8>::empty());
        assert(spec_payload_of(cols.push(p), bs) =~= spec_payload_of(cols, bs)
            + spec_col_payload_from(col_view(p.1), 0, bs));
    } else {
        assert(cols.push(p).drop_first() =~= cols.drop_first().push(p));
        lemma_payload_of_push(cols.drop_first(), p, bs);
        assert(spec_payload_of(cols.push(p), bs) =~= spec_payload_of(cols, bs)
            + spec_col_payload_from(col_view(p.1), 0, bs));
    }
}

/// The exact bytes a serialized table consists of: the magic, the header
/// length as a little-endian u32, the header bytes, and the payload.
pub open spec fn spec_file_bytes(t: Table, bs: int) -> Seq<u8> {
    let hb = spec_header_bytes(spec_file_header_of(t, bs));
    spec_magic() + spec_u32_to_le_bytes(hb.len() as u32) + hb + spec_payload_of(t.columns@, bs)
}

/// Whether one batch's rows can be framed by the varchar codec.
pub open spec fn batch_chunk_fits(c: ColumnDataV, start: int, count: int) -> bool {
    match c {
        ColumnDataV::Int64(_) => true,
        ColumnDataV::Varchar(ss) => varchar_fits(ss.subrange(start, start + count)),
    }
}

/// Every batch of a varchar column fits the u32 framing.
pub open spec fn varchar_batches_fit(ss: Seq<Seq<char>>, start: int, bs: int) -> bool
    decreases ss.len() - start,
    when 1 <= bs && 0 <= start <= ss.len()
{
    if ss.len() - start <= bs {
        varchar_fits(ss.subrange(start, ss.len() as int))
    } else {
        varchar_fits(ss.subrange(start, start + bs)) && varchar_batches_fit(ss, start + bs, bs)
    }
}

pub open spec fn col_fits(c: ColumnDataV, bs: int) -> bool {
    match c {
        ColumnDataV::Int64(_) => true,
        ColumnDataV::Varchar(ss) => varchar_batches_fit(ss, 0, bs),
    }
}

/// Whether a table can be framed at all: the column count, the header and
/// every varchar batch fit their length prefixes.  Everything `serialize`
/// accepts satisfies this.
pub open spec fn serializable(t: Table, bs: int) -> bool {
    &&& t.columns@.len() <= u32::MAX
    &&& header_fits(spec_file_header_of(t, bs))
    &&& spec_header_bytes(spec_file_header_of(t, bs)).len() <= u32::MAX
    &&& forall|i: int| 0 <= i < t.columns@.len() ==> col_fits(
        col_view(#[trigger] t.columns@[i].1),
        bs,
    )
}

/// Batch independence: a batch over rows `[0, k)` produced by the chunked
/// writer is decoded from its own bytes alone, without any later batch.
pub proof fn lemma_batch_independence(xs: Seq<i64>, k: int)
    requires
        0 < k < xs.len(),
    ensures
        spec_decode_int64(spec_encode_int64(xs.subrange(0, k)), k as nat) == Some(
            xs.subrange(0, k),
        ),
{
    lemma_int64_codec_roundtrip(xs.subrange(0, k));
}

// ------------------------------------------------------------------
// serialization
// ------------------------------------------------------------------

fn sat_add_usize(a: usize, b: usize) -> (r: usize)
    ensures
        r == sat_cap_usize(a + b),
{
    if a > usize::MAX - b {
        usize::MAX
    } else {
        a + b
    }
}

/// Compress one batch of a column, returning its bytes and its uncompressed
/// size.
fn compress_batch(data: &ColumnData, start: usize, count: usize) -> (r: Result<
    (Vec<u8>, usize),
    DbError,
>)
    requires
        start + count <= col_len(*data),
        count <= MAX_BATCH_SIZE,
    ensures
        r matches Ok(p) ==> p.0@ == spec_batch_image(col_view(*data), start as int, count as int)
            && p.1 == spec_batch_uncomp(col_view(*data), start as int, count as int)
            && batch_chunk_fits(col_view(*data), start as int, count as int),
        batch_chunk_fits(col_view(*data), start as int, count as int) ==> r is Ok,
        r matches Err(e) ==> e.kind == ErrorKind::Io,
{
    match data {
        ColumnData::Int64(v) => {
            let vl: usize = v.len();
            proof {
                assert(v@.len() == vl);
            }
            let part: &[i64] = slice_subrange(v.as_slice(), start, start + count);
            let blob: Vec<u8> = compress_int64_column(part)?;
            Ok((blob, count * 8))
        },
        ColumnData::Varchar(v) => {
            let vl: usize = v.len();
            proof {
                assert(v@.len() == vl);
            }
            let part: &[String] = slice_subrange(v.as_slice(), start, start + count);
            let ghost ss = strs_view(v@).subrange(start as int, start as int + count as int);
            proof {
                assert(strs_view(part@) =~= ss);
            }
            let blob: Vec<u8> = compress_varchar_column(part)?;
            proof {
                if count == 0 {
                    assert(spec_varchar_records(ss) == Seq::<u8>::empty());
                    assert(varchar_fits(ss));
                }
            }
            let mut uncomp: usize = 0;
            let mut k: usize = 0;
            proof {
                assert(ss.subrange(0, 0) =~= Seq::<Seq<char>>::empty());
            }
            while k < count
                invariant
                    k <= count,
                    count == part@.len(),
                    ss == strs_view(part@),
                    uncomp == spec_varchar_uncomp(ss.subrange(0, k as int)),
                decreases count - k,
            {
                let bl: usize = part[k].as_str().len();
                uncomp = sat_add_usize(uncomp, sat_add_usize(4, bl));
                proof {
                    let t1 = ss.subrange(0, k + 1);
                    assert(t1.drop_last() =~= ss.subrange(0, k as int));
                    assert(t1.last() == part@[k as int]@);
                    assert(sat_cap_usize(
                        spec_varchar_uncomp(ss.subrange(0, k as int)) + sat_cap_usize(4 + bl),
                    ) == sat_cap_usize(
                        spec_varchar_uncomp(ss.subrange(0, k as int)) + 4 + bl,
                    ));
                }
                k = k + 1;
            }
            proof {
                assert(ss.subrange(0, count as int) =~= ss);
            }
            Ok((blob, uncomp))
        },
    }
}

impl Table {
    /// Serialize the table into the file format with the default batch size.
    pub fn serialize(&self) -> (r: Result<Vec<u8>, DbError>)
        requires
            self.well_formed(),
        ensures
            r matches Ok(v) ==> v@ == spec_file_bytes(*self, DEFAULT_BATCH_SIZE as int),
            r is Ok <==> serializable(*self, DEFAULT_BATCH_SIZE as int),
            r matches Err(e) ==> e.kind == ErrorKind::Io,
    {
        let config = BatchConfig::default();
        self.serialize_with_config(&config)
    }

    /// Serialize the table into the file format.  Succeeds exactly when the
    /// table can be framed (no oversized name, batch list, header, or
    /// varchar batch), and then the returned bytes are exactly `MAGIC ||
    /// u32_le(HEADER_LEN) || HEADER_BYTES || PAYLOAD` with `HEADER_LEN` the
    /// actual header length.
    #[verifier::rlimit(100)]
    pub fn serialize_with_config(&self, config: &BatchConfig) -> (r: Result<Vec<u8>, DbError>)
        requires
            self.well_formed(),
            config.valid(),
        ensures
            r matches Ok(v) ==> v@ == spec_file_bytes(*self, config.batch_size as int),
            r is Ok <==> serializable(*self, config.batch_size as int),
            r matches Err(e) ==> e.kind == ErrorKind::Io,
    {
        let bs: usize = config.batch_size;
        if self.columns.len() > u32::MAX as usize {
            proof {
                assert(!serializable(*self, bs as int));
            }
            return Err(DbError::of(ErrorKind::Io, "too many columns for the u32 count"));
        }
        let ghost gbs: int = bs as int;
        let mut metas: Vec<ColumnMeta> = Vec::new();
        let mut payload: Vec<u8> = Vec::new();
        let mut ci: usize = 0;
        proof {
            assert(metas@.map_values(|c: ColumnMeta| c.view()) =~= spec_file_header_of(
                *self,
                gbs,
            ).columns.take(0));
            assert(self.columns@.take(0) =~= Seq::<(String, ColumnData)>::empty());
            assert(payload@ =~= spec_payload_of(self.columns@.take(0), gbs));
        }
        while ci < self.columns.len()
            invariant
                self.well_formed(),
                ci <= self.columns@.len(),
                1 <= bs,
                bs <= MAX_BATCH_SIZE,
                bs == config.batch_size,
                gbs == bs as int,
                metas@.map_values(|c: ColumnMeta| c.view()) == spec_file_header_of(
                    *self,
                    gbs,
                ).columns.take(ci as int),
                payload@ == spec_payload_of(self.columns@.take(ci as int), gbs),
                forall|k: int| 0 <= k < ci ==> col_fits(
                    col_view(#[trigger] self.columns@[k].1),
                    gbs,
                ),
            decreases self.columns@.len() - ci,
        {
            let name: String = self.columns[ci].0.clone();
            let data: &ColumnData = &self.columns[ci].1;
            let ghost cv = col_view(*data);
            let rows: usize = data.len();
            let col_start: usize = payload.len();
            let ghost col_base: Seq<u8> = payload@;
            let mut batches: Vec<BatchMeta> = Vec::new();
            let mut uncomp_total: usize = 0;
            let mut start: usize = 0;
            proof {
                assert(colv_len(cv) == col_len(*data));
            }
            loop
                invariant_except_break
                    0 <= start <= rows,
                    rows == colv_len(cv),
                    1 <= bs <= MAX_BATCH_SIZE,
                    bs == config.batch_size,
                    gbs == bs as int,
                    cv == col_view(*data),
                    ci < self.columns@.len(),
                    cv == col_view(self.columns@[ci as int].1),
                    (cv matches ColumnDataV::Varchar(fss) && varchar_batches_fit(fss, 0, gbs))
                        ==> (cv matches ColumnDataV::Varchar(ss2) && varchar_batches_fit(
                        ss2,
                        start as int,
                        gbs,
                    )),
                    batches@ + spec_batches_from(cv, start as int, gbs) == spec_batches_from(
                        cv,
                        0,
                        gbs,
                    ),
                    payload@ + spec_col_payload_from(cv, start as int, gbs) == col_base
                        + spec_col_payload_from(cv, 0, gbs),
                    spec_total_uncomp_from(cv, start as int, gbs, uncomp_total)
                        == spec_total_uncomp_from(cv, 0, gbs, 0),
                    (cv matches ColumnDataV::Varchar(ss) && varchar_batches_fit(
                        ss,
                        start as int,
                        gbs,
                    )) ==> col_fits(cv, gbs),
                ensures
                    batches@ == spec_batches_from(cv, 0, gbs),
                    col_fits(cv, gbs),
                    payload@ == col_base + spec_col_payload_from(cv, 0, gbs),
                    uncomp_total == spec_total_uncomp_from(cv, 0, gbs, 0),
                    cv == col_view(*data),
                    rows == colv_len(cv),
                decreases rows - start,
            {
                let rem: usize = rows - start;
                let count: usize = if rem <= bs {
                    rem
                } else {
                    bs
                };
                let (mut blob, bu): (Vec<u8>, usize) = match compress_batch(data, start, count) {
                    Ok(p) => p,
                    Err(e) => {
                        proof {
                            if serializable(*self, gbs) {
                                assert(col_fits(col_view(self.columns@[ci as int].1), gbs));
                                match cv {
                                    ColumnDataV::Varchar(ss) => {
                                        assert(varchar_batches_fit(ss, start as int, gbs));
                                        if rem <= bs {
                                            assert(ss.subrange(
                                                start as int,
                                                start as int + count as int,
                                            ) =~= ss.subrange(start as int, ss.len() as int));
                                        }
                                        assert(batch_chunk_fits(cv, start as int, count as int));
                                    },
                                    ColumnDataV::Int64(_) => {
                                        assert(batch_chunk_fits(cv, start as int, count as int));
                                    },
                                }
                                assert(false);
                            }
                        }
                        return Err(e);
                    },
                };
                batches.push(
                    BatchMeta {
                        start_row: start,
                        row_count: count,
                        compressed_size: blob.len(),
                        uncompressed_size: bu,
                    },
                );
                let ghost blob_view: Seq<u8> = blob@;
                payload.append(&mut blob);
                let new_total: usize = sat_add_usize(uncomp_total, bu);
                proof {
                    assert(BatchMeta {
                        start_row: start,
                        row_count: count,
                        compressed_size: blob_view.len() as usize,
                        uncompressed_size: bu,
                    } == spec_batch_meta_of(cv, start as int, count as int));
                }
                if rem <= bs {
                    proof {
                        match cv {
                            ColumnDataV::Varchar(ss) => {
                                assert(ss.subrange(start as int, start as int + rem as int)
                                    =~= ss.subrange(start as int, ss.len() as int));
                                assert(varchar_batches_fit(ss, start as int, gbs));
                            },
                            ColumnDataV::Int64(_) => {},
                        }
                        assert(spec_batches_from(cv, start as int, gbs) == seq![
                            spec_batch_meta_of(cv, start as int, rem as int),
                        ]);
                        assert(batches@ =~= (batches@.drop_last() + spec_batches_from(
                            cv,
                            start as int,
                            gbs,
                        )));
                        assert(payload@ =~= col_base + spec_col_payload_from(cv, 0, gbs)) by {
                            assert(spec_col_payload_from(cv, start as int, gbs)
                                == spec_batch_image(cv, start as int, rem as int));
                        }
                        assert(new_total == spec_total_uncomp_from(cv, 0, gbs, 0));
                    }
                    uncomp_total = new_total;
                    break;
                }
                proof {
                    match cv {
                        ColumnDataV::Varchar(ss) => {
                            if varchar_batches_fit(ss, start + gbs, gbs) {
                                assert(varchar_batches_fit(ss, start as int, gbs));
                            }
                        },
                        ColumnDataV::Int64(_) => {},
                    }
                    assert(spec_batches_from(cv, start as int, gbs) == seq![
                        spec_batch_meta_of(cv, start as int, gbs),
                    ] + spec_batches_from(cv, start + gbs, gbs));
                    assert(batches@ + spec_batches_from(cv, start + gbs, gbs)
                        =~= batches@.drop_last() + spec_batches_from(cv, start as int, gbs));
                    assert(spec_col_payload_from(cv, start as int, gbs) == spec_batch_image(
                        cv,
                        start as int,
                        gbs,
                    ) + spec_col_payload_from(cv, start + gbs, gbs));
                    assert(payload@ + spec_col_payload_from(cv, start + gbs, gbs) =~= col_base
                        + spec_col_payload_from(cv, 0, gbs));
                    assert(spec_total_uncomp_from(cv, start + gbs, gbs, new_total)
                        == spec_total_uncomp_from(cv, 0, gbs, 0));
                }
                uncomp_total = new_total;
                start = start + bs;
            }
            let tcs: usize = payload.len() - col_start;
            proof {
                assert(payload@.len() == col_base.len() + spec_col_payload_from(
                    cv,
                    0,
                    gbs,
                ).len());
            }
            let column_type: ColumnType = data.column_type();
            let cm = ColumnMeta {
                name,
                column_type,
                total_compressed_size: tcs,
                total_uncompressed_size: uncomp_total,
                total_row_count: rows,
                batch_size: bs,
                batches,
            };
            let ghost p: (String, ColumnData) = self.columns@[ci as int];
            let ghost pre_metas: Seq<ColumnMeta> = metas@;
            metas.push(cm);
            proof {
                assert(cm@ == spec_column_meta_of(p.0@, col_view(p.1), gbs));
                let hcols = spec_file_header_of(*self, gbs).columns;
                assert(hcols[ci as int] == spec_column_meta_of(p.0@, col_view(p.1), gbs));
                let gm = metas@.map_values(|c: ColumnMeta| c.view());
                let pm = pre_metas.map_values(|c: ColumnMeta| c.view());
                assert(pm == hcols.take(ci as int));
                assert(hcols.len() == self.columns@.len());
                assert(pm.len() == pre_metas.len());
                assert(pre_metas.len() == ci);
                assert forall|k: int| 0 <= k < ci + 1 implies #[trigger] gm[k] == hcols.take(
                    ci + 1,
                )[k] by {
                    if k < ci {
                        assert(metas@[k] == pre_metas[k]);
                        assert(pm[k] == hcols.take(ci as int)[k]);
                    } else {
                        assert(metas@[k] == cm);
                    }
                }
                assert(gm =~= hcols.take(ci + 1));
                lemma_payload_of_push(self.columns@.take(ci as int), p, gbs);
                assert(self.columns@.take(ci as int).push(p) =~= self.columns@.take(ci + 1));
                assert(payload@ =~= spec_payload_of(self.columns@.take(ci + 1), gbs));
            }
            ci = ci + 1;
        }
        proof {
            assert(self.columns@.take(self.columns@.len() as int) =~= self.columns@);
            assert(spec_file_header_of(*self, gbs).columns.take(self.columns@.len() as int)
                =~= spec_file_header_of(*self, gbs).columns);
        }
        let header = FileHeader {
            version: FORMAT_VERSION,
            column_count: self.columns.len() as u32,
            row_count: self.row_count as u64,
            columns: metas,
        };
        proof {
            assert(header@.columns =~= spec_file_header_of(*self, gbs).columns);
            assert(header@ == spec_file_header_of(*self, gbs));
        }
        let header_bytes: Vec<u8> = match encode_header(&header) {
            Ok(v) => v,
            Err(e) => {
                proof {
                    assert(!header_fits(spec_file_header_of(*self, gbs)));
                }
                return Err(e);
            },
        };
        if header_bytes.len() > u32::MAX as usize {
            proof {
                assert(header_bytes@ == spec_header_bytes(spec_file_header_of(*self, gbs)));
            }
            return Err(DbError::of(ErrorKind::Io, "header too large for the u32 length"));
        }
        let mut out: Vec<u8> = Vec::new();
        out.push(0x4d);
        out.push(0x49);
        out.push(0x4d);
        out.push(0x44);
        out.push(0x42);
        out.push(0x30);
        out.push(0x30);
        out.push(0x32);
        proof {
            assert(out@ =~= spec_magic());
        }
        let mut len_bytes: Vec<u8> = u32_to_le_bytes(header_bytes.len() as u32);
        out.append(&mut len_bytes);
        let ghost hb: Seq<u8> = header_bytes@;
        let mut hb_vec: Vec<u8> = header_bytes;
        out.append(&mut hb_vec);
        let mut payload_vec: Vec<u8> = payload;
        out.append(&mut payload_vec);
        proof {
            assert(out@ =~= spec_file_bytes(*self, gbs));
        }
        Ok(out)
    }
}

} // verus!

verus! {

// ------------------------------------------------------------------
// reading columns back
// ------------------------------------------------------------------

/// The byte region of an int64 column matches a value sequence: batch by
/// batch, the region holds exactly the compressed image of the next
/// `row_count` values.
pub open spec fn int64_region_matches(
    vs: Seq<i64>,
    batches: Seq<BatchMeta>,
    row_off: int,
    region: Seq<u8>,
) -> bool
    decreases batches.len(),
{
    if batches.len() == 0 {
        region.len() == 0 && row_off == vs.len()
    } else {
        let b = batches[0];
        let blob = if b.row_count == 0 {
            Seq::<u8>::empty()
        } else {
            zstd_of(spec_encode_int64(vs.subrange(row_off, row_off + b.row_count)))
        };
        &&& 0 <= row_off
        &&& row_off + b.row_count <= vs.len()
        &&& blob.len() == b.compressed_size
        &&& b.compressed_size <= region.len()
        &&& region.take(b.compressed_size as int) == blob
        &&& int64_region_matches(
            vs,
            batches.drop_first(),
            row_off + b.row_count,
            region.skip(b.compressed_size as int),
        )
    }
}

/// The byte region of a varchar column matches a string sequence.
pub open spec fn varchar_region_matches(
    ss: Seq<Seq<char>>,
    batches: Seq<BatchMeta>,
    row_off: int,
    region: Seq<u8>,
) -> bool
    decreases batches.len(),
{
    if batches.len() == 0 {
        region.len() == 0 && row_off == ss.len()
    } else {
        let b = batches[0];
        let chunk = ss.subrange(row_off, row_off + b.row_count);
        let blob = if b.row_count == 0 {
            Seq::<u8>::empty()
        } else {
            lz4_of(spec_varchar_records(chunk))
        };
        &&& 0 <= row_off
        &&& row_off + b.row_count <= ss.len()
        &&& varchar_fits(chunk)
        &&& blob.len() == b.compressed_size
        &&& b.compressed_size <= region.len()
        &&& region.take(b.compressed_size as int) == blob
        &&& varchar_region_matches(
            ss,
            batches.drop_first(),
            row_off + b.row_count,
            region.skip(b.compressed_size as int),
        )
    }
}

/// Decode an int64 column region batch by batch.  If the region is the
/// compressed image of a value sequence, exactly that sequence comes back.
#[verifier::rlimit(100)]
fn decode_int64_region(batches: &Vec<BatchMeta>, region: &[u8]) -> (r: Result<Vec<i64>, DbError>)
    ensures
        forall|vs: Seq<i64>| #[trigger] int64_region_matches(vs, batches@, 0, region@) ==> (
        r matches Ok(v) && v@ == vs),
{
    let rlen: usize = region.len();
    proof {
        assert(region@.len() == rlen);
    }
    let mut acc: Vec<i64> = Vec::new();
    let mut pos: usize = 0;
    let mut i: usize = 0;
    proof {
        assert(region@.skip(0) =~= region@);
        assert(batches@.skip(0) =~= batches@);
        assert forall|vs: Seq<i64>| #[trigger] int64_region_matches(
            vs,
            batches@,
            0,
            region@,
        ) implies int64_region_matches(
            vs,
            batches@.skip(0),
            acc@.len() as int,
            region@.skip(0),
        ) && acc@ == vs.take(acc@.len() as int) by {
            assert(acc@ =~= vs.take(0));
        }
    }
    while i < batches.len()
        invariant
            i <= batches@.len(),
            pos <= region@.len(),
            region@.len() <= usize::MAX,
            forall|vs: Seq<i64>| #[trigger] int64_region_matches(vs, batches@, 0, region@)
                ==> (int64_region_matches(
                vs,
                batches@.skip(i as int),
                acc@.len() as int,
                region@.skip(pos as int),
            ) && acc@ == vs.take(acc@.len() as int)),
        decreases batches@.len() - i,
    {
        let b: BatchMeta = batches[i];
        let ghost rest_batches = batches@.skip(i as int);
        proof {
            assert(rest_batches[0] == batches@[i as int]);
            assert(rest_batches.drop_first() =~= batches@.skip(i + 1));
        }
        if b.compressed_size > region.len() - pos {
            proof {
                assert forall|vs: Seq<i64>| #[trigger] int64_region_matches(
                    vs,
                    batches@,
                    0,
                    region@,
                ) implies false by {
                    assert(int64_region_matches(
                        vs,
                        rest_batches,
                        acc@.len() as int,
                        region@.skip(pos as int),
                    ));
                }
            }
            return Err(DbError::of(ErrorKind::Corrupt, "batch exceeds payload size"));
        }
        let blob: &[u8] = slice_subrange(region, pos, pos + b.compressed_size);
        proof {
            assert(blob@ =~= region@.skip(pos as int).take(b.compressed_size as int));
        }
        match decompress_int64_column(blob, b.row_count) {
            Ok(mut vals) => {
                let ghost pre_acc = acc@;
                let ghost vals_view = vals@;
                acc.append(&mut vals);
                proof {
                    assert forall|vs: Seq<i64>| #[trigger] int64_region_matches(
                        vs,
                        batches@,
                        0,
                        region@,
                    ) implies int64_region_matches(
                        vs,
                        batches@.skip(i + 1),
                        acc@.len() as int,
                        region@.skip(pos + b.compressed_size),
                    ) && acc@ == vs.take(acc@.len() as int) by {
                        assert(int64_region_matches(
                            vs,
                            rest_batches,
                            pre_acc.len() as int,
                            region@.skip(pos as int),
                        ));
                        let off = pre_acc.len() as int;
                        let chunk = vs.subrange(off, off + b.row_count);
                        if b.row_count == 0 {
                            assert(blob@ =~= Seq::<u8>::empty());
                            assert(vals_view =~= Seq::<i64>::empty());
                            assert(acc@ =~= pre_acc);
                            assert(chunk =~= Seq::<i64>::empty());
                        } else {
                            assert(blob@ == zstd_of(spec_encode_int64(chunk)));
                            lemma_int64_codec_roundtrip(chunk);
                            assert(chunk.len() == b.row_count);
                            assert(vals_view == chunk);
                        }
                        assert(acc@ =~= pre_acc + vals_view);
                        assert(acc@ =~= pre_acc + chunk);
                        assert(vs.take(off + b.row_count) =~= vs.take(off) + chunk);
                        assert(region@.skip(pos as int).skip(b.compressed_size as int)
                            =~= region@.skip(pos + b.compressed_size));
                    }
                }
                pos = pos + b.compressed_size;
                i = i + 1;
            },
            Err(e) => {
                proof {
                    assert forall|vs: Seq<i64>| #[trigger] int64_region_matches(
                        vs,
                        batches@,
                        0,
                        region@,
                    ) implies false by {
                        assert(int64_region_matches(
                            vs,
                            rest_batches,
                            acc@.len() as int,
                            region@.skip(pos as int),
                        ));
                        let off = acc@.len() as int;
                        let chunk = vs.subrange(off, off + b.row_count);
                        if b.row_count == 0 {
                            assert(blob@ =~= Seq::<u8>::empty());
                        } else {
                            assert(blob@ == zstd_of(spec_encode_int64(chunk)));
                            lemma_int64_codec_roundtrip(chunk);
                        }
                    }
                }
                return Err(e);
            },
        }
    }
    proof {
        assert forall|vs: Seq<i64>| #[trigger] int64_region_matches(
            vs,
            batches@,
            0,
            region@,
        ) implies acc@ == vs by {
            assert(int64_region_matches(
                vs,
                batches@.skip(i as int),
                acc@.len() as int,
                region@.skip(pos as int),
            ));
            assert(batches@.skip(i as int) =~= Seq::<BatchMeta>::empty());
            assert(vs.take(vs.len() as int) =~= vs);
        }
    }
    Ok(acc)
}

/// Decode a varchar column region batch by batch.
#[verifier::rlimit(100)]
fn decode_varchar_region(batches: &Vec<BatchMeta>, region: &[u8]) -> (r: Result<
    Vec<String>,
    DbError,
>)
    ensures
        forall|ss: Seq<Seq<char>>| #[trigger] varchar_region_matches(ss, batches@, 0, region@)
            ==> (r matches Ok(v) && strs_view(v@) == ss),
{
    let rlen: usize = region.len();
    proof {
        assert(region@.len() == rlen);
    }
    let mut acc: Vec<String> = Vec::new();
    let mut pos: usize = 0;
    let mut i: usize = 0;
    proof {
        assert(region@.skip(0) =~= region@);
        assert(batches@.skip(0) =~= batches@);
        assert forall|ss: Seq<Seq<char>>| #[trigger] varchar_region_matches(
            ss,
            batches@,
            0,
            region@,
        ) implies varchar_region_matches(
            ss,
            batches@.skip(0),
            acc@.len() as int,
            region@.skip(0),
        ) && strs_view(acc@) == ss.take(acc@.len() as int) by {
            assert(strs_view(acc@) =~= ss.take(0));
        }
    }
    while i < batches.len()
        invariant
            i <= batches@.len(),
            pos <= region@.len(),
            region@.len() <= usize::MAX,
            forall|ss: Seq<Seq<char>>| #[trigger] varchar_region_matches(ss, batches@, 0, region@)
                ==> (varchar_region_matches(
                ss,
                batches@.skip(i as int),
                acc@.len() as int,
                region@.skip(pos as int),
            ) && strs_view(acc@) == ss.take(acc@.len() as int)),
        decreases batches@.len() - i,
    {
        let b: BatchMeta = batches[i];
        let ghost rest_batches = batches@.skip(i as int);
        proof {
            assert(rest_batches[0] == batches@[i as int]);
            assert(rest_batches.drop_first() =~= batches@.skip(i + 1));
        }
        if b.compressed_size > region.len() - pos {
            proof {
                assert forall|ss: Seq<Seq<char>>| #[trigger] varchar_region_matches(
                    ss,
                    batches@,
                    0,
                    region@,
                ) implies false by {
                    assert(varchar_region_matches(
                        ss,
                        rest_batches,
                        acc@.len() as int,
                        region@.skip(pos as int),
                    ));
                }
            }
            return Err(DbError::of(ErrorKind::Corrupt, "batch exceeds payload size"));
        }
        let blob: &[u8] = slice_subrange(region, pos, pos + b.compressed_size);
        proof {
            assert(blob@ =~= region@.skip(pos as int).take(b.compressed_size as int));
        }
        match decompress_varchar_column(blob, b.row_count) {
            Ok(mut vals) => {
                let ghost pre_acc = acc@;
                let ghost vals_view = vals@;
                acc.append(&mut vals);
                proof {
                    assert forall|ss: Seq<Seq<char>>| #[trigger] varchar_region_matches(
                        ss,
                        batches@,
                        0,
                        region@,
                    ) implies varchar_region_matches(
                        ss,
                        batches@.skip(i + 1),
                        acc@.len() as int,
                        region@.skip(pos + b.compressed_size),
                    ) && strs_view(acc@) == ss.take(acc@.len() as int) by {
                        assert(varchar_region_matches(
                            ss,
                            rest_batches,
                            pre_acc.len() as int,
                            region@.skip(pos as int),
                        ));
                        let off = pre_acc.len() as int;
                        let chunk = ss.subrange(off, off + b.row_count);
                        if b.row_count == 0 {
                            assert(blob@ =~= Seq::<u8>::empty());
                            assert(vals_view.len() == 0);
                            assert(strs_view(vals_view) =~= Seq::<Seq<char>>::empty());
                            assert(chunk =~= Seq::<Seq<char>>::empty());
                        } else {
                            assert(blob@ == lz4_of(spec_varchar_records(chunk)));
                            lemma_varchar_codec_roundtrip(chunk);
                            assert(chunk.len() == b.row_count);
                            assert(strs_view(vals_view) == chunk);
                        }
                        assert(strs_view(acc@) =~= strs_view(pre_acc) + strs_view(vals_view));
                        assert(strs_view(acc@) =~= ss.take(off) + chunk);
                        assert(ss.take(off + b.row_count) =~= ss.take(off) + chunk);
                        assert(region@.skip(pos as int).skip(b.compressed_size as int)
                            =~= region@.skip(pos + b.compressed_size));
                    }
                }
                pos = pos + b.compressed_size;
                i = i + 1;
            },
            Err(e) => {
                proof {
                    assert forall|ss: Seq<Seq<char>>| #[trigger] varchar_region_matches(
                        ss,
                        batches@,
                        0,
                        region@,
                    ) implies false by {
                        assert(varchar_region_matches(
                            ss,
                            rest_batches,
                            acc@.len() as int,
                            region@.skip(pos as int),
                        ));
                        let off = acc@.len() as int;
                        let chunk = ss.subrange(off, off + b.row_count);
                        if b.row_count == 0 {
                            assert(blob@ =~= Seq::<u8>::empty());
                        } else {
                            assert(blob@ == lz4_of(spec_varchar_records(chunk)));
                            lemma_varchar_codec_roundtrip(chunk);
                        }
                    }
                }
                return Err(e);
            },
        }
    }
    proof {
        assert forall|ss: Seq<Seq<char>>| #[trigger] varchar_region_matches(
            ss,
            batches@,
            0,
            region@,
        ) implies strs_view(acc@) == ss by {
            assert(varchar_region_matches(
                ss,
                batches@.skip(i as int),
                acc@.len() as int,
                region@.skip(pos as int),
            ));
            assert(batches@.skip(i as int) =~= Seq::<BatchMeta>::empty());
            assert(ss.take(ss.len() as int) =~= ss);
        }
    }
    Ok(acc)
}

} // verus!

verus! {

// ------------------------------------------------------------------
// the written image satisfies the region predicates
// ------------------------------------------------------------------

proof fn lemma_int64_written_matches(v: Seq<i64>, start: int, bs: int)
    requires
        1 <= bs <= usize::MAX,
        0 <= start <= v.len(),
        v.len() <= usize::MAX,
        spec_col_payload_from(ColumnDataV::Int64(v), start, bs).len() <= usize::MAX,
    ensures
        int64_region_matches(
            v,
            spec_batches_from(ColumnDataV::Int64(v), start, bs),
            start,
            spec_col_payload_from(ColumnDataV::Int64(v), start, bs),
        ),
    decreases v.len() - start,
{
    let c = ColumnDataV::Int64(v);
    let batches = spec_batches_from(c, start, bs);
    let region = spec_col_payload_from(c, start, bs);
    if v.len() - start <= bs {
        let count = v.len() - start;
        assert(batches == seq![spec_batch_meta_of(c, start, count)]);
        assert(batches.drop_first() =~= Seq::<BatchMeta>::empty());
        assert(region == spec_batch_image(c, start, count));
        assert(region.take(region.len() as int) =~= region);
        assert(region.skip(region.len() as int) =~= Seq::<u8>::empty());
        assert(int64_region_matches(
            v,
            batches.drop_first(),
            start + count,
            region.skip(region.len() as int),
        ));
    } else {
        let image = spec_batch_image(c, start, bs);
        let tail = spec_col_payload_from(c, start + bs, bs);
        assert(region == image + tail);
        assert(batches == seq![spec_batch_meta_of(c, start, bs)] + spec_batches_from(
            c,
            start + bs,
            bs,
        ));
        assert(region.take(image.len() as int) =~= image);
        assert(region.skip(image.len() as int) =~= tail);
        assert(batches.drop_first() =~= spec_batches_from(c, start + bs, bs));
        lemma_int64_written_matches(v, start + bs, bs);
    }
}

proof fn lemma_varchar_written_matches(ss: Seq<Seq<char>>, start: int, bs: int)
    requires
        1 <= bs <= usize::MAX,
        0 <= start <= ss.len(),
        ss.len() <= usize::MAX,
        varchar_batches_fit(ss, start, bs),
        spec_col_payload_from(ColumnDataV::Varchar(ss), start, bs).len() <= usize::MAX,
    ensures
        varchar_region_matches(
            ss,
            spec_batches_from(ColumnDataV::Varchar(ss), start, bs),
            start,
            spec_col_payload_from(ColumnDataV::Varchar(ss), start, bs),
        ),
    decreases ss.len() - start,
{
    let c = ColumnDataV::Varchar(ss);
    let batches = spec_batches_from(c, start, bs);
    let region = spec_col_payload_from(c, start, bs);
    if ss.len() - start <= bs {
        let count = ss.len() - start;
        assert(ss.subrange(start, start + count) =~= ss.subrange(start, ss.len() as int));
        assert(batches == seq![spec_batch_meta_of(c, start, count)]);
        assert(batches.drop_first() =~= Seq::<BatchMeta>::empty());
        assert(region == spec_batch_image(c, start, count));
        assert(region.take(region.len() as int) =~= region);
        assert(region.skip(region.len() as int) =~= Seq::<u8>::empty());
        assert(varchar_region_matches(
            ss,
            batches.drop_first(),
            start + count,
            region.skip(region.len() as int),
        ));
    } else {
        let image = spec_batch_image(c, start, bs);
        let tail = spec_col_payload_from(c, start + bs, bs);
        assert(region == image + tail);
        assert(batches == seq![spec_batch_meta_of(c, start, bs)] + spec_batches_from(
            c,
            start + bs,
            bs,
        ));
        assert(region.take(image.len() as int) =~= image);
        assert(region.skip(image.len() as int) =~= tail);
        assert(batches.drop_first() =~= spec_batches_from(c, start + bs, bs));
        lemma_varchar_written_matches(ss, start + bs, bs);
    }
}

// ------------------------------------------------------------------
// payload decomposition and batch sums
// ------------------------------------------------------------------

proof fn lemma_payload_of_decompose(cols: Seq<(String, ColumnData)>, k: int, bs: int)
    requires
        0 <= k <= cols.len(),
    ensures
        spec_payload_of(cols, bs) == spec_payload_of(cols.take(k), bs) + spec_payload_of(
            cols.skip(k),
            bs,
        ),
    decreases k,
{
    if k == 0 {
        assert(cols.take(0) =~= Seq::<(String, ColumnData)>::empty());
        assert(cols.skip(0) =~= cols);
        assert(spec_payload_of(cols.take(0), bs) == Seq::<u8>::empty());
        assert(spec_payload_of(cols, bs) =~= spec_payload_of(cols.take(0), bs) + spec_payload_of(
            cols.skip(0),
            bs,
        ));
    } else {
        let rest = cols.drop_first();
        lemma_payload_of_decompose(rest, k - 1, bs);
        assert(cols.take(k)[0] == cols[0]);
        assert(cols.take(k).drop_first() =~= rest.take(k - 1));
        assert(cols.skip(k) =~= rest.skip(k - 1));
        assert(spec_payload_of(cols, bs) =~= spec_payload_of(cols.take(k), bs)
            + spec_payload_of(cols.skip(k), bs));
    }
}

pub open spec fn sum_compressed(bs: Seq<BatchMeta>) -> int
    decreases bs.len(),
{
    if bs.len() == 0 {
        0
    } else {
        bs[0].compressed_size + sum_compressed(bs.drop_first())
    }
}

proof fn lemma_sum_compressed_nonneg(bs: Seq<BatchMeta>)
    ensures
        sum_compressed(bs) >= 0,
    decreases bs.len(),
{
    if bs.len() > 0 {
        lemma_sum_compressed_nonneg(bs.drop_first());
    }
}

/// The per-batch compressed sizes of a written column sum to its payload
/// length.
proof fn lemma_batches_sum(c: ColumnDataV, start: int, bs: int)
    requires
        1 <= bs <= usize::MAX,
        0 <= start <= colv_len(c),
        colv_len(c) <= usize::MAX,
        spec_col_payload_from(c, start, bs).len() <= usize::MAX,
    ensures
        sum_compressed(spec_batches_from(c, start, bs)) == spec_col_payload_from(
            c,
            start,
            bs,
        ).len(),
    decreases colv_len(c) - start,
{
    let batches = spec_batches_from(c, start, bs);
    let region = spec_col_payload_from(c, start, bs);
    if colv_len(c) - start <= bs {
        assert(batches == seq![spec_batch_meta_of(c, start, colv_len(c) - start)]);
        assert(batches.drop_first() =~= Seq::<BatchMeta>::empty());
        assert(region == spec_batch_image(c, start, colv_len(c) - start));
        assert(batches[0] == spec_batch_meta_of(c, start, colv_len(c) - start));
        assert(batches[0].compressed_size == region.len());
        assert(sum_compressed(batches.drop_first()) == 0);
        assert(sum_compressed(batches) == batches[0].compressed_size);
    } else {
        assert(batches == seq![spec_batch_meta_of(c, start, bs)] + spec_batches_from(
            c,
            start + bs,
            bs,
        ));
        assert(batches.drop_first() =~= spec_batches_from(c, start + bs, bs));
        lemma_batches_sum(c, start + bs, bs);
    }
}

} // verus!

verus! {

// ------------------------------------------------------------------
// deserialization
// ------------------------------------------------------------------

/// The declared payload size: the sum of the columns' total compressed
/// sizes.
pub open spec fn spec_total_payload(cols: Seq<ColumnMetaV>) -> int
    decreases cols.len(),
{
    if cols.len() == 0 {
        0
    } else {
        cols[0].total_compressed_size + spec_total_payload(cols.drop_first())
    }
}

proof fn lemma_total_payload_push(cols: Seq<ColumnMetaV>, c: ColumnMetaV)
    ensures
        spec_total_payload(cols.push(c)) == spec_total_payload(cols) + c.total_compressed_size,
    decreases cols.len(),
{
    assert(cols.push(c)[0] == if cols.len() == 0 {
        c
    } else {
        cols[0]
    });
    if cols.len() == 0 {
        assert(cols.push(c).drop_first() =~= Seq::<ColumnMetaV>::empty());
        assert(spec_total_payload(Seq::<ColumnMetaV>::empty()) == 0);
    } else {
        assert(cols.push(c).drop_first() =~= cols.drop_first().push(c));
        lemma_total_payload_push(cols.drop_first(), c);
    }
}

/// A structurally valid file: the magic, a header that parses exactly and
/// declares the supported version and a matching column count, per-column
/// batch sums and row counts that agree with the header, and a payload that
/// ends exactly at the declared size.  The reader accepts nothing else.
pub open spec fn spec_frame_ok(b: Seq<u8>) -> bool {
    &&& b.len() >= 12
    &&& b.subrange(0, 8) == spec_magic()
    &&& 12 + spec_u32_from_le_bytes(b.subrange(8, 12)) <= b.len()
    &&& (take_header(
        b.subrange(12, 12 + spec_u32_from_le_bytes(b.subrange(8, 12)) as int),
    ) matches Some(p) && {
        &&& p.1 == spec_u32_from_le_bytes(b.subrange(8, 12))
        &&& p.0.version == FORMAT_VERSION
        &&& p.0.column_count == p.0.columns.len()
        &&& (forall|k: int| 0 <= k < p.0.columns.len() ==> sum_compressed(
            (#[trigger] p.0.columns[k]).batches,
        ) == p.0.columns[k].total_compressed_size)
        &&& (forall|k: int| 0 <= k < p.0.columns.len() ==> ((
        #[trigger] p.0.columns[k]).total_row_count as u64) == p.0.row_count)
        &&& b.len() == 12 + spec_u32_from_le_bytes(b.subrange(8, 12))
            + spec_total_payload(p.0.columns)
    })
}

/// The hypothesis of the file round trip: the bytes are exactly the written
/// image of a well-formed, serializable table at some batch size.
pub open spec fn file_image_hyp(t: Table, bs: int, b: Seq<u8>) -> bool {
    &&& t.well_formed()
    &&& 1 <= bs <= usize::MAX
    &&& serializable(t, bs)
    &&& b == spec_file_bytes(t, bs)
}

proof fn lemma_file_image_framing(t: Table, bs: int, b: Seq<u8>)
    requires
        file_image_hyp(t, bs, b),
    ensures
        ({
            let hv = spec_file_header_of(t, bs);
            let hb = spec_header_bytes(hv);
            let pl = spec_payload_of(t.columns@, bs);
            &&& b.len() == 12 + hb.len() + pl.len()
            &&& hb.len() <= u32::MAX
            &&& b.subrange(0, 8) == spec_magic()
            &&& b.subrange(8, 12) == spec_u32_to_le_bytes(hb.len() as u32)
            &&& b.subrange(12, 12 + hb.len() as int) == hb
            &&& b.skip(12 + hb.len() as int) == pl
            &&& take_header(hb) == Some((hv, hb.len() as nat))
            &&& hv.version == FORMAT_VERSION
            &&& hv.row_count == t.row_count as u64
            &&& hv.columns.len() == t.columns@.len()
            &&& hv.column_count == t.columns@.len() as u32
        }),
{
    let hv = spec_file_header_of(t, bs);
    let hb = spec_header_bytes(hv);
    let pl = spec_payload_of(t.columns@, bs);
    lemma_auto_spec_u32_to_from_le_bytes();
    assert(spec_magic().len() == 8);
    assert(b =~= spec_magic() + spec_u32_to_le_bytes(hb.len() as u32) + hb + pl);
    assert(b.subrange(0, 8) =~= spec_magic());
    assert(b.subrange(8, 12) =~= spec_u32_to_le_bytes(hb.len() as u32));
    assert(b.subrange(12, 12 + hb.len() as int) =~= hb);
    assert(b.skip(12 + hb.len() as int) =~= pl);
    assert(hb + Seq::<u8>::empty() =~= hb);
    lemma_take_header_of(hv, Seq::<u8>::empty());
}


#[verifier::rlimit(100)]
proof fn lemma_deserialize_column_frame(t: Table, bs: int, b: Seq<u8>, ci: int, pos: int)
    requires
        file_image_hyp(t, bs, b),
        b.len() <= usize::MAX,
        0 <= ci < t.columns@.len(),
        pos == 12 + spec_header_bytes(spec_file_header_of(t, bs)).len() + spec_payload_of(
            t.columns@.take(ci),
            bs,
        ).len(),
    ensures
        ({
            let hv = spec_file_header_of(t, bs);
            let p = t.columns@[ci];
            let cv = col_view(p.1);
            let colp = spec_col_payload_from(cv, 0, bs);
            let cmv = spec_column_meta_of(p.0@, cv, bs);
            &&& hv.columns[ci] == cmv
            &&& cmv.batches == spec_batches_from(cv, 0, bs)
            &&& colp.len() <= usize::MAX
            &&& cmv.total_compressed_size == colp.len()
            &&& colv_len(cv) == t.row_count
            &&& cmv.total_row_count == t.row_count
            &&& cmv.column_type == colv_type(cv)
            &&& cmv.name == p.0@
            &&& pos + colp.len() <= b.len()
            &&& b.subrange(pos, pos + colp.len() as int) == colp
            &&& sum_compressed(cmv.batches) == colp.len()
            &&& (cv matches ColumnDataV::Int64(vseq) ==> int64_region_matches(
                vseq,
                cmv.batches,
                0,
                colp,
            ))
            &&& (cv matches ColumnDataV::Varchar(sseq) ==> varchar_region_matches(
                sseq,
                cmv.batches,
                0,
                colp,
            ))
            &&& pos + colp.len() == 12 + spec_header_bytes(hv).len() + spec_payload_of(
                t.columns@.take(ci + 1),
                bs,
            ).len()
        }),
{
    lemma_file_image_framing(t, bs, b);
    let hv = spec_file_header_of(t, bs);
    let hb = spec_header_bytes(hv);
    let pl = spec_payload_of(t.columns@, bs);
    let p = t.columns@[ci];
    let cv = col_view(p.1);
    let colp = spec_col_payload_from(cv, 0, bs);
    let cmv = spec_column_meta_of(p.0@, cv, bs);
    assert(hv.columns[ci] == cmv);
    assert(col_len(p.1) == t.row_count);
    assert(colv_len(cv) == col_len(p.1));
    lemma_payload_of_decompose(t.columns@, ci, bs);
    let pre = spec_payload_of(t.columns@.take(ci), bs);
    let tail = spec_payload_of(t.columns@.skip(ci), bs);
    assert(t.columns@.skip(ci)[0] == p);
    assert(t.columns@.skip(ci).drop_first() =~= t.columns@.skip(ci + 1));
    assert(tail == colp + spec_payload_of(t.columns@.skip(ci + 1), bs));
    assert(pl == pre + tail);
    assert(pos + colp.len() <= b.len());
    assert(b.skip(12 + hb.len() as int) == pl);
    assert(b.subrange(pos, pos + colp.len() as int) =~= colp);
    lemma_batches_sum(cv, 0, bs);
    match cv {
        ColumnDataV::Int64(vseq) => {
            lemma_int64_written_matches(vseq, 0, bs);
        },
        ColumnDataV::Varchar(sseq) => {
            assert(col_fits(col_view(t.columns@[ci].1), bs));
            lemma_varchar_written_matches(sseq, 0, bs);
        },
    }
    lemma_payload_of_push(t.columns@.take(ci), p, bs);
    assert(t.columns@.take(ci).push(p) =~= t.columns@.take(ci + 1));
}

/// Sum the compressed sizes of a batch list; `None` when the sum does not
/// fit a usize.
fn sum_batch_compressed(batches: &Vec<BatchMeta>) -> (r: Option<usize>)
    ensures
        match r {
            Some(s) => s == sum_compressed(batches@),
            None => sum_compressed(batches@) > usize::MAX,
        },
{
    let mut acc: usize = 0;
    let mut i: usize = 0;
    proof {
        assert(batches@.skip(0) =~= batches@);
    }
    while i < batches.len()
        invariant
            i <= batches@.len(),
            acc + sum_compressed(batches@.skip(i as int)) == sum_compressed(batches@),
        decreases batches@.len() - i,
    {
        let ghost rest = batches@.skip(i as int);
        proof {
            assert(rest[0] == batches@[i as int]);
            assert(rest.drop_first() =~= batches@.skip(i + 1));
            lemma_sum_compressed_nonneg(rest.drop_first());
        }
        let b: BatchMeta = batches[i];
        match acc.checked_add(b.compressed_size) {
            Some(next) => {
                acc = next;
            },
            None => {
                return None;
            },
        }
        i = i + 1;
    }
    proof {
        assert(batches@.skip(batches@.len() as int) =~= Seq::<BatchMeta>::empty());
    }
    Some(acc)
}

impl Table {
    /// Deserialize a table from its file image, with the default batch
    /// configuration.
    pub fn deserialize(bytes: &[u8]) -> (r: Result<Table, DbError>)
        ensures
            (r matches Ok(rt) ==> rt.well_formed()),
            (r is Ok ==> spec_frame_ok(bytes@)),
            forall|t: Table, bs: int| #[trigger] file_image_hyp(t, bs, bytes@) ==> (r matches Ok(
                rt,
            ) && rt.view_columns() == t.view_columns() && rt.row_count == t.row_count),
    {
        let config = BatchConfig::default();
        Self::deserialize_with_config(bytes, &config)
    }

    /// Deserialize a table from its file image.  A result is returned only
    /// for a structurally valid frame: the magic and the supported version,
    /// an exactly consumed header, per-column size sums and row counts that
    /// agree with it, and an input that ends exactly at the declared size.
    ///
    /// File round trip: together with the contract of
    /// [`Table::serialize_with_config`] this says that deserializing the
    /// bytes serialize wrote returns a table with the same columns, in the
    /// same order, with the same names and values.
    #[verifier::rlimit(100)]
    pub fn deserialize_with_config(bytes: &[u8], _config: &BatchConfig) -> (r: Result<
        Table,
        DbError,
    >)
        ensures
            (r matches Ok(rt) ==> rt.well_formed()),
            (r is Ok ==> spec_frame_ok(bytes@)),
            forall|t: Table, bs: int| #[trigger] file_image_hyp(t, bs, bytes@) ==> (r matches Ok(
                rt,
            ) && rt.view_columns() == t.view_columns() && rt.row_count == t.row_count),
    {
        let blen: usize = bytes.len();
        proof {
            assert(bytes@.len() == blen);
        }
        if blen < 12 {
            proof {
                assert forall|t: Table, bs: int| #[trigger] file_image_hyp(
                    t,
                    bs,
                    bytes@,
                ) implies false by {
                    lemma_file_image_framing(t, bs, bytes@);
                }
            }
            return Err(DbError::of(ErrorKind::Corrupt, "file too short"));
        }
        if !(bytes[0] == 0x4d && bytes[1] == 0x49 && bytes[2] == 0x4d && bytes[3] == 0x44
            && bytes[4] == 0x42 && bytes[5] == 0x30 && bytes[6] == 0x30 && bytes[7] == 0x32) {
            proof {
                assert forall|t: Table, bs: int| #[trigger] file_image_hyp(
                    t,
                    bs,
                    bytes@,
                ) implies false by {
                    lemma_file_image_framing(t, bs, bytes@);
                    let m = bytes@.subrange(0, 8);
                    assert(m == spec_magic());
                    assert(bytes@[0] == m[0] && bytes@[1] == m[1] && bytes@[2] == m[2]
                        && bytes@[3] == m[3] && bytes@[4] == m[4] && bytes@[5] == m[5]
                        && bytes@[6] == m[6] && bytes@[7] == m[7]);
                }
            }
            return Err(DbError::of(ErrorKind::Corrupt, "invalid file format: magic mismatch"));
        }
        let len_slice: &[u8] = slice_subrange(bytes, 8, 12);
        proof {
            assert(len_slice@ =~= bytes@.subrange(8, 12));
        }
        let header_len: usize = u32_from_le_bytes(len_slice) as usize;
        if header_len > blen - 12 {
            proof {
                assert forall|t: Table, bs: int| #[trigger] file_image_hyp(
                    t,
                    bs,
                    bytes@,
                ) implies false by {
                    lemma_file_image_framing(t, bs, bytes@);
                    lemma_auto_spec_u32_to_from_le_bytes();
                }
            }
            return Err(DbError::of(ErrorKind::Corrupt, "truncated header"));
        }
        let header_region: &[u8] = slice_subrange(bytes, 12, 12 + header_len);
        proof {
            assert(header_region@ =~= bytes@.subrange(12, 12 + header_len as int));
        }
        let (header, consumed): (FileHeader, usize) = match parse_header(header_region) {
            Ok(p) => p,
            Err(e) => {
                proof {
                    assert forall|t: Table, bs: int| #[trigger] file_image_hyp(
                        t,
                        bs,
                        bytes@,
                    ) implies false by {
                        lemma_file_image_framing(t, bs, bytes@);
                        lemma_auto_spec_u32_to_from_le_bytes();
                    }
                }
                return Err(e);
            },
        };
        if consumed != header_len || header.version != FORMAT_VERSION || header.column_count
            as usize != header.columns.len() {
            proof {
                assert forall|t: Table, bs: int| #[trigger] file_image_hyp(
                    t,
                    bs,
                    bytes@,
                ) implies false by {
                    lemma_file_image_framing(t, bs, bytes@);
                    lemma_auto_spec_u32_to_from_le_bytes();
                }
            }
            return Err(DbError::of(ErrorKind::Corrupt, "unsupported version or bad header"));
        }
        let mut tbl: Table = Table::new();
        let mut pos: usize = 12 + header_len;
        let mut ci: usize = 0;
        proof {
            assert forall|t: Table, bs: int| #[trigger] file_image_hyp(t, bs, bytes@) implies {
                &&& header@ == spec_file_header_of(t, bs)
                &&& header_len == spec_header_bytes(spec_file_header_of(t, bs)).len()
                &&& ci <= t.columns@.len()
                &&& tbl.view_columns() == t.view_columns().take(ci as int)
                &&& pos == 12 + header_len + spec_payload_of(t.columns@.take(ci as int), bs).len()
            } by {
                lemma_file_image_framing(t, bs, bytes@);
                lemma_auto_spec_u32_to_from_le_bytes();
                assert(tbl.view_columns() =~= t.view_columns().take(0));
                assert(t.columns@.take(0) =~= Seq::<(String, ColumnData)>::empty());
            }
            assert(header@.columns.take(0) =~= Seq::<ColumnMetaV>::empty());
            assert(spec_total_payload(header@.columns.take(0)) == 0);
        }
        while ci < header.columns.len()
            invariant
                tbl.well_formed(),
                ci <= header.columns@.len(),
                pos <= blen,
                blen == bytes@.len(),
                blen <= usize::MAX,
                header_len <= blen - 12,
                ci == 0 ==> tbl.row_count == 0 && tbl.columns@.len() == 0,
                tbl.columns@.len() == ci,
                header@.columns.len() == header.columns@.len(),
                forall|k: int| 0 <= k < ci ==> sum_compressed(
                    (#[trigger] header@.columns[k]).batches,
                ) == header@.columns[k].total_compressed_size && ((
                #[trigger] header@.columns[k]).total_row_count as u64) == header@.row_count,
                pos == 12 + header_len + spec_total_payload(header@.columns.take(ci as int)),
                forall|t: Table, bs: int| #[trigger] file_image_hyp(t, bs, bytes@) ==> {
                    &&& header@ == spec_file_header_of(t, bs)
                    &&& header_len == spec_header_bytes(spec_file_header_of(t, bs)).len()
                    &&& ci <= t.columns@.len()
                    &&& tbl.view_columns() == t.view_columns().take(ci as int)
                    &&& (ci > 0 ==> tbl.row_count == t.row_count)
                    &&& pos == 12 + header_len + spec_payload_of(
                        t.columns@.take(ci as int),
                        bs,
                    ).len()
                },
            decreases header.columns@.len() - ci,
        {
            let cm: &ColumnMeta = &header.columns[ci];
            let sum: Option<usize> = sum_batch_compressed(&cm.batches);
            let sum_ok: bool = match sum {
                Some(s) => s == cm.total_compressed_size,
                None => false,
            };
            let row_ok: bool = cm.total_row_count as u64 == header.row_count;
            let tcs: usize = cm.total_compressed_size;
            let fits: bool = tcs <= blen - pos;
            if !(sum_ok && row_ok && fits) {
                proof {
                    assert forall|t: Table, bs: int| #[trigger] file_image_hyp(
                        t,
                        bs,
                        bytes@,
                    ) implies false by {
                        assert(header@ == spec_file_header_of(t, bs));
                        assert(header@.columns.len() == header.columns@.len());
                        assert(spec_file_header_of(t, bs).columns.len() == t.columns@.len());
                        assert(ci < t.columns@.len());
                        lemma_deserialize_column_frame(t, bs, bytes@, ci as int, pos as int);
                    }
                }
                return Err(DbError::of(ErrorKind::Corrupt, "inconsistent column metadata"));
            }
            let region: &[u8] = slice_subrange(bytes, pos, pos + tcs);
            proof {
                assert(region@ =~= bytes@.subrange(pos as int, pos + tcs));
            }
            let data: ColumnData = match cm.column_type {
                ColumnType::Int64 => {
                    match decode_int64_region(&cm.batches, region) {
                        Ok(v) => ColumnData::Int64(v),
                        Err(e) => {
                            proof {
                                assert forall|t: Table, bs: int| #[trigger] file_image_hyp(
                                    t,
                                    bs,
                                    bytes@,
                                ) implies false by {
                                    assert(header@ == spec_file_header_of(t, bs));
                                    assert(header@.columns.len() == header.columns@.len());
                                    assert(spec_file_header_of(t, bs).columns.len()
                                        == t.columns@.len());
                                    assert(ci < t.columns@.len());
                                    lemma_deserialize_column_frame(t, bs, bytes@, ci as int,
                                        pos as int);
                                }
                            }
                            return Err(e);
                        },
                    }
                },
                ColumnType::Varchar => {
                    match decode_varchar_region(&cm.batches, region) {
                        Ok(v) => ColumnData::Varchar(v),
                        Err(e) => {
                            proof {
                                assert forall|t: Table, bs: int| #[trigger] file_image_hyp(
                                    t,
                                    bs,
                                    bytes@,
                                ) implies false by {
                                    assert(header@ == spec_file_header_of(t, bs));
                                    assert(header@.columns.len() == header.columns@.len());
                                    assert(spec_file_header_of(t, bs).columns.len()
                                        == t.columns@.len());
                                    assert(ci < t.columns@.len());
                                    lemma_deserialize_column_frame(t, bs, bytes@, ci as int,
                                        pos as int);
                                }
                            }
                            return Err(e);
                        },
                    }
                },
            };
            let cname: String = cm.name.clone();
            let ghost pre_tbl: Table = tbl;
            match tbl.add_column(cname, data) {
                Ok(_) => {},
                Err(e) => {
                    proof {
                        assert forall|t: Table, bs: int| #[trigger] file_image_hyp(
                            t,
                            bs,
                            bytes@,
                        ) implies false by {
                            assert(header@ == spec_file_header_of(t, bs));
                            assert(header@.columns.len() == header.columns@.len());
                            assert(spec_file_header_of(t, bs).columns.len() == t.columns@.len());
                            assert(ci < t.columns@.len());
                            lemma_deserialize_column_frame(t, bs, bytes@, ci as int,
                                pos as int);
                            let p = t.columns@[ci as int];
                            let cv = col_view(p.1);
                            let cmv = spec_column_meta_of(p.0@, cv, bs);
                            assert(cm@ == cmv);
                            assert(cm.batches@ == cmv.batches);
                            assert(tcs == spec_col_payload_from(cv, 0, bs).len());
                            assert(region@ == spec_col_payload_from(cv, 0, bs));
                            match cv {
                                ColumnDataV::Int64(vseq) => {
                                    assert(int64_region_matches(vseq, cm.batches@, 0, region@));
                                    assert(col_view(data) == cv);
                                    assert(col_len(data) == t.row_count);
                                },
                                ColumnDataV::Varchar(sseq) => {
                                    assert(varchar_region_matches(sseq, cm.batches@, 0, region@));
                                    assert(col_view(data) == cv);
                                    assert(col_len(data) == t.row_count);
                                },
                            }
                            assert(cname@ == p.0@);
                            if ci > 0 {
                                assert(pre_tbl.row_count == t.row_count);
                            }
                            if spec_has_col(pre_tbl.columns@, cname@) {
                                crate::table::lemma_has_col_index(pre_tbl.columns@, cname@);
                                let k = choose|k: int| 0 <= k < pre_tbl.columns@.len() && (
                                #[trigger] pre_tbl.columns@[k].0@) == cname@;
                                assert(pre_tbl.view_columns()[k].0 == pre_tbl.columns@[k].0@);
                                assert(pre_tbl.view_columns()[k] == t.view_columns().take(
                                    ci as int,
                                )[k]);
                                assert(t.view_columns()[k].0 == t.columns@[k].0@);
                                assert(t.columns@[k].0@ == t.columns@[ci as int].0@);
                            }
                        }
                    }
                    return Err(e);
                },
            }
            proof {
                assert forall|t: Table, bs: int| #[trigger] file_image_hyp(t, bs, bytes@) implies {
                    &&& ci + 1 <= t.columns@.len()
                    &&& tbl.view_columns() == t.view_columns().take(ci + 1)
                    &&& tbl.row_count == t.row_count
                    &&& pos + tcs == 12 + header_len + spec_payload_of(
                        t.columns@.take(ci + 1),
                        bs,
                    ).len()
                } by {
                    assert(header@ == spec_file_header_of(t, bs));
                    assert(header@.columns.len() == header.columns@.len());
                    assert(spec_file_header_of(t, bs).columns.len() == t.columns@.len());
                    assert(ci < t.columns@.len());
                    lemma_deserialize_column_frame(t, bs, bytes@, ci as int, pos as int);
                    let p = t.columns@[ci as int];
                    let cv = col_view(p.1);
                    lemma_payload_of_push(t.columns@.take(ci as int), p, bs);
                    assert(t.columns@.take(ci as int).push(p) =~= t.columns@.take(ci + 1));
                    assert(tbl.view_columns() =~= t.view_columns().take(ci + 1));
                }
            }
            proof {
                assert(cm@ == header@.columns[ci as int]);
                assert(sum_compressed(header@.columns[ci as int].batches) == header@.columns[
                    ci as int
                ].total_compressed_size);
                assert((header@.columns[ci as int].total_row_count as u64) == header@.row_count);
                lemma_total_payload_push(
                    header@.columns.take(ci as int),
                    header@.columns[ci as int],
                );
                assert(header@.columns.take(ci as int).push(header@.columns[ci as int])
                    =~= header@.columns.take(ci + 1));
            }
            pos = pos + tcs;
            ci = ci + 1;
        }
        if pos != blen {
            proof {
                assert forall|t: Table, bs: int| #[trigger] file_image_hyp(
                    t,
                    bs,
                    bytes@,
                ) implies false by {
                    lemma_file_image_framing(t, bs, bytes@);
                    lemma_auto_spec_u32_to_from_le_bytes();
                    assert(t.columns@.take(t.columns@.len() as int) =~= t.columns@);
                }
            }
            return Err(DbError::of(ErrorKind::Corrupt, "trailing bytes after payload"));
        }
        proof {
            assert forall|t: Table, bs: int| #[trigger] file_image_hyp(t, bs, bytes@) implies (
            tbl.view_columns() == t.view_columns() && tbl.row_count == t.row_count) by {
                lemma_file_image_framing(t, bs, bytes@);
                assert(t.view_columns().take(t.columns@.len() as int) =~= t.view_columns());
                if t.columns@.len() == 0 {
                    assert(tbl.row_count == 0);
                }
            }
            assert(bytes@.subrange(0, 8) =~= spec_magic());
            assert(header@.columns.take(header@.columns.len() as int) =~= header@.columns);
            assert(spec_frame_ok(bytes@));
        }
        Ok(tbl)
    }
}

} // verus!

verus! {

impl Table {
    /// File round trip: for every serializable well-formed table,
    /// deserializing the bytes that serialize wrote returns a table with the
    /// same columns, in the same order, with the same names and values.
    /// Serialization refuses exactly the tables that cannot be framed (an
    /// oversized name or varchar batch); when it wrote bytes, reading them
    /// back cannot fail.
    pub fn serialize_roundtrip(&self, config: &BatchConfig) -> (r: Option<Table>)
        requires
            self.well_formed(),
            config.valid(),
        ensures
            r is Some <==> serializable(*self, config.batch_size as int),
            r matches Some(rt) ==> rt.view_columns() == self.view_columns() && rt.row_count
                == self.row_count && rt.well_formed(),
    {
        match self.serialize_with_config(config) {
            Ok(bytes) => {
                proof {
                    assert(file_image_hyp(*self, config.batch_size as int, bytes@));
                }
                match Self::deserialize_with_config(bytes.as_slice(), config) {
                    Ok(rt) => Some(rt),
                    Err(e) => {
                        proof {
                            assert(false);
                        }
                        None
                    },
                }
            },
            Err(_) => None,
        }
    }
}

} // verus!
