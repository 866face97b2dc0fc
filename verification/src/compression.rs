//! Column codecs.
//!
//! An int64 column batch is delta-transformed (first value as-is, then
//! wrap-around differences), each delta is zigzag-varint encoded, and the
//! byte buffer is compressed with Zstd at level 3.  A varchar column batch is
//! a concatenation of `(u32 little-endian byte length, raw UTF-8 bytes)`
//! records compressed with LZ4 in its size-prepended framing.  Decompression
//! inverts each stage exactly; an empty input encodes to an empty output.

use crate::error::{DbError, ErrorKind};
use crate::varint::{
    decode_vle, encode_vle, take_uvarint, unzigzag, varint_bytes, zigzag,
    lemma_take_uvarint_of_encoding,
};
use vstd::bytes::*;
use vstd::prelude::*;
use vstd::slice::{slice_subrange, slice_to_vec};
use vstd::utf8::{
    decode_utf8, encode_utf8, encode_utf8_decode_utf8, encode_utf8_valid_utf8, valid_utf8,
};
use vstd::wrapping::i64_specs;

verus! {

// ------------------------------------------------------------------
// int64: delta transform
// ------------------------------------------------------------------

/// The delta transform: the first value as-is, then wrap-around differences
/// of consecutive values.
pub open spec fn spec_deltas(xs: Seq<i64>) -> Seq<i64> {
    Seq::new(
        xs.len(),
        |i: int|
            if i == 0 {
                xs[0]
            } else {
                i64_specs::wrapping_sub(xs[i], xs[i - 1])
            },
    )
}

/// The inverse of the delta transform: wrap-around prefix sums.
pub open spec fn undelta(ds: Seq<i64>) -> Seq<i64>
    decreases ds.len(),
{
    if ds.len() == 0 {
        Seq::empty()
    } else if ds.len() == 1 {
        seq![ds[0]]
    } else {
        let prev = undelta(ds.drop_last());
        prev.push(i64_specs::wrapping_add(prev.last(), ds.last()))
    }
}

pub proof fn lemma_undelta_len(ds: Seq<i64>)
    ensures
        undelta(ds).len() == ds.len(),
    decreases ds.len(),
{
    if ds.len() > 1 {
        lemma_undelta_len(ds.drop_last());
    }
}

/// The delta transform is inverted exactly by wrap-around prefix sums.
pub proof fn lemma_undelta_deltas(xs: Seq<i64>)
    ensures
        undelta(spec_deltas(xs)) == xs,
    decreases xs.len(),
{
    let ds = spec_deltas(xs);
    if xs.len() <= 1 {
        assert(undelta(ds) =~= xs);
    } else {
        let shorter = xs.drop_last();
        assert(ds.drop_last() =~= spec_deltas(shorter));
        lemma_undelta_deltas(shorter);
        lemma_undelta_len(ds.drop_last());
        assert(undelta(ds) =~= xs);
    }
}

// ------------------------------------------------------------------
// int64: varint stream
// ------------------------------------------------------------------

/// The concatenation of the zigzag varint encodings of a value sequence.
pub open spec fn vle_encoding(vs: Seq<i64>) -> Seq<u8>
    decreases vs.len(),
{
    if vs.len() == 0 {
        Seq::empty()
    } else {
        varint_bytes(zigzag(vs[0])) + vle_encoding(vs.drop_first())
    }
}

pub proof fn lemma_vle_encoding_push(vs: Seq<i64>, v: i64)
    ensures
        vle_encoding(vs.push(v)) == vle_encoding(vs) + varint_bytes(zigzag(v)),
    decreases vs.len(),
{
    assert(vs.push(v)[0] == if vs.len() == 0 { v } else { vs[0] });
    if vs.len() == 0 {
        assert(vs.push(v).drop_first() =~= Seq::<i64>::empty());
        assert(vle_encoding(Seq::<i64>::empty()) == Seq::<u8>::empty());
        assert(vle_encoding(vs.push(v)) =~= vle_encoding(vs) + varint_bytes(zigzag(v)));
    } else {
        assert(vs.push(v).drop_first() =~= vs.drop_first().push(v));
        lemma_vle_encoding_push(vs.drop_first(), v);
        assert(vle_encoding(vs.push(v)) =~= vle_encoding(vs) + varint_bytes(zigzag(v)));
    }
}

/// Read exactly `n` zigzag varints from the front of `bytes`; bytes after the
/// `n`-th value are tolerated and ignored.
pub open spec fn take_vle_values(bytes: Seq<u8>, n: nat) -> Option<Seq<i64>>
    decreases n,
{
    if n == 0 {
        Some(Seq::empty())
    } else {
        match take_uvarint(bytes) {
            None => None,
            Some((u, k)) => match take_vle_values(bytes.skip(k as int), (n - 1) as nat) {
                None => None,
                Some(vs) => Some(seq![unzigzag(u)] + vs),
            },
        }
    }
}

pub proof fn lemma_take_vle_values_of_encoding(vs: Seq<i64>, rest: Seq<u8>)
    ensures
        take_vle_values(vle_encoding(vs) + rest, vs.len()) == Some(vs),
    decreases vs.len(),
{
    if vs.len() == 0 {
        assert(take_vle_values(vle_encoding(vs) + rest, 0) =~= Some(Seq::<i64>::empty()));
        assert(Seq::<i64>::empty() =~= vs);
    } else {
        let head = vs[0];
        let tail = vs.drop_first();
        let enc0 = varint_bytes(zigzag(head));
        let all = vle_encoding(vs) + rest;
        assert(all =~= enc0 + (vle_encoding(tail) + rest));
        lemma_take_uvarint_of_encoding(zigzag(head), vle_encoding(tail) + rest);
        crate::varint::lemma_zigzag_unzigzag(head);
        assert(all.skip(enc0.len() as int) =~= vle_encoding(tail) + rest);
        lemma_take_vle_values_of_encoding(tail, rest);
        assert(seq![head] + tail =~= vs);
    }
}

// ------------------------------------------------------------------
// int64: whole-batch codec specification
// ------------------------------------------------------------------

/// The uncompressed byte image of an int64 batch: the zigzag varint stream of
/// its delta transform.
pub open spec fn spec_encode_int64(xs: Seq<i64>) -> Seq<u8> {
    vle_encoding(spec_deltas(xs))
}

/// Decoding an int64 batch image: read exactly `n` varints, then take
/// wrap-around prefix sums.
pub open spec fn spec_decode_int64(bytes: Seq<u8>, n: nat) -> Option<Seq<i64>> {
    match take_vle_values(bytes, n) {
        None => None,
        Some(vs) => Some(undelta(vs)),
    }
}

/// Codec round trip for int64 columns: for every finite sequence of signed
/// 64-bit values, decoding its encoding at its own length restores the
/// sequence exactly.
pub proof fn lemma_int64_codec_roundtrip(xs: Seq<i64>)
    ensures
        spec_decode_int64(spec_encode_int64(xs), xs.len()) == Some(xs),
{
    let ds = spec_deltas(xs);
    assert(vle_encoding(ds) + Seq::<u8>::empty() =~= vle_encoding(ds));
    lemma_take_vle_values_of_encoding(ds, Seq::<u8>::empty());
    lemma_undelta_deltas(xs);
}

// ------------------------------------------------------------------
// trusted wrappers for the outside compressors
// ------------------------------------------------------------------

/// The Zstd frame that `zstd::encode_all` at level 3 produces for the given
/// bytes; a function of the input alone.
pub uninterp spec fn zstd_of(bytes: Seq<u8>) -> Seq<u8>;

/// Relies on zstd::encode_all at compression level 3: on in-memory data the
/// output frame is a deterministic function of the input bytes, and the call
/// cannot fail (running out of memory aborts, as any allocation does).
#[verifier::external_body]
fn zstd_compress(data: &[u8]) -> (r: Vec<u8>)
    ensures
        r@ == zstd_of(data@),
{
    zstd::encode_all(data, 3).expect("zstd compression of in-memory data cannot fail")
}

/// Relies on zstd::decode_all: decoding a frame written by encode_all
/// succeeds and returns exactly the bytes that were compressed.
#[verifier::external_body]
fn zstd_decompress(data: &[u8]) -> (r: Option<Vec<u8>>)
    ensures
        match r {
            Some(v) => forall|u: Seq<u8>| zstd_of(u) == data@ ==> v@ == u,
            None => forall|u: Seq<u8>| zstd_of(u) != data@,
        },
{
    zstd::decode_all(data).ok()
}

/// The LZ4 block with size-prepended framing that
/// `lz4_flex::compress_prepend_size` produces for the given bytes; a function
/// of the input alone.
pub uninterp spec fn lz4_of(bytes: Seq<u8>) -> Seq<u8>;

/// Relies on lz4_flex::compress_prepend_size: the output is a deterministic
/// function of the input bytes; the four-byte size prefix limits the input
/// length to u32.
#[verifier::external_body]
fn lz4_compress(data: &[u8]) -> (r: Vec<u8>)
    requires
        data@.len() <= u32::MAX,
    ensures
        r@ == lz4_of(data@),
{
    lz4_flex::compress_prepend_size(data)
}

/// Relies on lz4_flex::decompress_size_prepended: decompressing the output of
/// compress_prepend_size succeeds and returns exactly the bytes that were
/// compressed.
#[verifier::external_body]
fn lz4_decompress(data: &[u8]) -> (r: Option<Vec<u8>>)
    ensures
        match r {
            Some(v) => forall|u: Seq<u8>| lz4_of(u) == data@ ==> v@ == u,
            None => forall|u: Seq<u8>| lz4_of(u) != data@,
        },
{
    lz4_flex::decompress_size_prepended(data).ok()
}

/// Relies on String::from_utf8: it succeeds exactly on valid UTF-8 input and
/// yields its decoding.
#[verifier::external_body]
pub(crate) fn string_from_utf8(bytes: Vec<u8>) -> (r: Option<String>)
    ensures
        match r {
            Some(s) => valid_utf8(bytes@) && s@ == decode_utf8(bytes@),
            None => !valid_utf8(bytes@),
        },
{
    String::from_utf8(bytes).ok()
}

// ------------------------------------------------------------------
// int64: executable codec
// ------------------------------------------------------------------

/// Compress an int64 column batch: delta transform, zigzag varint encoding,
/// then Zstd at level 3.  An empty batch compresses to an empty buffer; a
/// non-empty one always succeeds and yields exactly the compressed image.
pub fn compress_int64_column(data: &[i64]) -> (r: Result<Vec<u8>, DbError>)
    ensures
        r is Ok,
        data@.len() == 0 ==> (r matches Ok(v) && v@ == Seq::<u8>::empty()),
        data@.len() > 0 ==> (r matches Ok(v) && v@ == zstd_of(spec_encode_int64(data@))),
{
    if data.len() == 0 {
        return Ok(Vec::new());
    }
    let ghost goal: Seq<i64> = spec_deltas(data@);

    let mut deltas: Vec<i64> = Vec::new();
    deltas.push(data[0]);
    let mut i: usize = 1;
    while i < data.len()
        invariant
            1 <= i <= data@.len(),
            goal == spec_deltas(data@),
            deltas@ =~= goal.take(i as int),
        decreases data@.len() - i,
    {
        let d: i64 = data[i].wrapping_sub(data[i - 1]);
        proof {
            assert(goal[i as int] == i64_specs::wrapping_sub(data@[i as int], data@[i as int
                - 1]));
            assert(d == goal[i as int]);
        }
        deltas.push(d);
        proof {
            assert(deltas@ =~= goal.take(i + 1));
        }
        i = i + 1;
    }
    proof {
        assert(deltas@ =~= goal);
    }

    let mut encoded: Vec<u8> = Vec::new();
    let mut j: usize = 0;
    while j < deltas.len()
        invariant
            j <= deltas@.len(),
            encoded@ == vle_encoding(deltas@.take(j as int)),
        decreases deltas@.len() - j,
    {
        proof {
            lemma_vle_encoding_push(deltas@.take(j as int), deltas@[j as int]);
            assert(deltas@.take(j as int).push(deltas@[j as int]) =~= deltas@.take(j + 1));
        }
        encode_vle(deltas[j], &mut encoded);
        j = j + 1;
    }
    proof {
        assert(deltas@.take(deltas@.len() as int) =~= deltas@);
    }

    Ok(zstd_compress(encoded.as_slice()))
}

spec fn opt_prepend_i64(pre: Seq<i64>, o: Option<Seq<i64>>) -> Option<Seq<i64>> {
    match o {
        None => None,
        Some(vs) => Some(pre + vs),
    }
}

/// Read exactly `n` zigzag varints from `buf`; trailing bytes are tolerated.
fn parse_vle_values(buf: &[u8], n: usize) -> (r: Result<Vec<i64>, DbError>)
    ensures
        match take_vle_values(buf@, n as nat) {
            Some(vs) => r matches Ok(v) && v@ == vs,
            None => r matches Err(e) && e.kind == ErrorKind::Corrupt,
        },
{
    let mut values: Vec<i64> = Vec::new();
    let mut pos: usize = 0;
    let mut i: usize = 0;
    proof {
        assert(buf@.skip(0) =~= buf@);
        if take_vle_values(buf@, n as nat) is Some {
            assert(values@ + take_vle_values(buf@, n as nat).unwrap() =~= take_vle_values(
                buf@,
                n as nat,
            ).unwrap());
        }
    }
    while i < n
        invariant
            i <= n,
            pos <= buf@.len(),
            values@.len() == i,
            opt_prepend_i64(values@, take_vle_values(buf@.skip(pos as int), (n - i) as nat))
                == take_vle_values(buf@, n as nat),
        decreases n - i,
    {
        let window: &[u8] = slice_subrange(buf, pos, buf.len());
        match decode_vle(window) {
            Err(e) => {
                proof {
                    assert(take_uvarint(buf@.skip(pos as int)) is None);
                    assert(take_vle_values(buf@.skip(pos as int), (n - i) as nat) is None);
                }
                return Err(e);
            },
            Ok((value, consumed)) => {
                proof {
                    let rem = buf@.skip(pos as int);
                    assert(take_uvarint(rem) matches Some(p) && p.1 == consumed && unzigzag(p.0)
                        == value);
                    assert(rem.skip(consumed as int) =~= buf@.skip(pos + consumed));
                    assert(values@.push(value) + take_vle_values(
                        buf@.skip(pos + consumed),
                        (n - i - 1) as nat,
                    ).unwrap() =~= values@ + (seq![value] + take_vle_values(
                        buf@.skip(pos + consumed),
                        (n - i - 1) as nat,
                    ).unwrap())) by {
                        if take_vle_values(buf@.skip(pos + consumed), (n - i - 1) as nat)
                            is Some {
                        }
                    }
                }
                values.push(value);
                pos = pos + consumed;
                i = i + 1;
            },
        }
    }
    proof {
        assert(take_vle_values(buf@.skip(pos as int), 0) == Some(Seq::<i64>::empty()));
        assert(values@ + Seq::<i64>::empty() =~= values@);
    }
    Ok(values)
}

/// Wrap-around prefix sums, inverting the delta transform.
fn prefix_sums(deltas: &Vec<i64>) -> (r: Vec<i64>)
    ensures
        r@ == undelta(deltas@),
{
    let mut result: Vec<i64> = Vec::new();
    let mut i: usize = 0;
    while i < deltas.len()
        invariant
            i <= deltas@.len(),
            result@ == undelta(deltas@.take(i as int)),
            result@.len() == i,
        decreases deltas@.len() - i,
    {
        proof {
            lemma_undelta_len(deltas@.take(i as int));
        }
        if i == 0 {
            result.push(deltas[0]);
            proof {
                assert(deltas@.take(1) =~= seq![deltas@[0]]);
            }
        } else {
            let prev: i64 = result[i - 1];
            result.push(prev.wrapping_add(deltas[i]));
            proof {
                let t1 = deltas@.take(i + 1);
                assert(t1.drop_last() =~= deltas@.take(i as int));
                assert(t1.len() > 1);
                assert(undelta(t1) == undelta(deltas@.take(i as int)).push(
                    i64_specs::wrapping_add(undelta(deltas@.take(i as int)).last(), t1.last()),
                ));
            }
        }
        i = i + 1;
    }
    proof {
        assert(deltas@.take(deltas@.len() as int) =~= deltas@);
    }
    result
}

/// Decompress an int64 column batch, reading exactly `row_count` values.
pub fn decompress_int64_column(compressed: &[u8], row_count: usize) -> (r: Result<
    Vec<i64>,
    DbError,
>)
    ensures
        compressed@.len() == 0 && row_count == 0 ==> (r matches Ok(v) && v@
            == Seq::<i64>::empty()),
        forall|u: Seq<u8>| #[trigger] zstd_of(u) == compressed@ ==> match spec_decode_int64(
            u,
            row_count as nat,
        ) {
            Some(vals) => r matches Ok(v) && v@ == vals,
            None => r matches Err(e) && e.kind == ErrorKind::Corrupt,
        },
{
    if compressed.len() == 0 && row_count == 0 {
        proof {
            assert(forall|u: Seq<u8>| take_vle_values(u, 0) == Some(Seq::<i64>::empty()));
        }
        return Ok(Vec::new());
    }
    let decompressed: Vec<u8> = match zstd_decompress(compressed) {
        Some(buf) => buf,
        None => {
            return Err(DbError::of(ErrorKind::Io, "zstd decompression failed"));
        },
    };
    match parse_vle_values(decompressed.as_slice(), row_count) {
        Ok(deltas) => Ok(prefix_sums(&deltas)),
        Err(e) => Err(e),
    }
}

// ------------------------------------------------------------------
// varchar: record stream specification
// ------------------------------------------------------------------

/// The views of a string column.
pub open spec fn strs_view(ds: Seq<String>) -> Seq<Seq<char>> {
    ds.map_values(|s: String| s@)
}

/// One varchar record: the UTF-8 byte length as a little-endian u32, then the
/// raw UTF-8 bytes.
pub open spec fn spec_varchar_record(s: Seq<char>) -> Seq<u8> {
    spec_u32_to_le_bytes(encode_utf8(s).len() as u32) + encode_utf8(s)
}

/// The concatenation of the records of a string sequence.
pub open spec fn spec_varchar_records(ss: Seq<Seq<char>>) -> Seq<u8>
    decreases ss.len(),
{
    if ss.len() == 0 {
        Seq::empty()
    } else {
        spec_varchar_record(ss[0]) + spec_varchar_records(ss.drop_first())
    }
}

/// Whether a string sequence can be framed: every record length fits the u32
/// prefix and the whole record stream fits the LZ4 size prefix.
pub open spec fn varchar_fits(ss: Seq<Seq<char>>) -> bool {
    &&& forall|i: int| 0 <= i < ss.len() ==> #[trigger] encode_utf8(ss[i]).len() <= u32::MAX
    &&& spec_varchar_records(ss).len() <= u32::MAX
}

pub proof fn lemma_varchar_records_push(ss: Seq<Seq<char>>, s: Seq<char>)
    ensures
        spec_varchar_records(ss.push(s)) == spec_varchar_records(ss) + spec_varchar_record(s),
    decreases ss.len(),
{
    assert(ss.push(s)[0] == if ss.len() == 0 { s } else { ss[0] });
    if ss.len() == 0 {
        assert(ss.push(s).drop_first() =~= Seq::<Seq<char>>::empty());
        assert(spec_varchar_records(Seq::<Seq<char>>::empty()) == Seq::<u8>::empty());
        assert(spec_varchar_records(ss.push(s)) =~= spec_varchar_records(ss)
            + spec_varchar_record(s));
    } else {
        assert(ss.push(s).drop_first() =~= ss.drop_first().push(s));
        lemma_varchar_records_push(ss.drop_first(), s);
        assert(spec_varchar_records(ss.push(s)) =~= spec_varchar_records(ss)
            + spec_varchar_record(s));
    }
}

/// Read exactly `n` length-prefixed UTF-8 records; trailing bytes are
/// tolerated.  Fails on truncation or invalid UTF-8.
pub open spec fn take_varchar_values(bytes: Seq<u8>, n: nat) -> Option<Seq<Seq<char>>>
    decreases n,
{
    if n == 0 {
        Some(Seq::empty())
    } else if bytes.len() < 4 {
        None
    } else {
        let len = spec_u32_from_le_bytes(bytes.take(4)) as int;
        if 4 + len > bytes.len() {
            None
        } else {
            let body = bytes.subrange(4, 4 + len);
            if !valid_utf8(body) {
                None
            } else {
                match take_varchar_values(bytes.skip(4 + len), (n - 1) as nat) {
                    None => None,
                    Some(ss) => Some(seq![decode_utf8(body)] + ss),
                }
            }
        }
    }
}

/// Codec round trip for varchar columns: for every sequence of strings whose
/// records fit the u32 framing, reading back its record stream at its own
/// length restores the strings exactly.
pub proof fn lemma_varchar_codec_roundtrip(ss: Seq<Seq<char>>)
    requires
        varchar_fits(ss),
    ensures
        take_varchar_values(spec_varchar_records(ss), ss.len()) == Some(ss),
{
    lemma_take_varchar_values_of_records(ss, Seq::<u8>::empty());
    assert(spec_varchar_records(ss) + Seq::<u8>::empty() =~= spec_varchar_records(ss));
}

pub proof fn lemma_take_varchar_values_of_records(ss: Seq<Seq<char>>, rest: Seq<u8>)
    requires
        forall|i: int| 0 <= i < ss.len() ==> #[trigger] encode_utf8(ss[i]).len() <= u32::MAX,
    ensures
        take_varchar_values(spec_varchar_records(ss) + rest, ss.len()) == Some(ss),
    decreases ss.len(),
{
    if ss.len() == 0 {
        assert(take_varchar_values(spec_varchar_records(ss) + rest, 0) == Some(
            Seq::<Seq<char>>::empty(),
        ));
        assert(Seq::<Seq<char>>::empty() =~= ss);
    } else {
        let head = ss[0];
        let tail = ss.drop_first();
        let body = encode_utf8(head);
        let len_bytes = spec_u32_to_le_bytes(body.len() as u32);
        let all = spec_varchar_records(ss) + rest;
        assert(all =~= len_bytes + body + (spec_varchar_records(tail) + rest));
        lemma_auto_spec_u32_to_from_le_bytes();
        assert(all.take(4) =~= len_bytes);
        assert(spec_u32_from_le_bytes(all.take(4)) == body.len());
        assert(all.subrange(4, 4 + body.len() as int) =~= body);
        broadcast use encode_utf8_valid_utf8, encode_utf8_decode_utf8;

        assert(all.skip(4 + body.len() as int) =~= spec_varchar_records(tail) + rest);
        assert(forall|i: int| 0 <= i < tail.len() ==> #[trigger] encode_utf8(tail[i]).len()
            <= u32::MAX) by {
            assert(forall|i: int| 0 <= i < tail.len() ==> tail[i] == ss[i + 1]);
        }
        lemma_take_varchar_values_of_records(tail, rest);
        assert(seq![head] + tail =~= ss);
    }
}

// ------------------------------------------------------------------
// varchar: executable codec
// ------------------------------------------------------------------

/// Compress a varchar column batch: length-prefixed UTF-8 records compressed
/// with LZ4 size-prepended framing.  An empty batch compresses to an empty
/// buffer; a batch whose records do not fit the u32 framing is refused.
pub fn compress_varchar_column(data: &[String]) -> (r: Result<Vec<u8>, DbError>)
    ensures
        data@.len() == 0 ==> (r matches Ok(v) && v@ == Seq::<u8>::empty()),
        data@.len() > 0 && varchar_fits(strs_view(data@)) ==> (r matches Ok(v) && v@
            == lz4_of(spec_varchar_records(strs_view(data@)))),
        data@.len() > 0 && !varchar_fits(strs_view(data@)) ==> (r matches Err(e) && e.kind
            == ErrorKind::Io),
{
    if data.len() == 0 {
        return Ok(Vec::new());
    }
    let ghost ss: Seq<Seq<char>> = strs_view(data@);
    let mut serialized: Vec<u8> = Vec::new();
    let mut i: usize = 0;
    while i < data.len()
        invariant
            i <= data@.len(),
            ss == strs_view(data@),
            ss.len() == data@.len(),
            forall|k: int| 0 <= k < data@.len() ==> ss[k] == data@[k]@,
            serialized@ == spec_varchar_records(ss.take(i as int)),
            forall|k: int| 0 <= k < i ==> #[trigger] encode_utf8(ss[k]).len() <= u32::MAX,
        decreases data@.len() - i,
    {
        let s: &String = &data[i];
        let mut body: Vec<u8> = s.as_str().as_bytes_vec();
        let byte_len: usize = body.len();
        if byte_len > u32::MAX as usize {
            return Err(DbError::of(ErrorKind::Io, "string too long for the u32 length prefix"));
        }
        let mut len_bytes: Vec<u8> = u32_to_le_bytes(byte_len as u32);
        serialized.append(&mut len_bytes);
        serialized.append(&mut body);
        proof {
            lemma_varchar_records_push(ss.take(i as int), ss[i as int]);
            assert(ss.take(i as int).push(ss[i as int]) =~= ss.take(i + 1));
            assert(serialized@ =~= spec_varchar_records(ss.take(i + 1)));
        }
        i = i + 1;
    }
    proof {
        assert(ss.take(ss.len() as int) =~= ss);
    }
    if serialized.len() > u32::MAX as usize {
        return Err(DbError::of(ErrorKind::Io, "column batch too large for the LZ4 framing"));
    }
    Ok(lz4_compress(serialized.as_slice()))
}

spec fn opt_prepend_strs(pre: Seq<Seq<char>>, o: Option<Seq<Seq<char>>>) -> Option<
    Seq<Seq<char>>,
> {
    match o {
        None => None,
        Some(vs) => Some(pre + vs),
    }
}

/// Read exactly `n` length-prefixed UTF-8 records from `buf`.
fn parse_varchar_values(buf: &[u8], n: usize) -> (r: Result<Vec<String>, DbError>)
    ensures
        match take_varchar_values(buf@, n as nat) {
            Some(ss) => r matches Ok(v) && strs_view(v@) == ss,
            None => r matches Err(e) && e.kind == ErrorKind::Corrupt,
        },
{
    let mut values: Vec<String> = Vec::new();
    let mut pos: usize = 0;
    let mut i: usize = 0;
    proof {
        assert(buf@.skip(0) =~= buf@);
        assert(strs_view(values@) =~= Seq::<Seq<char>>::empty());
        if take_varchar_values(buf@, n as nat) is Some {
            assert(strs_view(values@) + take_varchar_values(buf@, n as nat).unwrap()
                =~= take_varchar_values(buf@, n as nat).unwrap());
        }
    }
    while i < n
        invariant
            i <= n,
            pos <= buf@.len(),
            values@.len() == i,
            opt_prepend_strs(
                strs_view(values@),
                take_varchar_values(buf@.skip(pos as int), (n - i) as nat),
            ) == take_varchar_values(buf@, n as nat),
        decreases n - i,
    {
        let ghost rem = buf@.skip(pos as int);
        if buf.len() - pos < 4 {
            proof {
                assert(take_varchar_values(rem, (n - i) as nat) is None);
            }
            return Err(DbError::of(ErrorKind::Corrupt, "truncated varchar length prefix"));
        }
        let len_slice: &[u8] = slice_subrange(buf, pos, pos + 4);
        proof {
            assert(len_slice@ =~= rem.take(4));
        }
        let len32: u32 = u32_from_le_bytes(len_slice);
        let len: usize = len32 as usize;
        if len > buf.len() - pos - 4 {
            proof {
                assert(take_varchar_values(rem, (n - i) as nat) is None);
            }
            return Err(DbError::of(ErrorKind::Corrupt, "truncated varchar record"));
        }
        let body_slice: &[u8] = slice_subrange(buf, pos + 4, pos + 4 + len);
        proof {
            assert(body_slice@ =~= rem.subrange(4, 4 + len as int));
        }
        let body: Vec<u8> = slice_to_vec(body_slice);
        match string_from_utf8(body) {
            None => {
                proof {
                    assert(take_varchar_values(rem, (n - i) as nat) is None);
                }
                return Err(DbError::of(ErrorKind::Corrupt, "invalid UTF-8 in varchar data"));
            },
            Some(s) => {
                proof {
                    let tail_opt = take_varchar_values(
                        buf@.skip(pos + 4 + len),
                        (n - i - 1) as nat,
                    );
                    assert(rem.skip(4 + len as int) =~= buf@.skip(pos + 4 + len));
                    assert(take_varchar_values(rem, (n - i) as nat) == opt_prepend_strs(
                        seq![s@],
                        tail_opt,
                    ));
                    assert(strs_view(values@.push(s)) =~= strs_view(values@) + seq![s@]);
                    if tail_opt is Some {
                        assert((strs_view(values@) + seq![s@]) + tail_opt.unwrap() =~= strs_view(
                            values@,
                        ) + (seq![s@] + tail_opt.unwrap()));
                    }
                }
                values.push(s);
                pos = pos + 4 + len;
                i = i + 1;
            },
        }
    }
    proof {
        assert(take_varchar_values(buf@.skip(pos as int), 0) == Some(Seq::<Seq<char>>::empty()));
        assert(strs_view(values@) + Seq::<Seq<char>>::empty() =~= strs_view(values@));
    }
    Ok(values)
}

/// Decompress a varchar column batch, reading exactly `row_count` strings.
pub fn decompress_varchar_column(compressed: &[u8], row_count: usize) -> (r: Result<
    Vec<String>,
    DbError,
>)
    ensures
        compressed@.len() == 0 && row_count == 0 ==> (r matches Ok(v) && v@.len() == 0),
        forall|u: Seq<u8>| #[trigger] lz4_of(u) == compressed@ ==> match take_varchar_values(
            u,
            row_count as nat,
        ) {
            Some(ss) => r matches Ok(v) && strs_view(v@) == ss,
            None => r matches Err(e) && e.kind == ErrorKind::Corrupt,
        },
{
    if compressed.len() == 0 && row_count == 0 {
        let empty_result: Vec<String> = Vec::new();
        proof {
            assert(forall|u: Seq<u8>| take_varchar_values(u, 0) == Some(
                Seq::<Seq<char>>::empty(),
            ));
            assert(strs_view(empty_result@) =~= Seq::<Seq<char>>::empty());
        }
        return Ok(empty_result);
    }
    let decompressed: Vec<u8> = match lz4_decompress(compressed) {
        Some(buf) => buf,
        None => {
            return Err(DbError::of(ErrorKind::Io, "LZ4 decompression failed"));
        },
    };
    parse_varchar_values(decompressed.as_slice(), row_count)
}

} // verus!
