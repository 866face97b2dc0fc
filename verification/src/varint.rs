//! Zigzag variable-length integer coding.
//!
//! A signed 64-bit integer is first mapped to an unsigned value by the zigzag
//! map, so that small magnitudes become small unsigned values, and then
//! emitted as one to ten bytes of seven payload bits each, with the
//! continuation bit set on every byte but the last.  The encoder always
//! emits the single shortest form; the decoder also accepts zero-padded
//! forms of up to ten bytes, and rejects longer runs and values that do not
//! fit in 64 bits.

use crate::error::{DbError, ErrorKind};
use vstd::arithmetic::power2::*;
use vstd::prelude::*;

verus! {

/// The zigzag map: 0, -1, 1, -2, 2, ... become 0, 1, 2, 3, 4, ...
pub open spec fn zigzag(v: i64) -> u64 {
    if v >= 0 {
        (2 * v) as u64
    } else {
        (-2 * (v as int) - 1) as u64
    }
}

/// The inverse of the zigzag map.
pub open spec fn unzigzag(u: u64) -> i64 {
    if u % 2 == 0 {
        (u / 2) as i64
    } else {
        (-(((u as int) + 1) / 2)) as i64
    }
}

pub broadcast proof fn lemma_zigzag_unzigzag(v: i64)
    ensures
        #[trigger] unzigzag(zigzag(v)) == v,
{
}

/// The canonical varint encoding of an unsigned value: seven low bits per
/// byte, least significant group first, continuation bit on all but the last.
pub open spec fn varint_bytes(u: u64) -> Seq<u8>
    decreases u,
{
    if u < 0x80 {
        seq![u as u8]
    } else {
        seq![((u % 0x80) + 0x80) as u8] + varint_bytes((u / 0x80) as u64)
    }
}

proof fn lemma_varint_bytes_len_aux(u: u64, k: nat)
    requires
        k >= 1,
        u < pow2((7 * k) as nat),
    ensures
        1 <= varint_bytes(u).len() <= k,
    decreases k,
{
    if u < 0x80 {
    } else {
        lemma2_to64();
        assert(pow2(7) == 0x80);
        assert(k >= 2);
        lemma_pow2_adds(7, (7 * (k - 1)) as nat);
        assert(pow2((7 * k) as nat) == 0x80 * pow2((7 * (k - 1)) as nat));
        assert(u / 0x80 < pow2((7 * (k - 1)) as nat));
        lemma_varint_bytes_len_aux((u / 0x80) as u64, (k - 1) as nat);
    }
}

/// Every varint encoding takes between one and ten bytes.
pub proof fn lemma_varint_bytes_len(u: u64)
    ensures
        1 <= varint_bytes(u).len() <= 10,
{
    assert(pow2(70) > u64::MAX) by {
        lemma_pow2_adds(64, 6);
        lemma2_to64();
    }
    lemma_varint_bytes_len_aux(u, 10);
}

/// Parse one varint from the front of `bytes`: the value and the number of
/// bytes consumed.  Fails on an empty or truncated input, on more than ten
/// bytes without a terminator, and on a value that does not fit in 64 bits.
pub open spec fn take_uvarint(bytes: Seq<u8>) -> Option<(u64, nat)> {
    take_uvarint_bounded(bytes, 10)
}

pub open spec fn take_uvarint_bounded(bytes: Seq<u8>, budget: nat) -> Option<(u64, nat)>
    decreases budget,
{
    if budget == 0 || bytes.len() == 0 {
        None
    } else if bytes[0] < 0x80 {
        Some((bytes[0] as u64, 1))
    } else {
        match take_uvarint_bounded(bytes.drop_first(), (budget - 1) as nat) {
            None => None,
            Some((v, n)) => {
                if (bytes[0] - 0x80) + 0x80 * v > u64::MAX {
                    None
                } else {
                    Some((((bytes[0] - 0x80) + 0x80 * v) as u64, n + 1))
                }
            },
        }
    }
}

/// Parsing starts over the canonical encoding of `u` followed by anything
/// recovers `u` and consumes exactly the encoding.
pub proof fn lemma_take_uvarint_of_encoding(u: u64, rest: Seq<u8>)
    ensures
        take_uvarint(varint_bytes(u) + rest) == Some((u, varint_bytes(u).len() as nat)),
{
    lemma_varint_bytes_len(u);
    lemma_take_uvarint_of_encoding_aux(u, rest, 10);
}

proof fn lemma_take_uvarint_of_encoding_aux(u: u64, rest: Seq<u8>, budget: nat)
    requires
        varint_bytes(u).len() <= budget,
    ensures
        take_uvarint_bounded(varint_bytes(u) + rest, budget) == Some(
            (u, varint_bytes(u).len() as nat),
        ),
    decreases budget,
{
    lemma_varint_bytes_len(u);
    let bytes = varint_bytes(u) + rest;
    if u < 0x80 {
        assert(bytes[0] == u as u8);
    } else {
        let b0: u8 = ((u % 0x80) + 0x80) as u8;
        assert(bytes[0] == b0);
        assert(b0 >= 0x80);
        assert(bytes.drop_first() =~= varint_bytes((u / 0x80) as u64) + rest);
        lemma_varint_bytes_len((u / 0x80) as u64);
        lemma_take_uvarint_of_encoding_aux((u / 0x80) as u64, rest, (budget - 1) as nat);
        assert((b0 - 0x80) + 0x80 * (u / 0x80) == u) by {
            assert(u % 0x80 + 0x80 * (u / 0x80) == u) by (nonlinear_arith);
        }
    }
}

/// Append the zigzag varint encoding of `value` to `output`.
pub fn encode_vle(value: i64, output: &mut Vec<u8>)
    ensures
        final(output)@ == old(output)@ + varint_bytes(zigzag(value)),
{
    let mut remaining: u64 = if value >= 0 {
        (value as u64) * 2
    } else {
        let m: u64 = (-(value + 1)) as u64;
        m * 2 + 1
    };
    proof {
        assert(remaining == zigzag(value));
    }
    let ghost target: Seq<u8> = old(output)@ + varint_bytes(zigzag(value));
    while remaining >= 0x80
        invariant
            output@ + varint_bytes(remaining) == target,
        decreases remaining,
    {
        let ghost pre: u64 = remaining;
        output.push(((remaining % 0x80) + 0x80) as u8);
        remaining = remaining / 0x80;
        proof {
            assert(varint_bytes(pre) == seq![(((pre % 0x80) + 0x80) as u8)] + varint_bytes(
                remaining,
            ));
            assert(output@ + varint_bytes(remaining) =~= target);
        }
    }
    output.push(remaining as u8);
    proof {
        assert(varint_bytes(remaining) == seq![remaining as u8]);
        assert(output@ =~= target);
    }
}

fn decode_uvarint(input: &[u8], budget: u8) -> (r: Result<(u64, usize), DbError>)
    requires
        budget <= 10,
    ensures
        match take_uvarint_bounded(input@, budget as nat) {
            Some((u, n)) => r matches Ok(p) && p.0 == u && p.1 == n && n <= input@.len(),
            None => r matches Err(e) && e.kind == ErrorKind::Corrupt,
        },
    decreases budget,
{
    if budget == 0 || input.len() == 0 {
        return Err(DbError::of(ErrorKind::Corrupt, "truncated or overlong varint"));
    }
    let b: u8 = input[0];
    if b < 0x80 {
        return Ok((b as u64, 1));
    }
    let rest: &[u8] = vstd::slice::slice_subrange(input, 1, input.len());
    proof {
        assert(rest@ =~= input@.drop_first());
    }
    match decode_uvarint(rest, budget - 1) {
        Err(e) => Err(e),
        Ok((v, n)) => {
            let low: u64 = (b - 0x80) as u64;
            if v > (u64::MAX - low) / 0x80 {
                proof {
                    assert(low + 0x80 * v > u64::MAX) by (nonlinear_arith)
                        requires
                            v > (u64::MAX - low) / 0x80,
                            low < 0x80,
                    ;
                }
                Err(DbError::of(ErrorKind::Corrupt, "varint value overflows 64 bits"))
            } else {
                proof {
                    assert(low + 0x80 * v <= u64::MAX) by (nonlinear_arith)
                        requires
                            v <= (u64::MAX - low) / 0x80,
                            low < 0x80,
                    ;
                }
                Ok((low + 0x80 * v, n + 1))
            }
        },
    }
}

/// Decode one zigzag varint from the front of `input`, returning the value
/// and the number of bytes consumed.
pub fn decode_vle(input: &[u8]) -> (r: Result<(i64, usize), DbError>)
    ensures
        match take_uvarint(input@) {
            Some((u, n)) => r matches Ok(p) && p.0 == unzigzag(u) && p.1 == n && n
                <= input@.len(),
            None => r matches Err(e) && e.kind == ErrorKind::Corrupt,
        },
{
    match decode_uvarint(input, 10) {
        Err(e) => Err(e),
        Ok((u, n)) => {
            let value: i64 = if u % 2 == 0 {
                (u / 2) as i64
            } else {
                -((u / 2) as i64) - 1
            };
            proof {
                assert(value == unzigzag(u));
            }
            Ok((value, n))
        },
    }
}

} // verus!
