//! Variable-length integer decoding.
//!
//! A varint stores an unsigned integer in base-128 groups, least-significant
//! group first; the top bit of each byte signals that another byte follows.
//! At most ten groups are read, enough for any 64-bit value.

use vstd::prelude::*;

verus! {

/// Most-significant bit of a byte, used as the continuation flag.
pub const MSB: u8 = 0b1000_0000;

/// Offset, within the ten bytes a varint may occupy, of the first byte whose
/// continuation bit is clear; `None` when the bytes run out (or ten
/// continuation-flagged bytes go by) before such a byte appears.
pub open spec fn varint_terminator(s: Seq<u8>, pos: int, i: int) -> Option<int>
    decreases 10 - i,
{
    if i < 0 || i >= 10 || pos + i < 0 || pos + i >= s.len() {
        None
    } else if s[pos + i] < 128 {
        Some(i)
    } else {
        varint_terminator(s, pos, i + 1)
    }
}

/// The value accumulated from the low seven bits of the first `n` bytes at
/// `pos`, each group shifted seven bits further left, truncated to 64 bits.
pub open spec fn varint_value(s: Seq<u8>, pos: int, n: int) -> u64
    decreases n,
{
    if n <= 0 || n > 10 {
        0
    } else {
        varint_value(s, pos, n - 1) | (((s[pos + n - 1] & 0x7f) as u64) << ((7 * (n - 1)) as u64))
    }
}

/// Decoding a varint at `pos`: the value and the position just past its last
/// byte, or `None` when no terminating byte stands within reach.
pub open spec fn spec_decode_var(s: Seq<u8>, pos: int) -> Option<(u64, int)> {
    match varint_terminator(s, pos, 0) {
        Some(i) => Some((varint_value(s, pos, i + 1), pos + i + 1)),
        None => None,
    }
}

/// The varint encoding of `v`: low seven bits first, continuation bit set on
/// every byte but the last.
pub open spec fn spec_encode_var(v: u64) -> Seq<u8>
    decreases v,
    via spec_encode_var_dec
{
    if v < 128 {
        seq![v as u8]
    } else {
        seq![((v & 0x7f) | 0x80) as u8] + spec_encode_var(v >> 7)
    }
}

#[via_fn]
proof fn spec_encode_var_dec(v: u64) {
    assert(v >= 128 ==> (v >> 7) < v) by (bit_vector);
}

/// Decode a variable-length integer from `data` starting at `pos`.
///
/// On success the decoded value is returned together with the position just
/// past the consumed bytes; on failure nothing is consumed.
pub fn decode_var(data: &[u8], pos: usize) -> (r: Result<(u64, usize), ()>)
    requires
        pos <= data@.len(),
    ensures
        match r {
            Ok((v, end)) => {
                &&& spec_decode_var(data@, pos as int) == Some((v, end as int))
                &&& pos < end <= data@.len()
                &&& end <= pos + 10
            },
            Err(()) => spec_decode_var(data@, pos as int) is None,
        },
{
    let mut result: u64 = 0;
    let mut i: usize = 0;
    loop
        invariant
            pos <= data@.len(),
            i <= 10,
            pos + i <= data@.len(),
            varint_terminator(data@, pos as int, 0) == varint_terminator(
                data@,
                pos as int,
                i as int,
            ),
            result == varint_value(data@, pos as int, i as int),
        decreases 10 - i,
    {
        if i >= 10 || data.len() - pos <= i {
            return Err(());
        }
        let b = data[pos + i];
        result = result | (((b & 0x7f) as u64) << (7 * (i as u64)));
        assert(result == varint_value(data@, pos as int, i + 1));
        if b & 0x80 == 0 {
            assert(b < 128) by (bit_vector)
                requires b & 0x80 == 0;
            return Ok((result, pos + i + 1));
        }
        assert(b >= 128) by (bit_vector)
            requires b & 0x80 != 0;
        i = i + 1;
    }
}

/// Encode `v` as a varint.
pub fn encode_var(v: u64) -> (r: Vec<u8>)
    ensures
        r@ == spec_encode_var(v),
{
    let mut out: Vec<u8> = Vec::new();
    let mut rest: u64 = v;
    loop
        invariant
            spec_encode_var(v) == out@ + spec_encode_var(rest),
        decreases rest,
    {
        if rest < 128 {
            out.push(rest as u8);
            assert(spec_encode_var(v) =~= out@);
            return out;
        }
        out.push(((rest & 0x7f) | 0x80) as u8);
        proof {
            assert(rest >= 128 ==> (rest >> 7) < rest) by (bit_vector);
            assert(spec_encode_var(v) =~= out@ + spec_encode_var(rest >> 7));
        }
        rest = rest >> 7;
    }
}

/// Law: varint decoding is total and consumes only bytes that are present.
/// Decoding an empty buffer fails; decoding fails whenever every byte in
/// reach carries the continuation bit (a lone flagged byte, or a truncated
/// multi-byte sequence); success consumes between one and ten bytes, never
/// reaching past the end of the buffer.
pub proof fn lemma_decode_var_totality(s: Seq<u8>, pos: int)
    requires
        0 <= pos <= s.len(),
    ensures
        spec_decode_var(s, pos) matches Some((v, end)) ==> pos < end <= s.len() && end
            <= pos + 10,
        pos == s.len() ==> spec_decode_var(s, pos) is None,
        (forall|j: int| pos <= j < s.len() ==> s[j] >= 128) ==> spec_decode_var(s, pos) is None,
{
    lemma_terminator_bounds(s, pos, 0);
    if forall|j: int| pos <= j < s.len() ==> s[j] >= 128 {
        lemma_terminator_all_continuation(s, pos, 0);
    }
}

proof fn lemma_terminator_bounds(s: Seq<u8>, pos: int, i: int)
    requires
        0 <= i,
    ensures
        varint_terminator(s, pos, i) matches Some(k) ==> i <= k < 10 && pos + k < s.len(),
    decreases 10 - i,
{
    if !(i >= 10 || pos + i < 0 || pos + i >= s.len()) && s[pos + i] >= 128 {
        lemma_terminator_bounds(s, pos, i + 1);
    }
}

proof fn lemma_terminator_all_continuation(s: Seq<u8>, pos: int, i: int)
    requires
        0 <= pos <= s.len(),
        0 <= i,
        forall|j: int| pos <= j < s.len() ==> s[j] >= 128,
    ensures
        varint_terminator(s, pos, i) is None,
    decreases 10 - i,
{
    if !(i >= 10 || pos + i < 0 || pos + i >= s.len()) {
        lemma_terminator_all_continuation(s, pos, i + 1);
    }
}

/// Law: encoding any 64-bit value and decoding the result yields the value
/// back, consuming exactly the encoded bytes; the maximal 64-bit value takes
/// exactly ten bytes.
pub proof fn lemma_varint_round_trip(v: u64)
    ensures
        spec_decode_var(spec_encode_var(v), 0) == Some((v, spec_encode_var(v).len() as int)),
        1 <= spec_encode_var(v).len() <= 10,
        v == u64::MAX ==> spec_encode_var(v).len() == 10,
{
    lemma_encode_len(v);
    lemma_round_trip_rec(v);
    if v == u64::MAX {
        lemma_max_len(v);
    }
}

proof fn lemma_encode_len(v: u64)
    ensures
        1 <= spec_encode_var(v).len() <= 10,
        forall|j: int| 0 <= j < spec_encode_var(v).len() - 1 ==> spec_encode_var(v)[j] >= 128,
        spec_encode_var(v)[spec_encode_var(v).len() - 1] < 128,
    decreases v,
{
    if v >= 128 {
        assert((v >> 7) < v) by (bit_vector)
            requires v >= 128;
        lemma_encode_len(v >> 7);
        assert(v >> 7 < (1u64 << 63u64)) by (bit_vector);
        lemma_len_by_magnitude(v >> 7, 1u64 << 63u64, 9);
        assert(((v & 0x7f) | 0x80) as u8 >= 128) by (bit_vector);
        let e = spec_encode_var(v);
        let rest = spec_encode_var(v >> 7);
        assert(e == seq![((v & 0x7f) | 0x80) as u8] + rest);
        assert forall|j: int| 0 <= j < e.len() - 1 implies e[j] >= 128 by {
            if j > 0 {
                assert(e[j] == rest[j - 1]);
            }
        }
        assert(e[e.len() - 1] == rest[rest.len() - 1]);
    }
}

/// Bytes needed never exceed `n` while the value stays under `128^n`
/// (tracked here as `bound == 2^(7n)`, with `n` one byte short of the cap).
proof fn lemma_len_by_magnitude(v: u64, bound: u64, n: int)
    requires
        1 <= n <= 9,
        v < bound,
        bound == (1u64 << ((7 * n) as u64)),
    ensures
        spec_encode_var(v).len() <= n,
    decreases n,
{
    if v >= 128 {
        let sh: u64 = (7 * n) as u64;
        assert(sh >= 8) by (bit_vector)
            requires v >= 128 && v < bound && bound == (1u64 << sh) && 7 <= sh <= 63;
        assert(n >= 2);
        assert((v >> 7) < (bound >> 7) && (bound >> 7) == (1u64 << ((sh - 7) as u64)))
            by (bit_vector)
            requires v < bound && bound == (1u64 << sh) && 8 <= sh <= 63;
        assert(((sh - 7) as u64) == ((7 * (n - 1)) as u64));
        lemma_len_by_magnitude(v >> 7, bound >> 7, n - 1);
    }
}

proof fn lemma_max_len(v: u64)
    requires
        v == u64::MAX,
    ensures
        spec_encode_var(v).len() == 10,
{
    assert(u64::MAX >= (1u64 << 63u64)) by (bit_vector);
    lemma_len_lower(v, 1u64 << 63u64, 9);
    lemma_encode_len(v);
}

/// A value at or above `128^n` (tracked here as `bound == 2^(7n)`) needs more
/// than `n` bytes.
proof fn lemma_len_lower(v: u64, bound: u64, n: int)
    requires
        1 <= n <= 9,
        v >= bound,
        bound == (1u64 << ((7 * n) as u64)),
    ensures
        spec_encode_var(v).len() > n,
    decreases n,
{
    let sh: u64 = (7 * n) as u64;
    assert(v >= 128) by (bit_vector)
        requires v >= bound && bound == (1u64 << sh) && 7 <= sh <= 63;
    if n > 1 {
        assert((v >> 7) >= (bound >> 7) && (bound >> 7) == (1u64 << ((sh - 7) as u64)))
            by (bit_vector)
            requires v >= bound && bound == (1u64 << sh) && 14 <= sh <= 63;
        assert(((sh - 7) as u64) == ((7 * (n - 1)) as u64));
        lemma_len_lower(v >> 7, bound >> 7, n - 1);
    } else {
        lemma_encode_len(v >> 7);
        assert(spec_encode_var(v) == seq![((v & 0x7f) | 0x80) as u8] + spec_encode_var(v >> 7));
    }
}

/// Shifting a decode window one byte right: the value of `n + 1` bytes of
/// `seq![b] + e` is the low seven bits of `b` joined with the value of the
/// first `n` bytes of `e`, shifted up one group.
proof fn lemma_value_prepend(b: u8, e: Seq<u8>, n: int)
    requires
        0 <= n <= e.len(),
        n + 1 <= 10,
    ensures
        varint_value(seq![b] + e, 0, n + 1) == (((b & 0x7f) as u64) | (varint_value(e, 0, n)
            << 7u64)),
    decreases n,
{
    let t = seq![b] + e;
    if n == 0 {
        assert(varint_value(t, 0, 0) == 0);
        assert(varint_value(t, 0, 1) == 0u64 | (((t[0] & 0x7f) as u64) << 0u64));
        assert(t[0] == b);
        let bp = (b & 0x7f) as u64;
        assert((0u64 | (bp << 0u64)) == bp && (bp | (0u64 << 7u64)) == bp) by (bit_vector);
        assert(varint_value(e, 0, 0) == 0);
    } else {
        lemma_value_prepend(b, e, n - 1);
        assert(t[n] == e[n - 1]);
        let vp = varint_value(e, 0, n - 1);
        let p = (e[n - 1] & 0x7f) as u64;
        let bp = (b & 0x7f) as u64;
        assert(varint_value(t, 0, n + 1) == varint_value(t, 0, n) | (p << ((7 * n) as u64)));
        assert(varint_value(e, 0, n) == vp | (p << ((7 * (n - 1)) as u64)));
        let sh = (7 * (n - 1)) as u64;
        assert((bp | ((vp | (p << sh)) << 7u64)) == ((bp | (vp << 7u64)) | (p << ((sh + 7) as u64))))
            by (bit_vector)
            requires sh <= 56;
        assert(((7 * n) as u64) == sh + 7);
    }
}

proof fn lemma_round_trip_rec(v: u64)
    ensures
        spec_decode_var(spec_encode_var(v), 0) == Some((v, spec_encode_var(v).len() as int)),
    decreases v,
{
    let e = spec_encode_var(v);
    lemma_encode_len(v);
    if v < 128 {
        assert(varint_terminator(e, 0, 0) == Some(0int));
        assert(varint_value(e, 0, 0) == 0);
        assert(varint_value(e, 0, 1) == 0u64 | (((e[0] & 0x7f) as u64) << 0u64));
        assert((0u64 | (((v as u8) & 0x7f) as u64) << 0u64) == v) by (bit_vector)
            requires v < 128;
    } else {
        assert((v >> 7) < v) by (bit_vector)
            requires v >= 128;
        lemma_round_trip_rec(v >> 7);
        let b0 = ((v & 0x7f) | 0x80) as u8;
        let rest = spec_encode_var(v >> 7);
        assert(e == seq![b0] + rest);
        lemma_encode_len(v >> 7);
        let k = rest.len() as int - 1;
        lemma_terminator_prepend(b0, rest, k);
        assert(varint_terminator(rest, 0, 0) == Some(k));
        assert((((v & 0x7f) | 0x80) as u8) >= 128) by (bit_vector);
        assert(varint_terminator(e, 0, 0) == Some(k + 1));
        lemma_value_prepend(b0, rest, k + 1);
        assert(varint_value(rest, 0, k + 1) == v >> 7);
        assert((((((v & 0x7f) | 0x80) as u8) & 0x7f) as u64 | ((v >> 7) << 7u64)) == v)
            by (bit_vector);
    }
}

/// A terminator of `e` at offset `k` is a terminator of `seq![b] + e` at
/// `k + 1` when `b` carries the continuation bit.
proof fn lemma_terminator_prepend(b: u8, e: Seq<u8>, k: int)
    requires
        b >= 128,
        0 <= k <= 8,
        varint_terminator(e, 0, 0) == Some(k),
    ensures
        varint_terminator(seq![b] + e, 0, 0) == Some(k + 1),
{
    lemma_terminator_shift(b, e, 0);
}

proof fn lemma_terminator_shift(b: u8, e: Seq<u8>, i: int)
    requires
        b >= 128,
        0 <= i <= 9,
        varint_terminator(e, 0, i) matches Some(k) ==> k <= 8,
    ensures
        match varint_terminator(e, 0, i) {
            Some(k) => varint_terminator(seq![b] + e, 0, i + 1) == Some(k + 1),
            None => true,
        },
    decreases 9 - i,
{
    let t = seq![b] + e;
    if !(i >= 10 || i >= e.len()) {
        assert(t[i + 1] == e[i]);
        if e[i] >= 128 && i < 9 {
            lemma_terminator_shift(b, e, i + 1);
        }
    }
}

} // verus!
