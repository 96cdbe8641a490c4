//! Varint and delta codec.
//!
//! Unsigned integers are stored little-endian base-128: each byte carries the
//! next 7 low bits of the value, and the high bit says that more bytes follow.
//! The decoder rejects input whose continuation bits would need more than 5
//! bytes for a 32-bit value.  Posting lists of strictly ascending ids are
//! stored as the varints of consecutive differences.

use vstd::prelude::*;

verus! {

use crate::err::GeoError;

/// The canonical base-128 encoding of `v`, low 7-bit group first.
pub open spec fn varint_bytes(v: nat) -> Seq<u8>
    decreases v,
{
    if v < 128 {
        seq![v as u8]
    } else {
        seq![(128 + v % 128) as u8] + varint_bytes(v / 128)
    }
}

/// Parses one varint from the front of `b`, spending at most `budget` bytes:
/// the value and the number of bytes taken.
pub open spec fn varint_parse_at(b: Seq<u8>, budget: int) -> Option<(nat, int)>
    decreases budget,
{
    if budget <= 0 || b.len() == 0 {
        None
    } else if b[0] < 128 {
        Some((b[0] as nat, 1))
    } else {
        match varint_parse_at(b.skip(1), budget - 1) {
            None => None,
            Some(p) => Some((((b[0] - 128) as nat) + 128 * p.0, p.1 + 1)),
        }
    }
}

/// Parses one varint from the front of `b` under the 5-byte bound that a
/// 32-bit value allows.
pub open spec fn varint_parse(b: Seq<u8>) -> Option<(nat, int)> {
    varint_parse_at(b, 5)
}

/// Value of the 7-bit groups of `b[i ..= j]`, group `i` lowest.
pub open spec fn chunk_val(b: Seq<u8>, i: int, j: int) -> nat
    decreases j - i + 1,
{
    if i > j {
        0
    } else {
        ((b[i] % 128) as nat) + 128 * chunk_val(b, i + 1, j)
    }
}

proof fn lemma_chunk_shift(b: Seq<u8>, k: int, i: int, j: int)
    requires
        0 <= k <= i,
        j < b.len(),
    ensures
        chunk_val(b, i, j) == chunk_val(b.skip(k), i - k, j - k),
    decreases j - i + 1,
{
    if i <= j {
        lemma_chunk_shift(b, k, i + 1, j);
    }
}

/// Groups `i ..= j` of at most five bytes stay below `128^5`.
proof fn lemma_chunk_bound(b: Seq<u8>, i: int, j: int)
    requires
        j < b.len(),
    ensures
        j - i < 1 ==> chunk_val(b, i, j) < 0x80,
        j - i < 2 ==> chunk_val(b, i, j) < 0x4000,
        j - i < 3 ==> chunk_val(b, i, j) < 0x200000,
        j - i < 4 ==> chunk_val(b, i, j) < 0x10000000,
        j - i < 5 ==> chunk_val(b, i, j) < 0x800000000,
    decreases j - i + 1,
{
    if i <= j {
        lemma_chunk_bound(b, i + 1, j);
    }
}

/// A terminator byte at position `j` pins the parse down exactly.
pub proof fn lemma_varint_parse_term(b: Seq<u8>, j: int, budget: int)
    requires
        0 <= j < budget,
        j < b.len(),
        b[j] < 128,
        forall|i: int| 0 <= i < j ==> b[i] >= 128,
    ensures
        varint_parse_at(b, budget) == Some((chunk_val(b, 0, j), j + 1)),
    decreases j,
{
    if j == 0 {
        assert(chunk_val(b, 1, 0) == 0);
        assert(chunk_val(b, 0, 0) == ((b[0] % 128) as nat) + 128 * 0);
    } else {
        let t = b.skip(1);
        assert(forall|i: int| 0 <= i < j - 1 ==> t[i] == b[i + 1] && t[i] >= 128);
        assert(t[j - 1] == b[j as int]);
        lemma_varint_parse_term(t, j - 1, budget - 1);
        lemma_chunk_shift(b, 1, 1, j);
        assert(chunk_val(b, 0, j) == ((b[0] % 128) as nat) + 128 * chunk_val(b, 1, j));
        assert(((b[0] - 128) as nat) == ((b[0] % 128) as nat));
    }
}

/// Without a terminator in the first `budget` bytes there is no parse.
pub proof fn lemma_varint_parse_none(b: Seq<u8>, budget: int)
    requires
        forall|i: int| 0 <= i < budget && i < b.len() ==> b[i] >= 128,
    ensures
        varint_parse_at(b, budget) is None,
    decreases budget,
{
    if budget > 0 && b.len() > 0 {
        let t = b.skip(1);
        assert(forall|i: int| 0 <= i < budget - 1 && i < t.len() ==> t[i] == b[i + 1]
            && t[i] >= 128);
        lemma_varint_parse_none(t, budget - 1);
    }
}

/// The encoding of a 32-bit value takes between one and five bytes.
pub proof fn lemma_varint_bytes_len(v: nat)
    ensures
        1 <= varint_bytes(v).len(),
        v < 128 ==> varint_bytes(v).len() == 1,
        v < 0x100000000 ==> varint_bytes(v).len() <= 5,
    decreases v,
{
    if v >= 128 {
        lemma_varint_bytes_len(v / 128);
        if v < 0x100000000 {
            if v / 128 >= 128 {
                lemma_varint_bytes_len(v / 128 / 128);
                if v / 128 / 128 >= 128 {
                    lemma_varint_bytes_len(v / 128 / 128 / 128);
                    if v / 128 / 128 / 128 >= 128 {
                        lemma_varint_bytes_len(v / 128 / 128 / 128 / 128);
                    }
                }
            }
        }
    }
}

/// Round trip: parsing an encoding placed before any suffix gives back the
/// value and consumes exactly the encoding.
pub proof fn lemma_varint_round_trip(v: nat, rest: Seq<u8>, budget: int)
    requires
        varint_bytes(v).len() <= budget,
    ensures
        varint_parse_at(varint_bytes(v) + rest, budget)
            == Some((v, varint_bytes(v).len() as int)),
    decreases v,
{
    let b = varint_bytes(v) + rest;
    if v < 128 {
        assert(b[0] == v as u8);
    } else {
        assert(b[0] == (128 + v % 128) as u8);
        assert(b[0] >= 128);
        assert(b.skip(1) =~= varint_bytes(v / 128) + rest);
        lemma_varint_round_trip(v / 128, rest, budget - 1);
        assert(((b[0] - 128) as nat) == v % 128);
        assert(v % 128 + 128 * (v / 128) == v) by (nonlinear_arith);
    }
}

/// Reads one base-128 varint from the start of `buf`, yielding the 32-bit
/// truncation of its value and the number of bytes consumed.  Fails when the
/// buffer ends mid-varint or no terminator appears within 5 bytes.
pub fn read_var_u32(buf: &[u8]) -> (r: Result<(u32, usize), GeoError>)
    ensures
        match varint_parse(buf@) {
            Some(p) => {
                &&& r matches Ok(x)
                &&& x.0 as nat == p.0 % 0x100000000
                &&& x.1 as int == p.1
            },
            None => r == Err::<(u32, usize), GeoError>(GeoError::Corrupt),
        },
{
    let n = buf.len();
    let lim: usize = if n < 5 { n } else { 5 };
    let mut j: usize = 0;
    while j < lim && buf[j] >= 128
        invariant
            0 <= j <= lim,
            lim <= buf@.len(),
            lim <= 5,
            n == buf@.len(),
            (n < 5 ==> lim == n) && (n >= 5 ==> lim == 5),
            forall|i: int| 0 <= i < j ==> buf@[i] >= 128,
        decreases lim - j,
    {
        j += 1;
    }
    if j == lim {
        proof {
            lemma_varint_parse_none(buf@, 5);
        }
        return Err(GeoError::Corrupt);
    }
    proof {
        lemma_varint_parse_term(buf@, j as int, 5);
    }
    let mut acc: u64 = 0;
    let mut i: usize = j + 1;
    while i > 0
        invariant
            0 <= i <= j + 1,
            j < buf@.len(),
            j < 5,
            acc == chunk_val(buf@, i as int, j as int),
            acc < 0x800000000,
        decreases i,
    {
        proof {
            lemma_chunk_bound(buf@, i - 1, j as int);
            assert(chunk_val(buf@, i as int, j as int) < 0x10000000) by {
                lemma_chunk_bound(buf@, i as int, j as int);
            }
        }
        i -= 1;
        let b: u64 = (buf[i] % 128) as u64;
        acc = b + 128 * acc;
    }
    Ok(((acc % 0x100000000) as u32, j + 1))
}

/// Appends the canonical varint encoding of `v` to `buf`.
pub fn write_var_u32(buf: &mut Vec<u8>, v: u32)
    ensures
        final(buf)@ == old(buf)@ + varint_bytes(v as nat),
{
    let mut x = v;
    let ghost pre = buf@;
    while x >= 128
        invariant
            pre + varint_bytes(v as nat) == buf@ + varint_bytes(x as nat),
        decreases x,
    {
        let ghost bufpre = buf@;
        let ghost x0 = x as nat;
        buf.push((x % 128 + 128) as u8);
        proof {
            assert(varint_bytes(x0) == seq![(128 + x0 % 128) as u8] + varint_bytes(x0 / 128));
            assert((x % 128 + 128) as u8 == (128 + x0 % 128) as u8);
            assert(buf@ + varint_bytes(x0 / 128) =~= bufpre + varint_bytes(x0));
        }
        x = x / 128;
    }
    proof {
        assert(varint_bytes(x as nat) =~= seq![x as u8]);
    }
    buf.push(x as u8);
    proof {
        assert(buf@ =~= pre + varint_bytes(v as nat));
    }
}

/// Whether the ids of `s` grow strictly from left to right.
pub open spec fn strictly_ascending(s: Seq<u32>) -> bool {
    forall|i: int, j: int| 0 <= i < j < s.len() ==> s[i] < s[j]
}

/// The delta + varint encoding of an ascending id sequence, continuing from
/// the running value `prev`.
pub open spec fn delta_bytes(ids: Seq<u32>, prev: u32) -> Seq<u8>
    decreases ids.len(),
{
    if ids.len() == 0 || prev > ids[0] {
        Seq::empty()
    } else {
        varint_bytes((ids[0] - prev) as nat) + delta_bytes(ids.skip(1), ids[0])
    }
}

/// Encodes a strictly ascending id sequence as deltas against a running
/// value that starts at 0.
pub fn encode_delta_varints(ids: &[u32]) -> (out: Vec<u8>)
    requires
        strictly_ascending(ids@),
    ensures
        out@ == delta_bytes(ids@, 0),
{
    let mut out: Vec<u8> = Vec::new();
    let mut prev: u32 = 0;
    let mut i: usize = 0;
    proof {
        assert(ids@.skip(0) =~= ids@);
        assert(out@ + delta_bytes(ids@, 0) =~= delta_bytes(ids@, 0));
    }
    while i < ids.len()
        invariant
            0 <= i <= ids@.len(),
            strictly_ascending(ids@),
            i == 0 ==> prev == 0,
            i > 0 ==> prev == ids@[i - 1],
            i < ids@.len() ==> prev <= ids@[i as int],
            delta_bytes(ids@, 0) == out@ + delta_bytes(ids@.skip(i as int), prev),
        decreases ids@.len() - i,
    {
        let id = ids[i];
        let d = id - prev;
        proof {
            let tail = ids@.skip(i as int);
            assert(tail[0] == id);
            assert(delta_bytes(tail, prev)
                == varint_bytes((id - prev) as nat) + delta_bytes(tail.skip(1), id));
            assert(tail.skip(1) =~= ids@.skip(i + 1));
        }
        write_var_u32(&mut out, d);
        prev = id;
        i += 1;
    }
    proof {
        assert(delta_bytes(ids@.skip(i as int), prev) =~= Seq::<u8>::empty());
        assert(out@ =~= delta_bytes(ids@, 0));
    }
    out
}

/// The prefix-sum reading of a delta + varint byte sequence, continuing from
/// the running value `prev`; it stops at the first malformed varint.
pub open spec fn spec_decode_deltas(b: Seq<u8>, prev: u32) -> Seq<u32>
    decreases b.len(),
{
    match varint_parse(b) {
        None => Seq::empty(),
        Some(p) => {
            let id = ((prev as nat + p.0) % 0x100000000) as u32;
            if 1 <= p.1 <= b.len() {
                seq![id] + spec_decode_deltas(b.skip(p.1), id)
            } else {
                seq![id]
            }
        },
    }
}

/// The parse of a varint takes at least one byte and never more than the
/// buffer holds.
pub proof fn lemma_varint_parse_bounds(b: Seq<u8>)
    ensures
        match varint_parse(b) {
            Some(p) => 1 <= p.1 <= b.len() && p.1 <= 5 && p.0 < 0x800000000,
            None => true,
        },
{
    lemma_varint_parse_bounds_at(b, 5);
}

proof fn lemma_varint_parse_bounds_at(b: Seq<u8>, budget: int)
    requires
        budget <= 5,
    ensures
        match varint_parse_at(b, budget) {
            Some(p) => 1 <= p.1 <= b.len() && p.1 <= budget && p.0 < 0x800000000,
            None => true,
        },
    decreases budget,
{
    if budget > 0 && b.len() > 0 && b[0] >= 128 {
        lemma_varint_parse_bounds_at(b.skip(1), budget - 1);
        match varint_parse_at(b.skip(1), budget - 1) {
            None => {},
            Some(p) => {
                assert(p.0 < 0x10000000 ==> ((b[0] - 128) as nat) + 128 * p.0 < 0x800000000);
                assert(p.0 < 0x10000000) by {
                    lemma_varint_parse_small_at(b.skip(1), budget - 1);
                }
            },
        }
    }
}

proof fn lemma_varint_parse_small_at(b: Seq<u8>, budget: int)
    requires
        budget <= 4,
    ensures
        match varint_parse_at(b, budget) {
            Some(p) => p.0 < 0x10000000 && (budget <= 3 ==> p.0 < 0x200000) && (budget <= 2
                ==> p.0 < 0x4000) && (budget <= 1 ==> p.0 < 0x80),
            None => true,
        },
    decreases budget,
{
    if budget > 0 && b.len() > 0 && b[0] >= 128 {
        lemma_varint_parse_small_at(b.skip(1), budget - 1);
    }
}

/// Decodes a delta + varint byte sequence by prefix-summing its varints,
/// stopping silently at a malformed tail.
pub fn decode_delta_varints(bytes: &[u8]) -> (out: Vec<u32>)
    ensures
        out@ == spec_decode_deltas(bytes@, 0),
{
    let mut out: Vec<u32> = Vec::new();
    let mut i: usize = 0;
    let mut cur: u32 = 0;
    proof {
        assert(bytes@.skip(0) =~= bytes@);
        assert(out@ + spec_decode_deltas(bytes@, 0) =~= spec_decode_deltas(bytes@, 0));
    }
    while i < bytes.len()
        invariant
            0 <= i <= bytes@.len(),
            spec_decode_deltas(bytes@, 0) == out@ + spec_decode_deltas(bytes@.skip(i as int), cur),
        decreases bytes@.len() - i,
    {
        let tail = slice_tail(bytes, i);
        proof {
            lemma_varint_parse_bounds(tail@);
        }
        let step = read_var_u32(tail);
        match step {
            Err(_) => {
                proof {
                    assert(spec_decode_deltas(bytes@.skip(i as int), cur)
                        =~= Seq::<u32>::empty());
                    assert(out@ =~= out@ + Seq::<u32>::empty());
                    assert(out@ =~= spec_decode_deltas(bytes@, 0));
                }
                return out;
            },
            Ok((v, n)) => {
                let ghost t = bytes@.skip(i as int);
                let ghost p = varint_parse(t).unwrap();
                let s: u64 = cur as u64 + v as u64;
                let next: u32 = (s % 0x100000000) as u32;
                proof {
                    let id = ((cur as nat + p.0) % 0x100000000) as u32;
                    assert((cur as nat + p.0 % 0x100000000) % 0x100000000
                        == (cur as nat + p.0) % 0x100000000) by (nonlinear_arith);
                    assert(next == id);
                    assert(spec_decode_deltas(t, cur) == seq![id] + spec_decode_deltas(
                        t.skip(p.1), id));
                    assert(t.skip(p.1) =~= bytes@.skip(i + n));
                    assert(out@ + spec_decode_deltas(t, cur) =~= (out@ + seq![id])
                        + spec_decode_deltas(bytes@.skip(i + n), id));
                }
                cur = next;
                out.push(cur);
                i += n;
            },
        }
    }
    proof {
        if i == bytes@.len() {
            assert(spec_decode_deltas(bytes@.skip(i as int), cur) =~= Seq::<u32>::empty());
            assert(out@ =~= out@ + Seq::<u32>::empty());
        }
    }
    out
}

/// Returns the sub-slice of `b` that starts at `i`.
pub fn slice_tail(b: &[u8], i: usize) -> (r: &[u8])
    requires
        i <= b@.len(),
    ensures
        r@ == b@.skip(i as int),
{
    let r = &b[i..b.len()];
    proof {
        assert(r@ =~= b@.skip(i as int));
    }
    r
}

/// Delta + varint round trip: decoding the encoding of a strictly ascending
/// id sequence gives the sequence back.
pub proof fn lemma_delta_round_trip(ids: Seq<u32>)
    requires
        strictly_ascending(ids),
    ensures
        spec_decode_deltas(delta_bytes(ids, 0), 0) == ids,
{
    lemma_delta_round_trip_from(ids, 0);
}

proof fn lemma_delta_round_trip_from(ids: Seq<u32>, prev: u32)
    requires
        strictly_ascending(ids),
        ids.len() > 0 ==> prev <= ids[0],
    ensures
        spec_decode_deltas(delta_bytes(ids, prev), prev) == ids,
    decreases ids.len(),
{
    if ids.len() == 0 {
        assert(varint_parse_at(Seq::<u8>::empty(), 5) is None);
        assert(spec_decode_deltas(delta_bytes(ids, prev), prev) =~= ids);
    } else {
        let d = (ids[0] - prev) as nat;
        let tail = delta_bytes(ids.skip(1), ids[0]);
        let b = delta_bytes(ids, prev);
        assert(b == varint_bytes(d) + tail);
        lemma_varint_bytes_len(d);
        lemma_varint_round_trip(d, tail, 5);
        let p = varint_parse(b).unwrap();
        assert(p.0 == d);
        assert((prev as nat + d) % 0x100000000 == ids[0] as nat);
        assert(b.skip(p.1) =~= tail);
        let rest = ids.skip(1);
        assert(forall|i: int, j: int| 0 <= i < j < rest.len() ==> rest[i] == ids[i + 1]
            && rest[j] == ids[j + 1]);
        if rest.len() > 0 {
            assert(rest[0] == ids[1]);
        }
        lemma_delta_round_trip_from(rest, ids[0]);
        assert(spec_decode_deltas(b, prev) =~= ids);
    }
}

/// The delta encoding of `n` ids takes at most `5 n` bytes.
pub proof fn lemma_delta_bytes_len(ids: Seq<u32>, prev: u32)
    ensures
        delta_bytes(ids, prev).len() <= 5 * ids.len(),
    decreases ids.len(),
{
    if ids.len() > 0 && prev <= ids[0] {
        lemma_varint_bytes_len((ids[0] - prev) as nat);
        lemma_delta_bytes_len(ids.skip(1), ids[0]);
    }
}

/// Value of the 4 little-endian bytes of `b` that start at `off`.
pub open spec fn le4_val(b: Seq<u8>, off: int) -> int {
    b[off] + 256 * (b[off + 1] + 256 * (b[off + 2] + 256 * b[off + 3]))
}

/// Value of the 8 little-endian bytes of `b` that start at `off`.
pub open spec fn le8_val(b: Seq<u8>, off: int) -> int {
    le4_val(b, off) + 0x100000000 * le4_val(b, off + 4)
}

/// The 4-byte little-endian encoding of `v`.
pub open spec fn u32_le_bytes(v: u32) -> Seq<u8> {
    seq![
        (v % 256) as u8,
        ((v / 256) % 256) as u8,
        ((v / 65536) % 256) as u8,
        ((v / 16777216) % 256) as u8,
    ]
}

/// The 8-byte little-endian encoding of `v`.
pub open spec fn u64_le_bytes(v: u64) -> Seq<u8> {
    u32_le_bytes((v % 0x100000000) as u32) + u32_le_bytes((v / 0x100000000) as u32)
}

/// Reads the little-endian `u32` that starts at byte `off` of `b`.
pub fn read_u32_le_at(b: &[u8], off: usize) -> (r: u32)
    requires
        off + 4 <= b@.len(),
    ensures
        r == le4_val(b@, off as int),
{
    let b0 = b[off] as u32;
    let b1 = b[off + 1] as u32;
    let b2 = b[off + 2] as u32;
    let b3 = b[off + 3] as u32;
    b0 + 256 * (b1 + 256 * (b2 + 256 * b3))
}

/// Reads the little-endian `u64` that starts at byte `off` of `b`.
pub fn read_u64_le_at(b: &[u8], off: usize) -> (r: u64)
    requires
        off + 8 <= b@.len(),
    ensures
        r == le8_val(b@, off as int),
{
    let n = b.len();
    proof {
        assert(off + 8 <= n);
    }
    let lo = read_u32_le_at(b, off) as u64;
    let hi = read_u32_le_at(b, off + 4) as u64;
    lo + 0x100000000 * hi
}

/// Appends the 4 little-endian bytes of `v` to `buf`.
pub fn write_u32_le(buf: &mut Vec<u8>, v: u32)
    ensures
        final(buf)@ == old(buf)@ + u32_le_bytes(v),
{
    buf.push((v % 256) as u8);
    buf.push((v / 256 % 256) as u8);
    buf.push((v / 65536 % 256) as u8);
    buf.push((v / 16777216 % 256) as u8);
    proof {
        assert(buf@ =~= old(buf)@ + u32_le_bytes(v));
    }
}

/// Appends the 8 little-endian bytes of `v` to `buf`.
pub fn write_u64_le(buf: &mut Vec<u8>, v: u64)
    ensures
        final(buf)@ == old(buf)@ + u64_le_bytes(v),
{
    write_u32_le(buf, (v % 0x100000000) as u32);
    write_u32_le(buf, (v / 0x100000000) as u32);
    proof {
        assert(buf@ =~= old(buf)@ + u64_le_bytes(v));
    }
}

/// Reading 4 little-endian bytes written from `v` gives `v` back.
pub proof fn lemma_u32_le_round_trip(v: u32, b: Seq<u8>, off: int)
    requires
        0 <= off,
        off + 4 <= b.len(),
        b.subrange(off, off + 4) == u32_le_bytes(v),
    ensures
        le4_val(b, off) == v,
{
    let s = b.subrange(off, off + 4);
    assert(b[off] == s[0] && b[off + 1] == s[1] && b[off + 2] == s[2] && b[off + 3] == s[3]);
    assert(v % 256 + 256 * ((v / 256) % 256 + 256 * ((v / 65536) % 256 + 256 * ((v
        / 16777216) % 256))) == v) by (nonlinear_arith);
}

/// Reading 8 little-endian bytes written from `v` gives `v` back.
pub proof fn lemma_u64_le_round_trip(v: u64, b: Seq<u8>, off: int)
    requires
        0 <= off,
        off + 8 <= b.len(),
        b.subrange(off, off + 8) == u64_le_bytes(v),
    ensures
        le8_val(b, off) == v,
{
    let lo = (v % 0x100000000) as u32;
    let hi = (v / 0x100000000) as u32;
    let s = b.subrange(off, off + 8);
    assert(s == u64_le_bytes(v));
    assert(b.subrange(off, off + 4) =~= s.subrange(0, 4));
    assert(s.subrange(0, 4) =~= u32_le_bytes(lo));
    assert(b.subrange(off + 4, off + 8) =~= s.subrange(4, 8));
    assert(s.subrange(4, 8) =~= u32_le_bytes(hi));
    lemma_u32_le_round_trip(lo, b, off);
    lemma_u32_le_round_trip(hi, b, off + 4);
    vstd::arithmetic::div_mod::lemma_fundamental_div_mod(v as int, 0x100000000);
}

} // verus!
