//! Record codec.
//!
//! A record is serialized as its four little-endian 32-bit words (id,
//! latitude bits, longitude bits, population), one feature-class byte, and
//! five length-prefixed strings (name, country, admin1, admin2, feature
//! code).  A length-prefixed string is a varint byte count followed by the
//! raw UTF-8 bytes.  The seed-only ascii name is not persisted.

use vstd::prelude::*;

verus! {

use vstd::utf8::valid_utf8;
use crate::codec::le4_val;
use crate::codec::lemma_u32_le_round_trip;
use crate::codec::lemma_varint_bytes_len;
use crate::codec::lemma_varint_parse_bounds;
use crate::codec::lemma_varint_round_trip;
use crate::codec::read_u32_le_at;
use crate::codec::read_var_u32;
use crate::codec::slice_tail;
use crate::codec::u32_le_bytes;
use crate::codec::varint_bytes;
use crate::codec::varint_parse;
use crate::codec::write_u32_le;
use crate::codec::write_var_u32;
use crate::err::GeoError;
use crate::unicode::check_utf8;
use vstd::slice::slice_subrange;
use vstd::slice::slice_to_vec;

/// One geographic place.  The latitude and longitude are carried as the bit
/// patterns of their 32-bit floating-point encodings; string fields hold raw
/// UTF-8 bytes.  `ascii_name` only seeds an index key during build and is
/// never persisted.
#[derive(Debug)]
pub struct GeoRecord {
    pub id: u32,
    pub name: Vec<u8>,
    pub ascii_name: Vec<u8>,
    pub country: Vec<u8>,
    pub admin1: Vec<u8>,
    pub admin2: Vec<u8>,
    pub lat_bits: u32,
    pub lon_bits: u32,
    pub feat_class: u8,
    pub feat_code: Vec<u8>,
    pub population: u32,
}

/// The mathematical content of a record: every persisted field.
pub ghost struct RecView {
    pub id: u32,
    pub lat_bits: u32,
    pub lon_bits: u32,
    pub population: u32,
    pub feat_class: u8,
    pub name: Seq<u8>,
    pub country: Seq<u8>,
    pub admin1: Seq<u8>,
    pub admin2: Seq<u8>,
    pub feat_code: Seq<u8>,
}

impl View for GeoRecord {
    type V = RecView;

    open spec fn view(&self) -> RecView {
        RecView {
            id: self.id,
            lat_bits: self.lat_bits,
            lon_bits: self.lon_bits,
            population: self.population,
            feat_class: self.feat_class,
            name: self.name@,
            country: self.country@,
            admin1: self.admin1@,
            admin2: self.admin2@,
            feat_code: self.feat_code@,
        }
    }
}

/// Each string field is short enough for its varint-`u32` length prefix.
pub open spec fn rec_fits(r: RecView) -> bool {
    &&& r.name.len() < 0x100000000
    &&& r.country.len() < 0x100000000
    &&& r.admin1.len() < 0x100000000
    &&& r.admin2.len() < 0x100000000
    &&& r.feat_code.len() < 0x100000000
}

/// Each string field holds valid UTF-8.
pub open spec fn rec_utf8(r: RecView) -> bool {
    &&& valid_utf8(r.name)
    &&& valid_utf8(r.country)
    &&& valid_utf8(r.admin1)
    &&& valid_utf8(r.admin2)
    &&& valid_utf8(r.feat_code)
}

/// A record that can be written and read back.
pub open spec fn rec_wf(r: RecView) -> bool {
    rec_fits(r) && rec_utf8(r)
}

/// The length-prefixed encoding of a byte string.
pub open spec fn lp_bytes(s: Seq<u8>) -> Seq<u8> {
    varint_bytes(s.len() as nat) + s
}

/// Parses a length-prefixed byte string of `b` at `pos`: the string and the
/// position just after it.
pub open spec fn lp_parse(b: Seq<u8>, pos: int) -> Option<(Seq<u8>, int)> {
    if 0 <= pos <= b.len() {
        match varint_parse(b.skip(pos)) {
            None => None,
            Some(p) => {
                let l = (p.0 % 0x100000000) as int;
                if pos + p.1 + l <= b.len() {
                    Some((b.subrange(pos + p.1, pos + p.1 + l), pos + p.1 + l))
                } else {
                    None
                }
            },
        }
    } else {
        None
    }
}

/// The serialized bytes of a record.
pub open spec fn rec_bytes(r: RecView) -> Seq<u8> {
    u32_le_bytes(r.id) + u32_le_bytes(r.lat_bits) + u32_le_bytes(r.lon_bits) + u32_le_bytes(
        r.population) + seq![r.feat_class] + lp_bytes(r.name) + lp_bytes(r.country) + lp_bytes(
        r.admin1) + lp_bytes(r.admin2) + lp_bytes(r.feat_code)
}

/// Parses a serialized record of `b` at `pos`: the record and the position
/// just after it.
pub open spec fn rec_parse(b: Seq<u8>, pos: int) -> Option<(RecView, int)> {
    if 0 <= pos && pos + 17 <= b.len() {
        match lp_parse(b, pos + 17) {
            None => None,
            Some(q1) => match lp_parse(b, q1.1) {
                None => None,
                Some(q2) => match lp_parse(b, q2.1) {
                    None => None,
                    Some(q3) => match lp_parse(b, q3.1) {
                        None => None,
                        Some(q4) => match lp_parse(b, q4.1) {
                            None => None,
                            Some(q5) => Some(
                                (
                                    RecView {
                                        id: le4_val(b, pos) as u32,
                                        lat_bits: le4_val(b, pos + 4) as u32,
                                        lon_bits: le4_val(b, pos + 8) as u32,
                                        population: le4_val(b, pos + 12) as u32,
                                        feat_class: b[pos + 16],
                                        name: q1.0,
                                        country: q2.0,
                                        admin1: q3.0,
                                        admin2: q4.0,
                                        feat_code: q5.0,
                                    },
                                    q5.1,
                                ),
                            ),
                        },
                    },
                },
            },
        }
    } else {
        None
    }
}

/// Appends the length-prefixed encoding of `s` to `buf`.
pub fn write_lp_str(buf: &mut Vec<u8>, s: &[u8])
    requires
        s@.len() < 0x100000000,
    ensures
        final(buf)@ == old(buf)@ + lp_bytes(s@),
{
    write_var_u32(buf, s.len() as u32);
    buf.extend_from_slice(s);
    proof {
        assert(buf@ =~= old(buf)@ + lp_bytes(s@));
    }
}

/// Appends the serialized bytes of `r` to `buf`.
pub fn write_record(buf: &mut Vec<u8>, r: &GeoRecord)
    requires
        rec_fits(r@),
    ensures
        final(buf)@ == old(buf)@ + rec_bytes(r@),
{
    write_u32_le(buf, r.id);
    write_u32_le(buf, r.lat_bits);
    write_u32_le(buf, r.lon_bits);
    write_u32_le(buf, r.population);
    buf.push(r.feat_class);
    write_lp_str(buf, r.name.as_slice());
    write_lp_str(buf, r.country.as_slice());
    write_lp_str(buf, r.admin1.as_slice());
    write_lp_str(buf, r.admin2.as_slice());
    write_lp_str(buf, r.feat_code.as_slice());
    proof {
        assert(buf@ =~= old(buf)@ + rec_bytes(r@));
    }
}

/// Reads the length-prefixed string of `buf` at `pos` and validates that it
/// is UTF-8: the bytes and the position just after them.  Fails with
/// `Corrupt` on a malformed length, a string that runs past the buffer, or
/// bytes that are not UTF-8.
pub fn read_lp_str_cur(buf: &[u8], pos: usize) -> (r: Result<(Vec<u8>, usize), GeoError>)
    ensures
        match lp_parse(buf@, pos as int) {
            None => r == Err::<(Vec<u8>, usize), GeoError>(GeoError::Corrupt),
            Some(q) => {
                if valid_utf8(q.0) {
                    r matches Ok(x) && x.0@ == q.0 && x.1 as int == q.1
                } else {
                    r == Err::<(Vec<u8>, usize), GeoError>(GeoError::Corrupt)
                }
            },
        },
{
    if pos > buf.len() {
        return Err(GeoError::Corrupt);
    }
    let tail = slice_tail(buf, pos);
    proof {
        lemma_varint_parse_bounds(tail@);
    }
    let (len32, nb) = match read_var_u32(tail) {
        Ok(p) => p,
        Err(_) => {
            return Err(GeoError::Corrupt);
        },
    };
    let l = len32 as usize;
    let start = pos + nb;
    if l > buf.len() - start {
        return Err(GeoError::Corrupt);
    }
    let sl = slice_subrange(buf, start, start + l);
    if !check_utf8(sl) {
        return Err(GeoError::Corrupt);
    }
    Ok((slice_to_vec(sl), start + l))
}

/// Reads the serialized record of `buf` at `pos`: the record and the
/// position just after it.  The ascii name of the result is empty, since the
/// format does not persist it.  Fails with `Corrupt` when the record runs
/// past the buffer, a length is malformed, or a string is not UTF-8.
pub fn read_record(buf: &[u8], pos: usize) -> (r: Result<(GeoRecord, usize), GeoError>)
    ensures
        match rec_parse(buf@, pos as int) {
            None => r == Err::<(GeoRecord, usize), GeoError>(GeoError::Corrupt),
            Some(q) => {
                if rec_utf8(q.0) {
                    r matches Ok(x) && x.0@ == q.0 && x.0.ascii_name@ == Seq::<u8>::empty()
                        && x.1 as int == q.1
                } else {
                    r == Err::<(GeoRecord, usize), GeoError>(GeoError::Corrupt)
                }
            },
        },
{
    if buf.len() < 17 || pos > buf.len() - 17 {
        return Err(GeoError::Corrupt);
    }
    let id = read_u32_le_at(buf, pos);
    let lat_bits = read_u32_le_at(buf, pos + 4);
    let lon_bits = read_u32_le_at(buf, pos + 8);
    let population = read_u32_le_at(buf, pos + 12);
    let feat_class = buf[pos + 16];
    let (name, p1) = read_lp_str_cur(buf, pos + 17)?;
    let (country, p2) = read_lp_str_cur(buf, p1)?;
    let (admin1, p3) = read_lp_str_cur(buf, p2)?;
    let (admin2, p4) = read_lp_str_cur(buf, p3)?;
    let (feat_code, p5) = read_lp_str_cur(buf, p4)?;
    Ok((
        GeoRecord {
            id,
            name,
            ascii_name: Vec::new(),
            country,
            admin1,
            admin2,
            lat_bits,
            lon_bits,
            feat_class,
            feat_code,
            population,
        },
        p5,
    ))
}

/// A length-prefixed string laid down in a buffer parses back to itself.
pub proof fn lemma_lp_round_trip(s: Seq<u8>, b: Seq<u8>, pos: int)
    requires
        s.len() < 0x100000000,
        0 <= pos,
        pos + lp_bytes(s).len() <= b.len(),
        b.subrange(pos, pos + lp_bytes(s).len() as int) == lp_bytes(s),
    ensures
        lp_parse(b, pos) == Some((s, pos + lp_bytes(s).len() as int)),
{
    let vb = varint_bytes(s.len() as nat);
    lemma_varint_bytes_len(s.len() as nat);
    let lc = lp_bytes(s).len() as int;
    let sub = b.subrange(pos, pos + lc);
    assert forall|i: int| 0 <= i < lc implies b[pos + i] == lp_bytes(s)[i] by {
        assert(sub[i] == b[pos + i]);
    }
    assert(b.skip(pos) =~= vb + b.skip(pos + vb.len() as int));
    lemma_varint_round_trip(s.len() as nat, b.skip(pos + vb.len() as int), 5);
    let p = varint_parse(b.skip(pos)).unwrap();
    assert(p.0 == s.len() && p.1 == vb.len() as int);
    assert forall|i: int| 0 <= i < s.len() implies b[pos + p.1 + i] == s[i] by {
        assert(b[pos + (p.1 + i)] == lp_bytes(s)[p.1 + i]);
        assert(lp_bytes(s)[p.1 + i] == s[i]);
    }
    assert(b.subrange(pos + p.1, pos + p.1 + s.len() as int) =~= s);
}

/// A buffer range equal to a concatenation splits into ranges equal to the
/// two parts.
pub proof fn lemma_subrange_split(b: Seq<u8>, pos: int, x: Seq<u8>, y: Seq<u8>)
    requires
        0 <= pos,
        pos + x.len() + y.len() <= b.len(),
        b.subrange(pos, pos + x.len() + y.len()) == x + y,
    ensures
        b.subrange(pos, pos + x.len() as int) == x,
        b.subrange(pos + x.len(), pos + x.len() + y.len()) == y,
{
    let s = b.subrange(pos, pos + x.len() + y.len());
    assert forall|i: int| 0 <= i < x.len() implies b[pos + i] == x[i] by {
        assert(s[i] == b[pos + i]);
        assert((x + y)[i] == x[i]);
    }
    assert forall|i: int| 0 <= i < y.len() implies b[pos + x.len() + i] == y[i] by {
        assert(s[x.len() + i] == b[pos + x.len() + i]);
        assert((x + y)[x.len() + i] == y[i]);
    }
    assert(b.subrange(pos, pos + x.len() as int) =~= x);
    assert(b.subrange(pos + x.len(), pos + x.len() + y.len()) =~= y);
}

/// A record laid down in a buffer parses back to itself.
#[verifier::rlimit(100)]
pub proof fn lemma_record_round_trip(r: RecView, b: Seq<u8>, pos: int)
    requires
        rec_fits(r),
        0 <= pos,
        pos + rec_bytes(r).len() <= b.len(),
        b.subrange(pos, pos + rec_bytes(r).len() as int) == rec_bytes(r),
    ensures
        rec_parse(b, pos) == Some((r, pos + rec_bytes(r).len() as int)),
{
    let w1 = u32_le_bytes(r.id);
    let w2 = u32_le_bytes(r.lat_bits);
    let w3 = u32_le_bytes(r.lon_bits);
    let w4 = u32_le_bytes(r.population);
    let fc = seq![r.feat_class];
    let l1 = lp_bytes(r.name);
    let l2 = lp_bytes(r.country);
    let l3 = lp_bytes(r.admin1);
    let l4 = lp_bytes(r.admin2);
    let l5 = lp_bytes(r.feat_code);
    // peel the concatenation from the right, one part at a time
    lemma_subrange_split(b, pos, w1 + w2 + w3 + w4 + fc + l1 + l2 + l3 + l4, l5);
    lemma_subrange_split(b, pos, w1 + w2 + w3 + w4 + fc + l1 + l2 + l3, l4);
    lemma_subrange_split(b, pos, w1 + w2 + w3 + w4 + fc + l1 + l2, l3);
    lemma_subrange_split(b, pos, w1 + w2 + w3 + w4 + fc + l1, l2);
    lemma_subrange_split(b, pos, w1 + w2 + w3 + w4 + fc, l1);
    lemma_subrange_split(b, pos, w1 + w2 + w3 + w4, fc);
    lemma_subrange_split(b, pos, w1 + w2 + w3, w4);
    lemma_subrange_split(b, pos, w1 + w2, w3);
    lemma_subrange_split(b, pos, w1, w2);
    lemma_u32_le_round_trip(r.id, b, pos);
    lemma_u32_le_round_trip(r.lat_bits, b, pos + 4);
    lemma_u32_le_round_trip(r.lon_bits, b, pos + 8);
    lemma_u32_le_round_trip(r.population, b, pos + 12);
    assert(b[pos + 16] == r.feat_class) by {
        assert(b.subrange(pos + 16, pos + 17)[0] == b[pos + 16]);
    }
    let o1 = pos + 17;
    let o2 = o1 + l1.len() as int;
    let o3 = o2 + l2.len() as int;
    let o4 = o3 + l3.len() as int;
    let o5 = o4 + l4.len() as int;
    lemma_lp_round_trip(r.name, b, o1);
    lemma_lp_round_trip(r.country, b, o2);
    lemma_lp_round_trip(r.admin1, b, o3);
    lemma_lp_round_trip(r.admin2, b, o4);
    lemma_lp_round_trip(r.feat_code, b, o5);
}

/// Record round trip: reading a written record gives the record back — the
/// non-persisted ascii name aside, which the reader leaves empty.
pub proof fn lemma_record_write_read(r: RecView)
    requires
        rec_wf(r),
    ensures
        rec_parse(rec_bytes(r), 0) == Some((r, rec_bytes(r).len() as int)),
{
    assert(rec_bytes(r).subrange(0, rec_bytes(r).len() as int) =~= rec_bytes(r));
    lemma_record_round_trip(r, rec_bytes(r), 0);
}

} // verus!
