//! Database reader.
//!
//! A database file is a 43-byte header — 7 magic bytes, a little-endian
//! `u32` version, and four little-endian `u64` section lengths — followed by
//! the four sections: FST index, postings blob, records blob, and offsets
//! table.  The section lengths must account for the file exactly.  The
//! offsets table is a `u32` count, that many ascending `u32` ids, and that
//! many parallel `u64` record offsets, searched by lower-bound binary
//! search.

use vstd::prelude::*;

verus! {

use vstd::slice::slice_subrange;
use crate::codec::le4_val;
use crate::codec::le8_val;
use crate::codec::read_u32_le_at;
use crate::codec::read_u64_le_at;
use crate::codec::read_var_u32;
use crate::codec::slice_tail;
use crate::codec::spec_decode_deltas;
use crate::codec::decode_delta_varints;
use crate::codec::varint_parse;
use crate::codec::lemma_varint_parse_bounds;
use crate::err::GeoError;
use crate::record::GeoRecord;
use crate::record::RecView;
use crate::record::rec_parse;
use crate::record::rec_utf8;
use crate::record::read_record;

/// The file's version word.
pub const VERSION: u32 = 2;

/// The seven magic bytes that begin every database file.
pub open spec fn magic_bytes() -> Seq<u8> {
    seq![71u8, 69u8, 79u8, 68u8, 66u8, 49u8, 0u8]
}

/// Why a byte blob is rejected as a database, or nothing when its header is
/// sound.
pub open spec fn open_err(b: Seq<u8>) -> Option<GeoError> {
    if b.len() < 7 || b.subrange(0, 7) != magic_bytes() {
        Some(GeoError::BadMagic)
    } else if b.len() < 11 {
        Some(GeoError::Corrupt)
    } else if le4_val(b, 7) != VERSION {
        Some(GeoError::BadVersion)
    } else if b.len() < 43 {
        Some(GeoError::Corrupt)
    } else if 43 + le8_val(b, 11) + le8_val(b, 19) + le8_val(b, 27) + le8_val(b, 35) != b.len() {
        Some(GeoError::Corrupt)
    } else {
        None
    }
}

/// The FST section of a sound file.
pub open spec fn fst_sec(b: Seq<u8>) -> Seq<u8> {
    b.subrange(43, 43 + le8_val(b, 11))
}

/// The postings section of a sound file.
pub open spec fn postings_sec(b: Seq<u8>) -> Seq<u8> {
    b.subrange(43 + le8_val(b, 11), 43 + le8_val(b, 11) + le8_val(b, 19))
}

/// The records section of a sound file.
pub open spec fn records_sec(b: Seq<u8>) -> Seq<u8> {
    b.subrange(
        43 + le8_val(b, 11) + le8_val(b, 19),
        43 + le8_val(b, 11) + le8_val(b, 19) + le8_val(b, 27),
    )
}

/// The offsets section of a sound file.
pub open spec fn offsets_sec(b: Seq<u8>) -> Seq<u8> {
    b.subrange(
        43 + le8_val(b, 11) + le8_val(b, 19) + le8_val(b, 27),
        43 + le8_val(b, 11) + le8_val(b, 19) + le8_val(b, 27) + le8_val(b, 35),
    )
}

/// An opened database: the file bytes and the four section bounds the
/// header carried.
#[derive(Debug)]
pub struct Db {
    pub bytes: Vec<u8>,
    pub fst_start: usize,
    pub fst_len: usize,
    pub postings_start: usize,
    pub postings_len: usize,
    pub records_start: usize,
    pub records_len: usize,
    pub offsets_start: usize,
    pub offsets_len: usize,
}

impl Db {
    /// The section bounds agree with a sound header.
    pub open spec fn wf(self) -> bool {
        let b = self.bytes@;
        &&& open_err(b) is None
        &&& self.fst_start == 43
        &&& self.fst_len == le8_val(b, 11)
        &&& self.postings_start == 43 + le8_val(b, 11)
        &&& self.postings_len == le8_val(b, 19)
        &&& self.records_start == self.postings_start + self.postings_len
        &&& self.records_len == le8_val(b, 27)
        &&& self.offsets_start == self.records_start + self.records_len
        &&& self.offsets_len == le8_val(b, 35)
    }

    /// The FST section as a byte slice.
    pub fn fst_slice(&self) -> (r: &[u8])
        requires
            self.wf(),
        ensures
            r@ == fst_sec(self.bytes@),
    {
        slice_subrange(self.bytes.as_slice(), self.fst_start, self.fst_start + self.fst_len)
    }

    /// The postings section as a byte slice.
    pub fn postings_slice(&self) -> (r: &[u8])
        requires
            self.wf(),
        ensures
            r@ == postings_sec(self.bytes@),
    {
        slice_subrange(
            self.bytes.as_slice(),
            self.postings_start,
            self.postings_start + self.postings_len,
        )
    }

    /// The records section as a byte slice.
    pub fn records_slice(&self) -> (r: &[u8])
        requires
            self.wf(),
        ensures
            r@ == records_sec(self.bytes@),
    {
        slice_subrange(
            self.bytes.as_slice(),
            self.records_start,
            self.records_start + self.records_len,
        )
    }

    /// The offsets section as a byte slice.
    pub fn offsets_slice(&self) -> (r: &[u8])
        requires
            self.wf(),
        ensures
            r@ == offsets_sec(self.bytes@),
    {
        let n = self.bytes.len();
        proof {
            assert(self.offsets_start + self.offsets_len <= n);
        }
        slice_subrange(
            self.bytes.as_slice(),
            self.offsets_start,
            self.offsets_start + self.offsets_len,
        )
    }
}

/// Opens a database image: checks the magic, the version and that the four
/// section lengths account for the file exactly.
pub fn open_db(bytes: Vec<u8>) -> (r: Result<Db, GeoError>)
    ensures
        match open_err(bytes@) {
            Some(e) => r == Err::<Db, GeoError>(e),
            None => r matches Ok(db) && db.wf() && db.bytes@ == bytes@,
        },
{
    if bytes.len() < 7 {
        return Err(GeoError::BadMagic);
    }
    if !(bytes[0] == 71 && bytes[1] == 69 && bytes[2] == 79 && bytes[3] == 68 && bytes[4] == 66
        && bytes[5] == 49 && bytes[6] == 0) {
        proof {
            assert(bytes@.subrange(0, 7) != magic_bytes()) by {
                if bytes@.subrange(0, 7) == magic_bytes() {
                    assert(bytes@[0] == magic_bytes()[0]
                        && bytes@[1] == magic_bytes()[1]
                        && bytes@[2] == magic_bytes()[2]
                        && bytes@[3] == magic_bytes()[3]
                        && bytes@[4] == magic_bytes()[4]
                        && bytes@[5] == magic_bytes()[5]
                        && bytes@[6] == magic_bytes()[6]) by {
                        assert(forall|i: int|
                            0 <= i < 7 ==> bytes@.subrange(0, 7)[i] == bytes@[i]);
                    }
                }
            }
        }
        return Err(GeoError::BadMagic);
    }
    proof {
        assert(bytes@.subrange(0, 7) =~= magic_bytes());
    }
    if bytes.len() < 11 {
        return Err(GeoError::Corrupt);
    }
    let ver = read_u32_le_at(bytes.as_slice(), 7);
    if ver != VERSION {
        return Err(GeoError::BadVersion);
    }
    if bytes.len() < 43 {
        return Err(GeoError::Corrupt);
    }
    let fst_len = read_u64_le_at(bytes.as_slice(), 11);
    let postings_len = read_u64_le_at(bytes.as_slice(), 19);
    let records_len = read_u64_le_at(bytes.as_slice(), 27);
    let offsets_len = read_u64_le_at(bytes.as_slice(), 35);
    let mut rem: u64 = bytes.len() as u64 - 43;
    if fst_len > rem {
        return Err(GeoError::Corrupt);
    }
    rem = rem - fst_len;
    if postings_len > rem {
        return Err(GeoError::Corrupt);
    }
    rem = rem - postings_len;
    if records_len > rem {
        return Err(GeoError::Corrupt);
    }
    rem = rem - records_len;
    if offsets_len != rem {
        return Err(GeoError::Corrupt);
    }
    let db = Db {
        fst_start: 43,
        fst_len: fst_len as usize,
        postings_start: 43 + fst_len as usize,
        postings_len: postings_len as usize,
        records_start: 43 + fst_len as usize + postings_len as usize,
        records_len: records_len as usize,
        offsets_start: 43 + fst_len as usize + postings_len as usize + records_len as usize,
        offsets_len: offsets_len as usize,
        bytes,
    };
    Ok(db)
}

/// Reads and decodes the posting list that starts at `postings_offset` of
/// the postings section: its varint byte length, then that many bytes of
/// delta + varint ids.
pub open spec fn spec_read_postings(sec: Seq<u8>, off: int) -> Result<Seq<u32>, GeoError> {
    if off < 0 || off >= sec.len() {
        Err(GeoError::Corrupt)
    } else {
        match varint_parse(sec.skip(off)) {
            None => Err(GeoError::Corrupt),
            Some(p) => {
                let l = (p.0 % 0x100000000) as int;
                if p.1 + l > sec.len() - off {
                    Err(GeoError::Corrupt)
                } else {
                    Ok(spec_decode_deltas(sec.subrange(off + p.1, off + p.1 + l), 0))
                }
            },
        }
    }
}

/// Reads the posting list at `postings_offset` of the postings blob.
pub fn read_postings(db: &Db, postings_offset: usize) -> (r: Result<Vec<u32>, GeoError>)
    requires
        db.wf(),
    ensures
        match spec_read_postings(postings_sec(db.bytes@), postings_offset as int) {
            Ok(ids) => r matches Ok(v) && v@ == ids,
            Err(e) => r == Err::<Vec<u32>, GeoError>(e),
        },
{
    let blob = db.postings_slice();
    if postings_offset >= blob.len() {
        return Err(GeoError::Corrupt);
    }
    let tail = slice_tail(blob, postings_offset);
    proof {
        lemma_varint_parse_bounds(tail@);
    }
    let (len32, nb) = match read_var_u32(tail) {
        Ok(p) => p,
        Err(_) => {
            return Err(GeoError::Corrupt);
        },
    };
    let l = len32 as usize;
    let start = postings_offset + nb;
    if l > blob.len() - start {
        return Err(GeoError::Corrupt);
    }
    let body = slice_subrange(blob, start, start + l);
    proof {
        assert(body@ =~= postings_sec(db.bytes@).subrange(
            postings_offset + nb,
            postings_offset + nb + l,
        ));
    }
    Ok(decode_delta_varints(body))
}

/// How many entries the offsets table declares.
pub open spec fn otab_n(sec: Seq<u8>) -> int {
    le4_val(sec, 0)
}

/// Whether the offsets table holds the count it declares.
pub open spec fn otab_ok(sec: Seq<u8>) -> bool {
    sec.len() >= 4 && 4 + otab_n(sec) * 12 <= sec.len()
}

/// The `i`-th id of the offsets table.
pub open spec fn otab_id(sec: Seq<u8>, i: int) -> int {
    le4_val(sec, 4 + 4 * i)
}

/// The `i`-th record offset of the offsets table.
pub open spec fn otab_off(sec: Seq<u8>, i: int) -> int {
    le8_val(sec, 4 + 4 * otab_n(sec) + 8 * i)
}

/// The lower-bound binary search the reader runs over the id column.
pub open spec fn bs_lo(sec: Seq<u8>, id: int, lo: int, hi: int) -> int
    decreases hi - lo,
{
    if lo >= hi {
        lo
    } else {
        let mid = lo + (hi - lo) / 2;
        if otab_id(sec, mid) < id {
            bs_lo(sec, id, mid + 1, hi)
        } else {
            bs_lo(sec, id, lo, mid)
        }
    }
}

/// What looking a record up by id yields: the record and its offset, or
/// nothing for an absent id, or `Corrupt` for a table or record that does
/// not parse.
pub open spec fn spec_lookup(b: Seq<u8>, id: u32) -> Result<Option<(RecView, int)>, GeoError> {
    let sec = offsets_sec(b);
    if !otab_ok(sec) {
        Err(GeoError::Corrupt)
    } else {
        let n = otab_n(sec);
        let lo = bs_lo(sec, id as int, 0, n);
        if lo >= n || otab_id(sec, lo) != id {
            Ok(None)
        } else {
            let off = otab_off(sec, lo);
            let rsec = records_sec(b);
            if off >= rsec.len() {
                Err(GeoError::Corrupt)
            } else {
                match rec_parse(rsec, off) {
                    None => Err(GeoError::Corrupt),
                    Some(q) => if rec_utf8(q.0) {
                        Ok(Some((q.0, off)))
                    } else {
                        Err(GeoError::Corrupt)
                    },
                }
            }
        }
    }
}

/// Looks a record up by id: a lower-bound binary search on the offsets
/// table, then a record decode at the found offset.  An absent id is not an
/// error; a malformed table or record is.
pub fn read_record_by_id(db: &Db, id: u32) -> (r: Result<Option<GeoRecord>, GeoError>)
    requires
        db.wf(),
    ensures
        match spec_lookup(db.bytes@, id) {
            Err(e) => r == Err::<Option<GeoRecord>, GeoError>(e),
            Ok(None) => r == Ok::<Option<GeoRecord>, GeoError>(None),
            Ok(Some(q)) => r matches Ok(Some(rec)) && rec@ == q.0 && rec.ascii_name@
                == Seq::<u8>::empty(),
        },
{
    let sec = db.offsets_slice();
    let ghost gsec = offsets_sec(db.bytes@);
    if sec.len() < 4 {
        return Err(GeoError::Corrupt);
    }
    let n_u32 = read_u32_le_at(sec, 0);
    let n = n_u32 as usize;
    if (n as u64) * 12 + 4 > sec.len() as u64 {
        return Err(GeoError::Corrupt);
    }
    proof {
        assert(otab_ok(gsec));
        assert(otab_n(gsec) == n);
    }
    let mut lo: usize = 0;
    let mut hi: usize = n;
    while lo < hi
        invariant
            0 <= lo <= hi <= n,
            n == otab_n(gsec),
            gsec == offsets_sec(db.bytes@),
            otab_ok(gsec),
            sec@ == gsec,
            db.wf(),
            bs_lo(gsec, id as int, 0, n as int) == bs_lo(gsec, id as int, lo as int, hi as int),
        decreases hi - lo,
    {
        let mid = lo + (hi - lo) / 2;
        let mid_id = read_u32_le_at(sec, 4 + mid * 4);
        proof {
            assert(mid_id == otab_id(gsec, mid as int));
        }
        if mid_id < id {
            lo = mid + 1;
        } else {
            hi = mid;
        }
    }
    proof {
        assert(bs_lo(gsec, id as int, lo as int, lo as int) == lo);
    }
    if lo >= n {
        return Ok(None);
    }
    let found = read_u32_le_at(sec, 4 + lo * 4);
    if found != id {
        proof {
            assert(otab_id(gsec, lo as int) != id);
        }
        return Ok(None);
    }
    let off_u64 = read_u64_le_at(sec, 4 + n * 4 + lo * 8);
    let rec_blob = db.records_slice();
    if off_u64 >= rec_blob.len() as u64 {
        return Err(GeoError::Corrupt);
    }
    let off = off_u64 as usize;
    match read_record(rec_blob, off) {
        Err(e) => Err(e),
        Ok((rec, _)) => Ok(Some(rec)),
    }
}

} // verus!
