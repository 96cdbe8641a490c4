//! Query engine.
//!
//! A query normalizes its key (trim, lowercase), looks it up in the FST,
//! decodes the posting list at the returned offset, truncates it to the
//! limit when one is given, and materializes a record for each id.  A key
//! that is absent — or empty once normalized — gives an empty result, never
//! an error; corrupt postings, tables or records do.

use vstd::prelude::*;

verus! {

use vstd::utf8::decode_utf8;
use vstd::utf8::valid_utf8;
use crate::db::Db;
use crate::db::postings_sec;
use crate::db::spec_lookup;
use crate::db::spec_read_postings;
use crate::db::read_postings;
use crate::db::read_record_by_id;
use crate::err::GeoError;
use crate::fstidx::fst_denote;
use crate::fstidx::fst_is_valid;
use crate::fstidx::fst_map_get;
use crate::fstidx::fst_loadable;
use crate::fstidx::fst_map_new;
use crate::fstidx::fst_map_view;
use crate::fstidx::fst_map_wf;
use crate::record::GeoRecord;
use crate::record::RecView;
use crate::unicode::char_is_ws;
use crate::unicode::norm_key;
use crate::unicode::norm_of;

/// Loads the FST index of an opened database.  Fails with `Corrupt`
/// exactly when the FST section is not a map `fst::Map::new` accepts.
pub fn load_fst(db: &Db) -> (r: Result<fst::Map<Vec<u8>>, GeoError>)
    requires
        db.wf(),
    ensures
        (r is Ok) == fst_loadable(crate::db::fst_sec(db.bytes@)),
        r is Err ==> r == Err::<fst::Map<Vec<u8>>, GeoError>(GeoError::Corrupt),
        fst_is_valid(crate::db::fst_sec(db.bytes@)) ==> r is Ok,
        r matches Ok(m) ==> (fst_is_valid(crate::db::fst_sec(db.bytes@)) ==> fst_map_wf(m)
            && fst_map_view(m) == fst_denote(crate::db::fst_sec(db.bytes@))),
{
    let bytes = vstd::slice::slice_to_vec(db.fst_slice());
    match fst_map_new(bytes) {
        Ok(m) => Ok(m),
        Err(_) => Err(GeoError::Corrupt),
    }
}

/// The views of a vector of records.
pub open spec fn rec_views(v: Seq<GeoRecord>) -> Seq<RecView> {
    v.map_values(|r: GeoRecord| r@)
}

/// The posting list a key selects: nothing for a key that normalizes to
/// nothing or is absent from the index, the decoded list at the key's
/// offset otherwise.
pub open spec fn spec_posting_ids(b: Seq<u8>, mv: Map<Seq<u8>, u64>, key: Seq<u8>) -> Result<
    Option<Seq<u32>>,
    GeoError,
> {
    match norm_of(key) {
        None => Ok(None),
        Some(k) => {
            if !mv.contains_key(k) {
                Ok(None)
            } else {
                match spec_read_postings(postings_sec(b), mv[k] as int) {
                    Err(e) => Err(e),
                    Ok(ids) => Ok(Some(ids)),
                }
            }
        },
    }
}

/// The ids a limit keeps: all of them for limit 0 or a list within the
/// limit, the first `limit` otherwise.
pub open spec fn spec_truncated(ids: Seq<u32>, limit: int) -> Seq<u32> {
    if limit != 0 && ids.len() > limit {
        ids.take(limit)
    } else {
        ids
    }
}

/// The records the ids select, in order; an id absent from the offsets
/// table is skipped, a corrupt table or record fails.
pub open spec fn spec_candidates(b: Seq<u8>, ids: Seq<u32>) -> Result<Seq<RecView>, GeoError>
    decreases ids.len(),
{
    if ids.len() == 0 {
        Ok(Seq::empty())
    } else {
        match spec_lookup(b, ids[0]) {
            Err(e) => Err(e),
            Ok(None) => spec_candidates(b, ids.skip(1)),
            Ok(Some(q)) => match spec_candidates(b, ids.skip(1)) {
                Err(e) => Err(e),
                Ok(rest) => Ok(seq![q.0] + rest),
            },
        }
    }
}

/// What an exact query returns on a database image.
pub open spec fn spec_query(b: Seq<u8>, mv: Map<Seq<u8>, u64>, key: Seq<u8>, limit: int) -> Result<
    Seq<RecView>,
    GeoError,
> {
    match spec_posting_ids(b, mv, key) {
        Err(e) => Err(e),
        Ok(None) => Ok(Seq::empty()),
        Ok(Some(ids)) => spec_candidates(b, spec_truncated(ids, limit)),
    }
}

/// Answers an exact query: the records whose posting list the normalized
/// key selects, in ascending id order, at most `limit` of them when `limit`
/// is not 0.  An absent key, or one that is empty or whitespace once
/// trimmed, gives an empty result.
#[verifier::rlimit(100)]
pub fn query_exact(db: &Db, m: &fst::Map<Vec<u8>>, key: &[u8], limit: usize) -> (r: Result<
    Vec<GeoRecord>,
    GeoError,
>)
    requires
        db.wf(),
        fst_map_wf(*m),
    ensures
        match spec_query(db.bytes@, fst_map_view(*m), key@, limit as int) {
            Err(e) => r == Err::<Vec<GeoRecord>, GeoError>(e),
            Ok(cands) => r matches Ok(v) && rec_views(v@) == cands,
        },
        (valid_utf8(key@) && forall|i: int|
            0 <= i < decode_utf8(key@).len() ==> char_is_ws(decode_utf8(key@)[i])) ==> (r matches
            Ok(v) && v@.len() == 0),
{
    let norm = norm_key(key);
    let k = match norm {
        None => {
            let out: Vec<GeoRecord> = Vec::new();
            proof {
                assert(rec_views(out@) =~= Seq::<RecView>::empty());
            }
            return Ok(out);
        },
        Some(k) => k,
    };
    let off64 = match fst_map_get(m, k.as_slice()) {
        None => {
            let out: Vec<GeoRecord> = Vec::new();
            proof {
                assert(rec_views(out@) =~= Seq::<RecView>::empty());
            }
            return Ok(out);
        },
        Some(v) => v,
    };
    let blob_len = db.postings_len;
    proof {
        assert(postings_sec(db.bytes@).len() == db.postings_len);
    }
    if off64 >= blob_len as u64 {
        return Err(GeoError::Corrupt);
    }
    let mut ids = read_postings(db, off64 as usize)?;
    if limit != 0 && ids.len() > limit {
        ids.truncate(limit);
    }
    let ghost tids = ids@;
    let mut out: Vec<GeoRecord> = Vec::new();
    let mut i: usize = 0;
    proof {
        assert(tids.skip(0) =~= tids);
        assert(rec_views(out@) =~= Seq::<RecView>::empty());
    }
    while i < ids.len()
        invariant
            0 <= i <= ids@.len(),
            ids@ == tids,
            db.wf(),
            !(valid_utf8(key@) && forall|j: int|
                0 <= j < decode_utf8(key@).len() ==> char_is_ws(decode_utf8(key@)[j])),
            spec_query(db.bytes@, fst_map_view(*m), key@, limit as int) == spec_candidates(
                db.bytes@,
                tids,
            ),
            match spec_candidates(db.bytes@, tids.skip(i as int)) {
                Err(e) => spec_candidates(db.bytes@, tids) == Err::<Seq<RecView>, GeoError>(e),
                Ok(rest) => spec_candidates(db.bytes@, tids) == Ok::<Seq<RecView>, GeoError>(
                    rec_views(out@) + rest,
                ),
            },
        decreases ids@.len() - i,
    {
        let id = ids[i];
        let ghost rem = tids.skip(i as int);
        proof {
            assert(rem[0] == id);
            assert(rem.skip(1) =~= tids.skip(i + 1));
        }
        match read_record_by_id(db, id) {
            Err(e) => {
                return Err(e);
            },
            Ok(None) => {},
            Ok(Some(rec)) => {
                let ghost outpre = out@;
                out.push(rec);
                proof {
                    assert(rec_views(out@) =~= rec_views(outpre).push(rec@));
                    match spec_candidates(db.bytes@, tids.skip(i + 1)) {
                        Err(_) => {},
                        Ok(rest2) => {
                            assert(rec_views(outpre) + (seq![rec@] + rest2) =~= rec_views(out@)
                                + rest2);
                        },
                    }
                }
            },
        }
        i += 1;
    }
    proof {
        assert(tids.skip(i as int) =~= Seq::<u32>::empty());
        assert(rec_views(out@) + Seq::<RecView>::empty() =~= rec_views(out@));
    }
    Ok(out)
}

/// The limit keeps all candidates when it is 0 or at least the list length,
/// and exactly the first `limit` — an ascending-id prefix — otherwise.
pub proof fn lemma_limit_semantics(ids: Seq<u32>, limit: int)
    requires
        limit >= 0,
    ensures
        limit == 0 ==> spec_truncated(ids, limit) == ids,
        limit >= ids.len() ==> spec_truncated(ids, limit) == ids,
        0 < limit < ids.len() ==> spec_truncated(ids, limit) == ids.take(limit)
            && spec_truncated(ids, limit).len() == limit,
{
    if limit >= ids.len() && limit != 0 {
        assert(spec_truncated(ids, limit) == ids);
    }
}

/// Keys that normalize alike — for instance keys differing only by case or
/// surrounding whitespace — select the same result.
pub proof fn lemma_case_collision(
    b: Seq<u8>,
    mv: Map<Seq<u8>, u64>,
    k1: Seq<u8>,
    k2: Seq<u8>,
    limit: int,
)
    requires
        norm_of(k1) == norm_of(k2),
    ensures
        spec_query(b, mv, k1, limit) == spec_query(b, mv, k2, limit),
{
}

} // verus!
