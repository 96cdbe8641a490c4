//! What holds of every built database.
//!
//! Each proof here states one guarantee of the build over the predicates
//! that `build_db_bytes` establishes: `db_matches` ties the serialized
//! image to the posting map and records, and the ground-truth pair list
//! `all_pairs` ties the posting map to the inputs.

use vstd::prelude::*;

verus! {

use crate::codec::strictly_ascending;
use crate::db::bs_lo;
use crate::db::fst_sec;
use crate::db::offsets_sec;
use crate::db::otab_id;
use crate::db::otab_n;
use crate::db::otab_off;
use crate::db::postings_sec;
use crate::db::records_sec;
use crate::db::spec_lookup;
use crate::db::spec_read_postings;
use crate::err::GeoError;
use crate::fstidx::fst_denote;
use crate::pipeline::all_pairs;
use crate::pipeline::db_matches;
use crate::pipeline::gt_has;
use crate::pipeline::gt_has_key;
use crate::pipeline::lemma_gt_concat;
use crate::pipeline::otab_covers;
use crate::pipeline::otab_entry_ok;
use crate::pipeline::rec_at;
use crate::pipeline::rec_pairs;
use crate::pipeline::seed_pairs;
use crate::posting::PostingMap;
use crate::posting::lemma_lex_trichotomy;
use crate::query::spec_query;
use crate::query::spec_truncated;
use crate::record::GeoRecord;
use crate::record::rec_bytes;
use crate::record::rec_wf;
use crate::record::lemma_record_round_trip;
use crate::unicode::norm_of;

/// Every key of the built index resolves, through the FST, to a posting
/// list that is strictly ascending, duplicate-free and non-empty.
pub proof fn lemma_built_postings_sound(b: Seq<u8>, m: PostingMap, recs: Seq<GeoRecord>, i: int)
    requires
        db_matches(b, m, recs),
        0 <= i < m.keys@.len(),
    ensures
        fst_denote(fst_sec(b)).contains_key(m.keys@[i]@),
        spec_read_postings(postings_sec(b), fst_denote(fst_sec(b))[m.keys@[i]@] as int)
            == Ok::<Seq<u32>, GeoError>(m.lists@[i]@),
        strictly_ascending(m.lists@[i]@),
        m.lists@[i]@.len() > 0,
{
}

/// Some offsets-table entry of the build holds `id`.
pub open spec fn id_in_otab(b: Seq<u8>, recs: Seq<GeoRecord>, id: u32) -> bool {
    exists|j: int| 0 <= j < recs.len() && #[trigger] otab_id(offsets_sec(b), j) == id
}

/// An id a seed pair carries is the id of some record.
proof fn lemma_seed_pairs_ids(recs: Seq<GeoRecord>, k: Seq<u8>, id: u32)
    requires
        gt_has(seed_pairs(recs), k, id),
    ensures
        exists|ri: int| 0 <= ri < recs.len() && (#[trigger] recs[ri]).id == id,
    decreases recs.len(),
{
    let head = recs.drop_last();
    lemma_gt_concat(seed_pairs(head), rec_pairs(recs.last()), k, id);
    if gt_has(seed_pairs(head), k, id) {
        lemma_seed_pairs_ids(head, k, id);
        let w = choose|w: int| 0 <= w < head.len() && (#[trigger] head[w]).id == id;
        assert(recs[w].id == id);
    } else {
        let ps = rec_pairs(recs.last());
        let w = choose|w: int| 0 <= w < ps.len() && ps[w] == (k, id);
        assert(ps[w].1 == id);
        assert(recs[recs.len() - 1].id == id);
    }
}

/// An id any ground-truth pair carries is the id of some record, as long
/// as the alternate-name ids were filtered against the admitted set.
pub proof fn lemma_gt_ids_admitted(
    recs: Seq<GeoRecord>,
    alts: Seq<(Vec<u8>, u32)>,
    k: Seq<u8>,
    id: u32,
)
    requires
        gt_has(all_pairs(recs, alts), k, id),
        forall|i: int|
            0 <= i < alts.len() ==> exists|ri: int|
                0 <= ri < recs.len() && (#[trigger] recs[ri]).id == (#[trigger] alts[i]).1,
    ensures
        exists|ri: int| 0 <= ri < recs.len() && (#[trigger] recs[ri]).id == id,
{
    lemma_gt_concat(seed_pairs(recs), crate::pipeline::pair_views(alts), k, id);
    if gt_has(seed_pairs(recs), k, id) {
        lemma_seed_pairs_ids(recs, k, id);
    } else {
        let pv = crate::pipeline::pair_views(alts);
        let w = choose|w: int| 0 <= w < pv.len() && pv[w] == (k, id);
        assert(pv[w] == (alts[w].0@, alts[w].1));
        assert(alts[w].1 == id);
    }
}

/// Every id a posting list holds appears in the offsets table, at exactly
/// one position.
pub proof fn lemma_posting_ids_resolve(
    b: Seq<u8>,
    m: PostingMap,
    recs: Seq<GeoRecord>,
    alts: Seq<(Vec<u8>, u32)>,
    k: Seq<u8>,
    id: u32,
)
    requires
        db_matches(b, m, recs),
        forall|k2: Seq<u8>, id2: u32|
            (#[trigger] m.spec_has(k2, id2)) == gt_has(all_pairs(recs, alts), k2, id2),
        forall|i: int|
            0 <= i < alts.len() ==> exists|ri: int|
                0 <= ri < recs.len() && (#[trigger] recs[ri]).id == (#[trigger] alts[i]).1,
        m.spec_has(k, id),
    ensures
        id_in_otab(b, recs, id),
        forall|j1: int, j2: int|
            0 <= j1 < recs.len() && 0 <= j2 < recs.len() && otab_id(offsets_sec(b), j1) == id
                && otab_id(offsets_sec(b), j2) == id ==> j1 == j2,
{
    lemma_gt_ids_admitted(recs, alts, k, id);
    let ri = choose|ri: int| 0 <= ri < recs.len() && (#[trigger] recs[ri]).id == id;
    assert(otab_covers(b, recs, ri));
    assert forall|j1: int, j2: int|
        0 <= j1 < recs.len() && 0 <= j2 < recs.len() && otab_id(offsets_sec(b), j1) == id
            && otab_id(offsets_sec(b), j2) == id implies j1 == j2 by {
        if j1 < j2 {
            assert(otab_id(offsets_sec(b), j1) < otab_id(offsets_sec(b), j2));
        }
        if j2 < j1 {
            assert(otab_id(offsets_sec(b), j2) < otab_id(offsets_sec(b), j1));
        }
    }
}

/// The offsets table of a built database is strictly ascending by id.
pub proof fn lemma_otab_sorted(b: Seq<u8>, m: PostingMap, recs: Seq<GeoRecord>, j1: int, j2: int)
    requires
        db_matches(b, m, recs),
        0 <= j1 < j2 < recs.len(),
    ensures
        otab_id(offsets_sec(b), j1) < otab_id(offsets_sec(b), j2),
{
}

/// The keys one record seeds are reachable with that record's id.
proof fn lemma_seed_pairs_has(recs: Seq<GeoRecord>, ri: int)
    requires
        0 <= ri < recs.len(),
    ensures
        norm_of(recs[ri].name@) matches Some(k) ==> gt_has(seed_pairs(recs), k, recs[ri].id),
        norm_of(recs[ri].ascii_name@) matches Some(k) ==> gt_has(
            seed_pairs(recs),
            k,
            recs[ri].id,
        ),
    decreases recs.len(),
{
    let head = recs.drop_last();
    let ps = rec_pairs(recs.last());
    if ri == recs.len() - 1 {
        let r = recs.last();
        match norm_of(r.name@) {
            Some(k) => {
                assert(ps[0] == (k, r.id));
                assert(gt_has(ps, k, r.id));
                lemma_gt_concat(seed_pairs(head), ps, k, r.id);
            },
            None => {},
        }
        match norm_of(r.ascii_name@) {
            Some(k) => {
                assert(ps[ps.len() - 1] == (k, r.id));
                assert(gt_has(ps, k, r.id));
                lemma_gt_concat(seed_pairs(head), ps, k, r.id);
            },
            None => {},
        }
    } else {
        lemma_seed_pairs_has(head, ri);
        assert(head[ri] == recs[ri]);
        match norm_of(recs[ri].name@) {
            Some(k) => {
                lemma_gt_concat(seed_pairs(head), ps, k, recs[ri].id);
            },
            None => {},
        }
        match norm_of(recs[ri].ascii_name@) {
            Some(k) => {
                lemma_gt_concat(seed_pairs(head), ps, k, recs[ri].id);
            },
            None => {},
        }
    }
}

/// Every admitted record is reachable under its normalized primary name
/// and its normalized ascii name.
pub proof fn lemma_record_keys_present(
    m: PostingMap,
    recs: Seq<GeoRecord>,
    alts: Seq<(Vec<u8>, u32)>,
    ri: int,
)
    requires
        forall|k2: Seq<u8>, id2: u32|
            (#[trigger] m.spec_has(k2, id2)) == gt_has(all_pairs(recs, alts), k2, id2),
        0 <= ri < recs.len(),
    ensures
        norm_of(recs[ri].name@) matches Some(k) ==> m.spec_has(k, recs[ri].id),
        norm_of(recs[ri].ascii_name@) matches Some(k) ==> m.spec_has(k, recs[ri].id),
{
    lemma_seed_pairs_has(recs, ri);
    match norm_of(recs[ri].name@) {
        Some(k) => {
            lemma_gt_concat(seed_pairs(recs), crate::pipeline::pair_views(alts), k, recs[ri].id);
        },
        None => {},
    }
    match norm_of(recs[ri].ascii_name@) {
        Some(k) => {
            lemma_gt_concat(seed_pairs(recs), crate::pipeline::pair_views(alts), k, recs[ri].id);
        },
        None => {},
    }
}

/// Every merged alternate-name pair is reachable under its key with its
/// id.
pub proof fn lemma_alt_pair_present(
    m: PostingMap,
    recs: Seq<GeoRecord>,
    alts: Seq<(Vec<u8>, u32)>,
    i: int,
)
    requires
        forall|k2: Seq<u8>, id2: u32|
            (#[trigger] m.spec_has(k2, id2)) == gt_has(all_pairs(recs, alts), k2, id2),
        0 <= i < alts.len(),
    ensures
        m.spec_has(alts[i].0@, alts[i].1),
{
    let pv = crate::pipeline::pair_views(alts);
    assert(pv[i] == (alts[i].0@, alts[i].1));
    assert(gt_has(pv, alts[i].0@, alts[i].1));
    lemma_gt_concat(seed_pairs(recs), pv, alts[i].0@, alts[i].1);
}

/// Every record stored in a built database passed the population filter,
/// as long as every input record did.
pub proof fn lemma_min_pop_respected(
    b: Seq<u8>,
    m: PostingMap,
    recs: Seq<GeoRecord>,
    min_pop: u32,
    j: int,
)
    requires
        db_matches(b, m, recs),
        forall|ri: int| 0 <= ri < recs.len() ==> (#[trigger] recs[ri]).population >= min_pop,
        0 <= j < recs.len(),
    ensures
        exists|ri: int|
            0 <= ri < recs.len() && #[trigger] rec_at(
                records_sec(b),
                otab_off(offsets_sec(b), j),
                recs[ri]@,
            ) && recs[ri].population >= min_pop,
{
    assert(otab_entry_ok(b, recs, j));
    let ri = choose|ri: int|
        0 <= ri < recs.len() && (#[trigger] recs[ri]).id == otab_id(offsets_sec(b), j) && rec_at(
            records_sec(b),
            otab_off(offsets_sec(b), j),
            recs[ri]@,
        );
    assert(rec_at(records_sec(b), otab_off(offsets_sec(b), j), recs[ri]@));
}

/// The lower-bound search over a strictly ascending id column lands on the
/// first position at or above the id.
proof fn lemma_bs_lo_sorted(sec: Seq<u8>, id: int, lo: int, hi: int, n: int)
    requires
        0 <= lo <= hi <= n,
        n == otab_n(sec),
        forall|j1: int, j2: int| 0 <= j1 < j2 < n ==> otab_id(sec, j1) < otab_id(sec, j2),
        forall|i: int| 0 <= i < lo ==> otab_id(sec, i) < id,
        forall|i: int| hi <= i < n ==> otab_id(sec, i) >= id,
    ensures
        lo <= bs_lo(sec, id, lo, hi) <= hi,
        forall|i: int| 0 <= i < bs_lo(sec, id, lo, hi) ==> otab_id(sec, i) < id,
        forall|i: int| bs_lo(sec, id, lo, hi) <= i < n ==> otab_id(sec, i) >= id,
    decreases hi - lo,
{
    if lo < hi {
        let mid = lo + (hi - lo) / 2;
        if otab_id(sec, mid) < id {
            assert forall|i: int| 0 <= i < mid + 1 implies otab_id(sec, i) < id by {
                if lo <= i < mid {
                    assert(otab_id(sec, i) < otab_id(sec, mid));
                }
            }
            lemma_bs_lo_sorted(sec, id, mid + 1, hi, n);
        } else {
            assert forall|i: int| mid <= i < n implies otab_id(sec, i) >= id by {
                if mid < i {
                    assert(otab_id(sec, mid) < otab_id(sec, i));
                }
            }
            lemma_bs_lo_sorted(sec, id, lo, mid, n);
        }
    }
}

/// Looking up an id that the offsets table holds succeeds and yields the
/// record with that id.
#[verifier::rlimit(100)]
#[verifier::spinoff_prover]
pub proof fn lemma_lookup_found(b: Seq<u8>, m: PostingMap, recs: Seq<GeoRecord>, id: u32)
    requires
        db_matches(b, m, recs),
        id_in_otab(b, recs, id),
    ensures
        spec_lookup(b, id) matches Ok(q) && q matches Some(p) && p.0.id == id,
{
    let sec = offsets_sec(b);
    let n = otab_n(sec);
    lemma_bs_lo_sorted(sec, id as int, 0, n, n);
    let r = bs_lo(sec, id as int, 0, n);
    let j = choose|j: int| 0 <= j < recs.len() && #[trigger] otab_id(sec, j) == id;
    assert(j >= r);
    if j > r {
        assert(otab_id(sec, r) < otab_id(sec, j));
        assert(otab_id(sec, r) >= id);
        assert(false);
    }
    assert(otab_id(sec, r) == id && r < n);
    assert(otab_entry_ok(b, recs, r));
    let ri = choose|ri: int|
        0 <= ri < recs.len() && (#[trigger] recs[ri]).id == otab_id(sec, r) && rec_at(
            records_sec(b),
            otab_off(sec, r),
            recs[ri]@,
        );
    let off = otab_off(sec, r);
    let rsec = records_sec(b);
    assert(rec_wf(recs[ri]@));
    assert(rec_bytes(recs[ri]@).len() >= 17) by {
        crate::codec::lemma_varint_bytes_len(recs[ri]@.name.len() as nat);
        crate::codec::lemma_varint_bytes_len(recs[ri]@.country.len() as nat);
        crate::codec::lemma_varint_bytes_len(recs[ri]@.admin1.len() as nat);
        crate::codec::lemma_varint_bytes_len(recs[ri]@.admin2.len() as nat);
        crate::codec::lemma_varint_bytes_len(recs[ri]@.feat_code.len() as nat);
    }
    assert(0 <= off && off < rsec.len());
    lemma_record_round_trip(recs[ri]@, rsec, off);
}

/// The record an id of the offsets table looks up to.
pub open spec fn found_rec(b: Seq<u8>, id: u32) -> crate::record::RecView {
    spec_lookup(b, id).unwrap().unwrap().0
}

/// Materializing a list of ids that the offsets table wholly resolves
/// yields one candidate per id, in order: the record each id looks up to.
pub proof fn lemma_candidates_all_found(
    b: Seq<u8>,
    m: PostingMap,
    recs: Seq<GeoRecord>,
    ids: Seq<u32>,
)
    requires
        db_matches(b, m, recs),
        forall|l: int| 0 <= l < ids.len() ==> id_in_otab(b, recs, #[trigger] ids[l]),
    ensures
        crate::query::spec_candidates(b, ids) matches Ok(cands) && cands.len() == ids.len()
            && (forall|l: int| 0 <= l < ids.len() ==> (#[trigger] cands[l]).id == ids[l]) && (
        forall|l: int| 0 <= l < ids.len() ==> #[trigger] cands[l] == found_rec(b, ids[l])),
    decreases ids.len(),
{
    if ids.len() > 0 {
        lemma_lookup_found(b, m, recs, ids[0]);
        let rest = ids.skip(1);
        assert forall|l: int| 0 <= l < rest.len() implies id_in_otab(b, recs, #[trigger] rest[l]) by {
            assert(rest[l] == ids[l + 1]);
        }
        lemma_candidates_all_found(b, m, recs, rest);
        let q = spec_lookup(b, ids[0]).unwrap().unwrap();
        let cands_rest = crate::query::spec_candidates(b, rest).unwrap();
        assert(crate::query::spec_candidates(b, ids) == Ok::<_, GeoError>(
            seq![q.0] + cands_rest,
        ));
        assert forall|l: int|
            0 <= l < ids.len() implies ((seq![q.0] + cands_rest)[l]).id == ids[l] && (seq![q.0]
            + cands_rest)[l] == found_rec(b, ids[l]) by {
            if l > 0 {
                assert(cands_rest[l - 1].id == rest[l - 1]);
                assert(cands_rest[l - 1] == found_rec(b, rest[l - 1]));
            }
        }
    }
}

/// In a well-formed posting map, membership under a key is membership in
/// the unique entry that holds the key.
proof fn lemma_map_entry_unique(m: PostingMap, i: int, k: Seq<u8>, id: u32)
    requires
        m.wf(),
        0 <= i < m.keys@.len(),
        m.keys@[i]@ == k,
    ensures
        m.spec_has(k, id) == m.lists@[i]@.contains(id),
{
    if m.spec_has(k, id) {
        let w = choose|w: int|
            0 <= w < m.keys@.len() && (#[trigger] m.keys@[w])@ == k && m.lists@[w]@.contains(id);
        if w != i {
            if w < i {
                lemma_lex_trichotomy(m.keys@[w]@, m.keys@[i]@);
            } else {
                lemma_lex_trichotomy(m.keys@[i]@, m.keys@[w]@);
            }
        }
    }
    if m.lists@[i]@.contains(id) {
        assert(0 <= i < m.keys@.len() && m.keys@[i]@ == k && m.lists@[i]@.contains(id));
    }
}

/// Ground truth of the query path: on a built database, an unlimited
/// lookup returns one candidate per id of the key's posting list, in
/// ascending order, and that list holds exactly the ids the build's pair
/// stream put under the key's normalization.  A key that normalizes to
/// nothing, or whose normalization the stream never saw, returns nothing.
pub proof fn lemma_build_lookup(
    b: Seq<u8>,
    m: PostingMap,
    recs: Seq<GeoRecord>,
    alts: Seq<(Vec<u8>, u32)>,
    mv: Map<Seq<u8>, u64>,
    key: Seq<u8>,
)
    requires
        db_matches(b, m, recs),
        forall|k2: Seq<u8>|
            (#[trigger] m.spec_has_key(k2)) == gt_has_key(all_pairs(recs, alts), k2),
        forall|k2: Seq<u8>, id2: u32|
            (#[trigger] m.spec_has(k2, id2)) == gt_has(all_pairs(recs, alts), k2, id2),
        forall|i: int|
            0 <= i < alts.len() ==> exists|ri: int|
                0 <= ri < recs.len() && (#[trigger] recs[ri]).id == (#[trigger] alts[i]).1,
        mv == fst_denote(fst_sec(b)),
    ensures
        match norm_of(key) {
            None => spec_query(b, mv, key, 0) == Ok::<Seq<crate::record::RecView>, GeoError>(
                Seq::empty(),
            ),
            Some(k) => {
                if !gt_has_key(all_pairs(recs, alts), k) {
                    spec_query(b, mv, key, 0) == Ok::<Seq<crate::record::RecView>, GeoError>(
                        Seq::empty(),
                    )
                } else {
                    exists|i: int|
                        0 <= i < m.keys@.len() && (#[trigger] m.keys@[i])@ == k && (spec_query(
                            b,
                            mv,
                            key,
                            0,
                        ) matches Ok(cands) && cands.len() == m.lists@[i]@.len() && (forall|l: int|
                            0 <= l < cands.len() ==> (#[trigger] cands[l]).id == m.lists@[i]@[l])
                            && (forall|id: u32|
                            (#[trigger] m.lists@[i]@.contains(id)) == gt_has(
                                all_pairs(recs, alts),
                                k,
                                id,
                            )))
                }
            },
        },
{
    match norm_of(key) {
        None => {},
        Some(k) => {
            if !gt_has_key(all_pairs(recs, alts), k) {
                assert(!m.spec_has_key(k));
                assert(!mv.contains_key(k));
            } else {
                assert(m.spec_has_key(k));
                let i = choose|i: int|
                    0 <= i < m.keys@.len() && (#[trigger] m.keys@[i])@ == k;
                let ids = m.lists@[i]@;
                assert(mv.contains_key(k));
                assert(spec_read_postings(postings_sec(b), mv[m.keys@[i]@] as int)
                    == Ok::<Seq<u32>, GeoError>(ids));
                assert(spec_truncated(ids, 0) == ids);
                assert forall|l: int| 0 <= l < ids.len() implies id_in_otab(
                    b,
                    recs,
                    #[trigger] ids[l],
                ) by {
                    assert(ids.contains(ids[l]));
                    assert(m.spec_has(k, ids[l])) by {
                        lemma_map_entry_unique(m, i, k, ids[l]);
                    }
                    lemma_posting_ids_resolve(b, m, recs, alts, k, ids[l]);
                }
                lemma_candidates_all_found(b, m, recs, ids);
                assert forall|id: u32|
                    (#[trigger] ids.contains(id)) == gt_has(all_pairs(recs, alts), k, id) by {
                    lemma_map_entry_unique(m, i, k, id);
                }
            }
        },
    }
}


/// The limit keeps exactly an ascending-id prefix: on a built database, a
/// query with limit 0, or one at least the full candidate count, returns
/// the full list unchanged; a smaller positive limit returns exactly the
/// first `limit` candidates of the full list.
#[verifier::rlimit(100)]
pub proof fn lemma_limit_prefix(
    b: Seq<u8>,
    m: PostingMap,
    recs: Seq<GeoRecord>,
    alts: Seq<(Vec<u8>, u32)>,
    mv: Map<Seq<u8>, u64>,
    key: Seq<u8>,
    limit: int,
)
    requires
        db_matches(b, m, recs),
        forall|k2: Seq<u8>|
            (#[trigger] m.spec_has_key(k2)) == gt_has_key(all_pairs(recs, alts), k2),
        forall|k2: Seq<u8>, id2: u32|
            (#[trigger] m.spec_has(k2, id2)) == gt_has(all_pairs(recs, alts), k2, id2),
        forall|i: int|
            0 <= i < alts.len() ==> exists|ri: int|
                0 <= ri < recs.len() && (#[trigger] recs[ri]).id == (#[trigger] alts[i]).1,
        mv == fst_denote(fst_sec(b)),
        limit >= 0,
    ensures
        match spec_query(b, mv, key, 0) {
            Ok(full) => {
                &&& (limit == 0 || limit >= full.len()) ==> spec_query(b, mv, key, limit)
                    == Ok::<Seq<crate::record::RecView>, GeoError>(full)
                &&& (0 < limit < full.len()) ==> spec_query(b, mv, key, limit) == Ok::<
                    Seq<crate::record::RecView>,
                    GeoError,
                >(full.take(limit))
            },
            Err(_) => true,
        },
{
    match norm_of(key) {
        None => {},
        Some(k) => {
            if !gt_has_key(all_pairs(recs, alts), k) {
                assert(!m.spec_has_key(k));
                assert(!mv.contains_key(k));
            } else {
                assert(m.spec_has_key(k));
                let i = choose|i: int| 0 <= i < m.keys@.len() && (#[trigger] m.keys@[i])@ == k;
                let ids = m.lists@[i]@;
                assert(mv.contains_key(k));
                assert(spec_read_postings(postings_sec(b), mv[m.keys@[i]@] as int)
                    == Ok::<Seq<u32>, GeoError>(ids));
                assert forall|l: int| 0 <= l < ids.len() implies id_in_otab(
                    b,
                    recs,
                    #[trigger] ids[l],
                ) by {
                    assert(ids.contains(ids[l]));
                    assert(m.spec_has(k, ids[l])) by {
                        lemma_map_entry_unique(m, i, k, ids[l]);
                    }
                    lemma_posting_ids_resolve(b, m, recs, alts, k, ids[l]);
                }
                lemma_candidates_all_found(b, m, recs, ids);
                let full = crate::query::spec_candidates(b, ids).unwrap();
                assert(spec_truncated(ids, 0) == ids);
                if limit == 0 || limit >= full.len() {
                    assert(spec_truncated(ids, limit) == ids);
                } else {
                    let tids = ids.take(limit);
                    assert(spec_truncated(ids, limit) == tids);
                    assert forall|l: int| 0 <= l < tids.len() implies id_in_otab(
                        b,
                        recs,
                        #[trigger] tids[l],
                    ) by {
                        assert(tids[l] == ids[l]);
                    }
                    lemma_candidates_all_found(b, m, recs, tids);
                    let part = crate::query::spec_candidates(b, tids).unwrap();
                    assert forall|l: int| 0 <= l < part.len() implies part[l] == full.take(
                        limit,
                    )[l] by {
                        assert(part[l] == found_rec(b, tids[l]));
                        assert(full[l] == found_rec(b, ids[l]));
                        assert(tids[l] == ids[l]);
                    }
                    assert(part =~= full.take(limit));
                }
            }
        },
    }
}

} // verus!
