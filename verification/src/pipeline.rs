//! Build pipeline.
//!
//! From admitted records and alternate-name pairs the build assembles the
//! key → posting-list map — primary and ascii names first, alternate names
//! merged after — and serializes it: a postings blob addressed by an FST of
//! the keys, a records blob sorted by id, an id-to-offset table, and the
//! header in front.

use vstd::prelude::*;

verus! {

use crate::codec::delta_bytes;
use crate::codec::encode_delta_varints;
use crate::codec::lemma_delta_round_trip;
use crate::codec::lemma_varint_bytes_len;
use crate::codec::lemma_varint_round_trip;
use crate::codec::le4_val;
use crate::codec::le8_val;
use crate::codec::lemma_u32_le_round_trip;
use crate::codec::lemma_u64_le_round_trip;
use crate::codec::strictly_ascending;
use crate::codec::u32_le_bytes;
use crate::codec::u64_le_bytes;
use crate::codec::varint_bytes;
use crate::codec::varint_parse;
use crate::codec::write_u32_le;
use crate::codec::write_u64_le;
use crate::codec::write_var_u32;
use crate::db::fst_sec;
use crate::db::magic_bytes;
use crate::db::offsets_sec;
use crate::db::open_err;
use crate::db::otab_id;
use crate::db::otab_n;
use crate::db::otab_off;
use crate::db::otab_ok;
use crate::db::postings_sec;
use crate::db::records_sec;
use crate::db::spec_read_postings;
use crate::db::VERSION;
use crate::err::GeoError;
use crate::fstidx::fst_builder_finish;
use crate::fstidx::fst_builder_insert;
use crate::fstidx::fst_builder_new;
use crate::fstidx::fst_builder_pairs;
use crate::fstidx::fst_denote;
use crate::fstidx::fst_is_valid;
use crate::fstidx::pairs_as_map;
use crate::posting::IdSet;
use crate::posting::PostingMap;
use crate::posting::lemma_lex_trichotomy;
use crate::record::GeoRecord;
use crate::record::RecView;
use crate::record::rec_bytes;
use crate::record::rec_fits;
use crate::record::rec_wf;
use crate::record::write_record;
use crate::unicode::norm_of;

/// The key/id pairs one record seeds: its normalized name, then its
/// normalized ascii name, each when normalization leaves something.
pub open spec fn rec_pairs(r: GeoRecord) -> Seq<(Seq<u8>, u32)> {
    (match norm_of(r.name@) {
        Some(k) => seq![(k, r.id)],
        None => Seq::empty(),
    }) + (match norm_of(r.ascii_name@) {
        Some(k) => seq![(k, r.id)],
        None => Seq::empty(),
    })
}

/// The key/id pairs a record sequence seeds, in order.
pub open spec fn seed_pairs(recs: Seq<GeoRecord>) -> Seq<(Seq<u8>, u32)>
    decreases recs.len(),
{
    if recs.len() == 0 {
        Seq::empty()
    } else {
        seed_pairs(recs.drop_last()) + rec_pairs(recs.last())
    }
}

/// The views of a vector of alternate-name pairs.
pub open spec fn pair_views(ps: Seq<(Vec<u8>, u32)>) -> Seq<(Seq<u8>, u32)> {
    ps.map_values(|p: (Vec<u8>, u32)| (p.0@, p.1))
}

/// All key/id pairs of a build: the records' seeds, then the alternate
/// names.
pub open spec fn all_pairs(recs: Seq<GeoRecord>, alts: Seq<(Vec<u8>, u32)>) -> Seq<
    (Seq<u8>, u32),
> {
    seed_pairs(recs) + pair_views(alts)
}

/// Whether the pair `(k, id)` was seen.
pub open spec fn gt_has(ps: Seq<(Seq<u8>, u32)>, k: Seq<u8>, id: u32) -> bool {
    exists|i: int| 0 <= i < ps.len() && ps[i] == (k, id)
}

/// Whether any pair carries the key `k`.
pub open spec fn gt_has_key(ps: Seq<(Seq<u8>, u32)>, k: Seq<u8>) -> bool {
    exists|i: int| 0 <= i < ps.len() && (#[trigger] ps[i]).0 == k
}

/// Membership in a concatenation is membership in either part.
pub proof fn lemma_gt_concat(a: Seq<(Seq<u8>, u32)>, b: Seq<(Seq<u8>, u32)>, k: Seq<u8>, id: u32)
    ensures
        gt_has(a + b, k, id) == (gt_has(a, k, id) || gt_has(b, k, id)),
        gt_has_key(a + b, k) == (gt_has_key(a, k) || gt_has_key(b, k)),
{
    let c = a + b;
    if gt_has(a, k, id) {
        let i = choose|i: int| 0 <= i < a.len() && a[i] == (k, id);
        assert(c[i] == (k, id));
    }
    if gt_has(b, k, id) {
        let i = choose|i: int| 0 <= i < b.len() && b[i] == (k, id);
        assert(c[a.len() + i] == (k, id));
    }
    if gt_has(c, k, id) {
        let i = choose|i: int| 0 <= i < c.len() && c[i] == (k, id);
        if i < a.len() {
            assert(a[i] == (k, id));
        } else {
            assert(b[i - a.len()] == (k, id));
        }
    }
    if gt_has_key(a, k) {
        let i = choose|i: int| 0 <= i < a.len() && a[i].0 == k;
        assert(c[i].0 == k);
    }
    if gt_has_key(b, k) {
        let i = choose|i: int| 0 <= i < b.len() && b[i].0 == k;
        assert(c[a.len() + i].0 == k);
    }
    if gt_has_key(c, k) {
        let i = choose|i: int| 0 <= i < c.len() && c[i].0 == k;
        if i < a.len() {
            assert(a[i].0 == k);
        } else {
            assert(b[i - a.len()].0 == k);
        }
    }
}

/// Taking one more record extends the seed pairs by that record's pairs.
pub proof fn lemma_seed_pairs_snoc(recs: Seq<GeoRecord>, i: int)
    requires
        0 <= i < recs.len(),
    ensures
        seed_pairs(recs.take(i + 1)) == seed_pairs(recs.take(i)) + rec_pairs(recs[i]),
{
    let t = recs.take(i + 1);
    assert(t.drop_last() =~= recs.take(i));
    assert(t.last() == recs[i]);
}

/// Builds the set of admitted record ids.
pub fn collect_ids(records: &Vec<GeoRecord>) -> (r: IdSet)
    ensures
        r.wf(),
        forall|id: u32|
            r.spec_has(id) == exists|i: int| 0 <= i < records@.len() && (#[trigger] records@[i]).id
                == id,
{
    let mut r = IdSet::new();
    let mut i: usize = 0;
    while i < records.len()
        invariant
            0 <= i <= records@.len(),
            r.wf(),
            forall|id: u32|
                r.spec_has(id) == exists|j: int| 0 <= j < i && (#[trigger] records@[j]).id == id,
        decreases records@.len() - i,
    {
        let ghost rpre = r;
        r.insert(records[i].id);
        proof {
            assert forall|id: u32|
                r.spec_has(id) == exists|j: int| 0 <= j < i + 1 && (#[trigger] records@[j]).id
                    == id by {
                if r.spec_has(id) {
                    if rpre.spec_has(id) {
                        let w = choose|w: int| 0 <= w < i && (#[trigger] records@[w]).id == id;
                        assert(records@[w].id == id);
                    } else {
                        assert(records@[i as int].id == id);
                    }
                }
                if exists|j: int| 0 <= j < i + 1 && (#[trigger] records@[j]).id == id {
                    let w = choose|w: int| 0 <= w < i + 1 && (#[trigger] records@[w]).id == id;
                    if w < i {
                        assert(rpre.spec_has(id));
                    }
                }
            }
        }
        i += 1;
    }
    r
}

/// Seeds the posting map from the records' primary and ascii names.
#[verifier::loop_isolation(false)]
pub fn seed_primary_keys(map: &mut PostingMap, records: &Vec<GeoRecord>)
    requires
        old(map).wf(),
    ensures
        final(map).wf(),
        forall|k: Seq<u8>|
            final(map).spec_has_key(k) == (old(map).spec_has_key(k) || gt_has_key(
                seed_pairs(records@),
                k,
            )),
        forall|k: Seq<u8>, id: u32|
            final(map).spec_has(k, id) == (old(map).spec_has(k, id) || gt_has(
                seed_pairs(records@),
                k,
                id,
            )),
        forall|c: nat|
            old(map).bounded_lists(c) ==> #[trigger] final(map).bounded_lists((c + 2 * records@.len()) as nat),
{
    let ghost m0 = *map;
    let mut i: usize = 0;
    proof {
        assert(records@.take(0) =~= Seq::<GeoRecord>::empty());
    }
    while i < records.len()
        invariant
            0 <= i <= records@.len(),
            map.wf(),
            forall|k: Seq<u8>|
                map.spec_has_key(k) == (m0.spec_has_key(k) || gt_has_key(
                    seed_pairs(records@.take(i as int)),
                    k,
                )),
            forall|k: Seq<u8>, id: u32|
                map.spec_has(k, id) == (m0.spec_has(k, id) || gt_has(
                    seed_pairs(records@.take(i as int)),
                    k,
                    id,
                )),
            forall|c: nat| m0.bounded_lists(c) ==> #[trigger] map.bounded_lists((c + 2 * i) as nat),
        decreases records@.len() - i,
    {
        let rec = &records[i];
        let ghost mpre = *map;
        proof {
            assert(forall|k: Seq<u8>, id: u32|
                mpre.spec_has(k, id) == (m0.spec_has(k, id) || gt_has(
                    seed_pairs(records@.take(i as int)),
                    k,
                    id,
                )));
            assert(forall|k: Seq<u8>|
                mpre.spec_has_key(k) == (m0.spec_has_key(k) || gt_has_key(
                    seed_pairs(records@.take(i as int)),
                    k,
                )));
        }
        let ghost rp = rec_pairs(records@[i as int]);
        let nk = crate::unicode::norm_key(rec.name.as_slice());
        match nk {
            Some(k) => {
                map.add(k, rec.id);
            },
            None => {},
        }
        let ghost mmid = *map;
        let ak = crate::unicode::norm_key(rec.ascii_name.as_slice());
        match ak {
            Some(k) => {
                map.add(k, rec.id);
            },
            None => {},
        }
        proof {
            lemma_seed_pairs_snoc(records@, i as int);
            assert forall|k: Seq<u8>, id: u32|
                map.spec_has(k, id) == (mpre.spec_has(k, id) || gt_has(rp, k, id)) by {
                lemma_rec_pairs_member(records@[i as int], k, id);
            }
            assert forall|k: Seq<u8>|
                map.spec_has_key(k) == (mpre.spec_has_key(k) || gt_has_key(rp, k)) by {
                lemma_rec_pairs_key(records@[i as int], k);
            }
            assert forall|k: Seq<u8>, id: u32|
                map.spec_has(k, id) == (m0.spec_has(k, id) || gt_has(
                    seed_pairs(records@.take(i + 1)),
                    k,
                    id,
                )) by {
                lemma_gt_concat(seed_pairs(records@.take(i as int)), rp, k, id);
                assert(map.spec_has(k, id) == (mpre.spec_has(k, id) || gt_has(rp, k, id)));
                assert(mpre.spec_has(k, id) == (m0.spec_has(k, id) || gt_has(
                    seed_pairs(records@.take(i as int)),
                    k,
                    id,
                )));
            }
            assert forall|k: Seq<u8>|
                map.spec_has_key(k) == (m0.spec_has_key(k) || gt_has_key(
                    seed_pairs(records@.take(i + 1)),
                    k,
                )) by {
                lemma_gt_concat(seed_pairs(records@.take(i as int)), rp, k, 0u32);
                assert(map.spec_has_key(k) == (mpre.spec_has_key(k) || gt_has_key(rp, k)));
                assert(mpre.spec_has_key(k) == (m0.spec_has_key(k) || gt_has_key(
                    seed_pairs(records@.take(i as int)),
                    k,
                )));
            }
            assert forall|c: nat|
                m0.bounded_lists(c) implies #[trigger] map.bounded_lists((c + 2 * (i + 1)) as nat) by {
                assert(mpre.bounded_lists((c + 2 * i) as nat));
                assert(mmid.bounded_lists(((c + 2 * i) as nat) + 1));
                assert(map.bounded_lists((((c + 2 * i) as nat) + 1) + 1));
            }
        }
        i += 1;
    }
    proof {
        assert(records@.take(records@.len() as int) =~= records@);
    }
}

/// Membership in one record's pairs is exactly one of its two seeds.
proof fn lemma_rec_pairs_member(r: GeoRecord, k: Seq<u8>, id: u32)
    ensures
        gt_has(rec_pairs(r), k, id) == ((norm_of(r.name@) == Some(k) && id == r.id) || (norm_of(
            r.ascii_name@,
        ) == Some(k) && id == r.id)),
{
    let ps = rec_pairs(r);
    if norm_of(r.name@) == Some(k) && id == r.id {
        assert(ps[0] == (k, id));
    }
    if norm_of(r.ascii_name@) == Some(k) && id == r.id {
        assert(ps[ps.len() - 1] == (k, id));
    }
    if gt_has(ps, k, id) {
        let i = choose|i: int| 0 <= i < ps.len() && ps[i] == (k, id);
        assert(ps[i] == (k, id));
    }
}

/// A key occurs in one record's pairs exactly when one of its two names
/// normalizes to it.
proof fn lemma_rec_pairs_key(r: GeoRecord, k: Seq<u8>)
    ensures
        gt_has_key(rec_pairs(r), k) == (norm_of(r.name@) == Some(k) || norm_of(r.ascii_name@)
            == Some(k)),
{
    let ps = rec_pairs(r);
    if norm_of(r.name@) == Some(k) {
        assert(ps[0].0 == k);
    }
    if norm_of(r.ascii_name@) == Some(k) {
        assert(ps[ps.len() - 1].0 == k);
    }
    if gt_has_key(ps, k) {
        let i = choose|i: int| 0 <= i < ps.len() && (#[trigger] ps[i]).0 == k;
        assert(ps[i].0 == k);
    }
}

/// Merges the alternate-name pairs into the posting map.
#[verifier::loop_isolation(false)]
pub fn merge_alt_pairs(map: &mut PostingMap, pairs: &Vec<(Vec<u8>, u32)>)
    requires
        old(map).wf(),
    ensures
        final(map).wf(),
        forall|k: Seq<u8>|
            final(map).spec_has_key(k) == (old(map).spec_has_key(k) || gt_has_key(
                pair_views(pairs@),
                k,
            )),
        forall|k: Seq<u8>, id: u32|
            final(map).spec_has(k, id) == (old(map).spec_has(k, id) || gt_has(
                pair_views(pairs@),
                k,
                id,
            )),
        forall|c: nat|
            old(map).bounded_lists(c) ==> #[trigger] final(map).bounded_lists((c + pairs@.len()) as nat),
{
    let ghost m0 = *map;
    let ghost pv = pair_views(pairs@);
    let mut i: usize = 0;
    proof {
        assert(pv.take(0) =~= Seq::<(Seq<u8>, u32)>::empty());
    }
    while i < pairs.len()
        invariant
            0 <= i <= pairs@.len(),
            map.wf(),
            pv == pair_views(pairs@),
            forall|k: Seq<u8>|
                map.spec_has_key(k) == (m0.spec_has_key(k) || gt_has_key(
                    pv.take(i as int),
                    k,
                )),
            forall|k: Seq<u8>, id: u32|
                map.spec_has(k, id) == (m0.spec_has(k, id) || gt_has(pv.take(i as int), k, id)),
            forall|c: nat| m0.bounded_lists(c) ==> #[trigger] map.bounded_lists((c + i) as nat),
        decreases pairs@.len() - i,
    {
        let key = vstd::slice::slice_to_vec(pairs[i].0.as_slice());
        let id = pairs[i].1;
        let ghost mpre = *map;
        proof {
            assert(forall|k: Seq<u8>, id2: u32|
                mpre.spec_has(k, id2) == (m0.spec_has(k, id2) || gt_has(
                    pv.take(i as int),
                    k,
                    id2,
                )));
            assert(forall|k: Seq<u8>|
                mpre.spec_has_key(k) == (m0.spec_has_key(k) || gt_has_key(
                    pv.take(i as int),
                    k,
                )));
            assert(pv[i as int] == (pairs@[i as int].0@, pairs@[i as int].1));
            assert(pv.take(i + 1) =~= pv.take(i as int) + seq![pv[i as int]]);
        }
        map.add(key, id);
        proof {
            let ghost single = seq![pv[i as int]];
            assert forall|k: Seq<u8>, id2: u32|
                map.spec_has(k, id2) == (m0.spec_has(k, id2) || gt_has(
                    pv.take(i + 1),
                    k,
                    id2,
                )) by {
                lemma_gt_concat(pv.take(i as int), single, k, id2);
                assert(map.spec_has(k, id2) == (mpre.spec_has(k, id2) || (k == key@ && id2
                    == id)));
                assert(gt_has(single, k, id2) == (k == key@ && id2 == id)) by {
                    if (k, id2) == (key@, id) {
                        assert(single[0] == (k, id2));
                    }
                    if gt_has(single, k, id2) {
                        let w = choose|w: int| 0 <= w < single.len() && single[w] == (k, id2);
                        assert(single[w] == (k, id2));
                    }
                }
            }
            assert forall|k: Seq<u8>|
                map.spec_has_key(k) == (m0.spec_has_key(k) || gt_has_key(pv.take(i + 1), k)) by {
                lemma_gt_concat(pv.take(i as int), single, k, 0u32);
                assert(map.spec_has_key(k) == (mpre.spec_has_key(k) || k == key@));
                assert(gt_has_key(single, k) == (k == key@)) by {
                    if k == key@ {
                        assert(single[0].0 == k);
                    }
                    if gt_has_key(single, k) {
                        let w = choose|w: int| 0 <= w < single.len() && (#[trigger] single[w]).0
                            == k;
                        assert(single[w].0 == k);
                    }
                }
            }
            assert forall|c: nat|
                m0.bounded_lists(c) implies #[trigger] map.bounded_lists((c + (i + 1)) as nat) by {
                assert(mpre.bounded_lists((c + i) as nat));
                assert(map.bounded_lists(((c + i) as nat) + 1));
            }
        }
        i += 1;
    }
    proof {
        assert(pv.len() == pairs@.len());
        assert(pv.take(pv.len() as int) =~= pv);
        assert(forall|k: Seq<u8>, id: u32|
            map.spec_has(k, id) == (m0.spec_has(k, id) || gt_has(pv, k, id)));
        assert(forall|k: Seq<u8>|
            map.spec_has_key(k) == (m0.spec_has_key(k) || gt_has_key(pv, k)));
    }
}


/// A posting record — varint byte length, then delta + varint ids — laid
/// down at `off` of a blob.
pub open spec fn posting_at(sec: Seq<u8>, off: int, ids: Seq<u32>) -> bool {
    let enc = delta_bytes(ids, 0);
    let lenb = varint_bytes(enc.len() as nat);
    &&& 0 <= off
    &&& off + lenb.len() + enc.len() <= sec.len()
    &&& enc.len() < 0x100000000
    &&& sec.subrange(off, off + lenb.len() as int) == lenb
    &&& sec.subrange(off + lenb.len() as int, off + lenb.len() + enc.len()) == enc
}

/// A record laid down at `off` of a blob.
pub open spec fn rec_at(sec: Seq<u8>, off: int, rv: RecView) -> bool {
    &&& 0 <= off
    &&& off + rec_bytes(rv).len() <= sec.len()
    &&& sec.subrange(off, off + rec_bytes(rv).len() as int) == rec_bytes(rv)
}

/// A subrange within the first part of a concatenation does not change.
pub proof fn lemma_subrange_stable(a: Seq<u8>, b: Seq<u8>, lo: int, hi: int)
    requires
        0 <= lo <= hi <= a.len(),
    ensures
        (a + b).subrange(lo, hi) == a.subrange(lo, hi),
{
    assert((a + b).subrange(lo, hi) =~= a.subrange(lo, hi));
}

/// The second part of a concatenation is the subrange after the first.
pub proof fn lemma_append_subrange(a: Seq<u8>, b: Seq<u8>)
    ensures
        (a + b).subrange(a.len() as int, (a.len() + b.len()) as int) == b,
{
    assert((a + b).subrange(a.len() as int, (a.len() + b.len()) as int) =~= b);
}

/// A posting laid down in a blob reads back as its ids.
pub proof fn lemma_posting_at_reads(sec: Seq<u8>, off: int, ids: Seq<u32>)
    requires
        posting_at(sec, off, ids),
        strictly_ascending(ids),
    ensures
        spec_read_postings(sec, off) == Ok::<Seq<u32>, GeoError>(ids),
{
    let enc = delta_bytes(ids, 0);
    let lenb = varint_bytes(enc.len() as nat);
    lemma_varint_bytes_len(enc.len() as nat);
    assert forall|i: int| 0 <= i < lenb.len() implies sec[off + i] == lenb[i] by {
        assert(sec.subrange(off, off + lenb.len() as int)[i] == sec[off + i]);
    }
    assert forall|i: int| 0 <= i < enc.len() implies sec[off + lenb.len() + i] == enc[i] by {
        assert(sec.subrange(off + lenb.len() as int, off + lenb.len() + enc.len())[i] == sec[off
            + lenb.len() + i]);
    }
    assert(sec.skip(off) =~= lenb + sec.skip(off + lenb.len() as int));
    lemma_varint_round_trip(enc.len() as nat, sec.skip(off + lenb.len() as int), 5);
    let p = varint_parse(sec.skip(off)).unwrap();
    assert(p.0 == enc.len() && p.1 == lenb.len() as int);
    assert(sec.subrange(off + p.1, off + p.1 + enc.len() as int) =~= enc);
    lemma_delta_round_trip(ids);
}

/// A pair list with distinct keys builds the map one expects: exactly those
/// keys, each mapped to its pair's value.
pub proof fn lemma_pairs_as_map_distinct(ps: Seq<(Seq<u8>, u64)>)
    requires
        forall|i: int, j: int|
            0 <= i < j < ps.len() ==> (#[trigger] ps[i]).0 != (#[trigger] ps[j]).0,
    ensures
        forall|k: Seq<u8>|
            pairs_as_map(ps).contains_key(k) == exists|i: int|
                0 <= i < ps.len() && (#[trigger] ps[i]).0 == k,
        forall|i: int|
            0 <= i < ps.len() ==> pairs_as_map(ps).contains_key((#[trigger] ps[i]).0)
                && pairs_as_map(ps)[ps[i].0] == ps[i].1,
    decreases ps.len(),
{
    if ps.len() > 0 {
        let head = ps.drop_last();
        assert(forall|i: int| 0 <= i < head.len() ==> head[i] == ps[i]);
        lemma_pairs_as_map_distinct(head);
        let m = pairs_as_map(ps);
        assert(m == pairs_as_map(head).insert(ps.last().0, ps.last().1));
        assert forall|k: Seq<u8>|
            m.contains_key(k) == exists|i: int| 0 <= i < ps.len() && (#[trigger] ps[i]).0
                == k by {
            if m.contains_key(k) {
                if k == ps.last().0 {
                    assert(ps[ps.len() - 1].0 == k);
                } else {
                    let w = choose|w: int| 0 <= w < head.len() && (#[trigger] head[w]).0 == k;
                    assert(ps[w].0 == k);
                }
            }
            if exists|i: int| 0 <= i < ps.len() && (#[trigger] ps[i]).0 == k {
                let w = choose|w: int| 0 <= w < ps.len() && (#[trigger] ps[w]).0 == k;
                if w < ps.len() - 1 {
                    assert(head[w].0 == k);
                    assert(pairs_as_map(head).contains_key(k));
                }
            }
        }
        assert forall|i: int|
            0 <= i < ps.len() implies pairs_as_map(ps).contains_key((#[trigger] ps[i]).0)
            && pairs_as_map(ps)[ps[i].0] == ps[i].1 by {
            if i < ps.len() - 1 {
                assert(head[i] == ps[i]);
                assert(ps[i].0 != ps.last().0);
            }
        }
    }
}

/// Serializes the postings blob and the FST over the map's keys: each key
/// is inserted, ascending, with the byte offset its posting list begins at.
/// Fails with `TooLarge` only when some encoded posting list cannot carry a
/// 32-bit length prefix.
pub fn build_postings_fst(map: &PostingMap) -> (r: Result<(Vec<u8>, Vec<u8>), GeoError>)
    requires
        map.wf(),
    ensures
        (r is Ok) == (forall|i: int|
            0 <= i < map.lists@.len() ==> delta_bytes((#[trigger] map.lists@[i])@, 0).len()
                < 0x100000000),
        r is Err ==> r == Err::<(Vec<u8>, Vec<u8>), GeoError>(GeoError::TooLarge),
        r matches Ok(p) ==> {
            let fstb = p.0@;
            let post = p.1@;
            &&& fst_is_valid(fstb)
            &&& forall|k: Seq<u8>| fst_denote(fstb).contains_key(k) == map.spec_has_key(k)
            &&& forall|i: int|
                0 <= i < map.keys@.len() ==> fst_denote(fstb).contains_key(
                    (#[trigger] map.keys@[i])@,
                ) && spec_read_postings(post, fst_denote(fstb)[map.keys@[i]@] as int)
                    == Ok::<Seq<u32>, GeoError>(map.lists@[i]@)
        },
{
    let n = map.len();
    let mut fstb = fst_builder_new();
    let mut postings: Vec<u8> = Vec::new();
    let ghost mut offsg: Seq<u64> = Seq::empty();
    let mut i: usize = 0;
    while i < n
        invariant
            0 <= i <= n,
            n == map.keys@.len(),
            map.wf(),
            offsg.len() == i,
            fst_builder_pairs(fstb).len() == i,
            forall|j: int|
                0 <= j < i ==> #[trigger] fst_builder_pairs(fstb)[j] == (
                    map.keys@[j]@,
                    offsg[j],
                ),
            forall|j: int|
                0 <= j < i ==> posting_at(postings@, #[trigger] offsg[j] as int, map.lists@[j]@),
            forall|j: int|
                0 <= j < i ==> delta_bytes((#[trigger] map.lists@[j])@, 0).len() < 0x100000000,
        decreases n - i,
    {
        let off: u64 = postings.len() as u64;
        let list = map.list_at(i);
        let enc = encode_delta_varints(list.as_slice());
        if (enc.len() as u64) >= 0x100000000u64 {
            return Err(GeoError::TooLarge);
        }
        let ghost p0 = postings@;
        let ghost lenb = varint_bytes(enc@.len() as nat);
        write_var_u32(&mut postings, enc.len() as u32);
        postings.extend_from_slice(enc.as_slice());
        proof {
            let s1 = p0 + lenb;
            assert(postings@ =~= s1 + enc@);
            lemma_append_subrange(p0, lenb);
            lemma_subrange_stable(s1, enc@, p0.len() as int, (p0.len() + lenb.len()) as int);
            lemma_append_subrange(s1, enc@);
            assert(posting_at(postings@, off as int, map.lists@[i as int]@));
            assert forall|j: int|
                0 <= j < i implies posting_at(
                postings@,
                #[trigger] offsg[j] as int,
                map.lists@[j]@,
            ) by {
                let ids = map.lists@[j]@;
                let e2 = delta_bytes(ids, 0);
                let l2 = varint_bytes(e2.len() as nat);
                lemma_subrange_stable(p0, lenb + enc@, offsg[j] as int, offsg[j] + l2.len());
                lemma_subrange_stable(
                    p0,
                    lenb + enc@,
                    offsg[j] + l2.len(),
                    offsg[j] + l2.len() + e2.len(),
                );
                assert(postings@ =~= p0 + (lenb + enc@));
            }
        }
        let key = map.key_at(i);
        let ghost fpre = fst_builder_pairs(fstb);
        let ok = fst_builder_insert(&mut fstb, key.as_slice(), off);
        proof {
            if i > 0 {
                assert(fpre.last() == (map.keys@[i - 1]@, offsg[i - 1]));
                assert(crate::posting::lex_lt(map.keys@[i - 1]@, map.keys@[i as int]@));
            }
            assert(ok);
            offsg = offsg.push(off);
        }
        i += 1;
    }
    let fst_bytes = fst_builder_finish(fstb);
    let ghost fpairs = fst_builder_pairs(fstb);
    proof {
        assert forall|a: int, b: int|
            0 <= a < b < fpairs.len() implies (#[trigger] fpairs[a]).0 != (
        #[trigger] fpairs[b]).0 by {
            lemma_lex_trichotomy(map.keys@[a]@, map.keys@[b]@);
        }
        lemma_pairs_as_map_distinct(fpairs);
        let km = fst_denote(fst_bytes@);
        assert forall|k: Seq<u8>| km.contains_key(k) == map.spec_has_key(k) by {
            if km.contains_key(k) {
                let w = choose|w: int| 0 <= w < fpairs.len() && (#[trigger] fpairs[w]).0 == k;
                assert(map.keys@[w]@ == k);
            }
            if map.spec_has_key(k) {
                let w = choose|w: int| 0 <= w < map.keys@.len() && (#[trigger] map.keys@[w])@
                    == k;
                assert(fpairs[w].0 == k);
            }
        }
        assert forall|j: int|
            0 <= j < map.keys@.len() implies km.contains_key((#[trigger] map.keys@[j])@) && km[
            map.keys@[j]@] == offsg[j] by {
            assert(fpairs[j] == (map.keys@[j]@, offsg[j]));
        }
        assert forall|j: int|
            0 <= j < map.keys@.len() implies spec_read_postings(
            postings@,
            km[(#[trigger] map.keys@[j])@] as int,
        ) == Ok::<Seq<u32>, GeoError>(map.lists@[j]@) by {
            lemma_posting_at_reads(postings@, offsg[j] as int, map.lists@[j]@);
        }
    }
    Ok((fst_bytes, postings))
}


/// Whether some position of `order` holds the index `x`.
pub open spec fn order_has(order: Seq<usize>, x: int) -> bool {
    exists|j: int| 0 <= j < order.len() && (#[trigger] order[j]) == x
}

/// Computes the order in which records serialize: their indices, sorted by
/// ascending id.  The result is a permutation of the record indices.
pub fn sort_order(records: &Vec<GeoRecord>) -> (order: Vec<usize>)
    requires
        forall|i: int, j: int|
            0 <= i < j < records@.len() ==> (#[trigger] records@[i]).id != (
            #[trigger] records@[j]).id,
    ensures
        order@.len() == records@.len(),
        forall|j: int| 0 <= j < order@.len() ==> (#[trigger] order@[j]) < records@.len(),
        forall|a: int, b: int|
            0 <= a < b < order@.len() ==> records@[order@[a] as int].id < records@[order@[b]
                as int].id,
        forall|ri: int| 0 <= ri < records@.len() ==> order_has(order@, ri),
{
    let mut order: Vec<usize> = Vec::new();
    let n = records.len();
    let mut ri: usize = 0;
    while ri < n
        invariant
            0 <= ri <= n,
            n == records@.len(),
            order@.len() == ri,
            forall|i: int, j: int|
                0 <= i < j < records@.len() ==> (#[trigger] records@[i]).id != (
                #[trigger] records@[j]).id,
            forall|j: int| 0 <= j < order@.len() ==> (#[trigger] order@[j]) < ri,
            forall|a: int, b: int|
                0 <= a < b < order@.len() ==> records@[order@[a] as int].id < records@[order@[b]
                    as int].id,
            forall|x: int| 0 <= x < ri ==> order_has(order@, x),
        decreases n - ri,
    {
        let id = records[ri].id;
        let mut lo: usize = 0;
        let mut hi: usize = ri;
        while lo < hi
            invariant
                0 <= lo <= hi <= ri,
                ri < n,
                n == records@.len(),
                order@.len() == ri,
                forall|j: int| 0 <= j < order@.len() ==> (#[trigger] order@[j]) < ri,
                forall|a: int, b: int|
                    0 <= a < b < order@.len() ==> records@[order@[a] as int].id
                        < records@[order@[b] as int].id,
                id == records@[ri as int].id,
                forall|j: int| 0 <= j < lo ==> records@[order@[j] as int].id < id,
                forall|j: int| hi <= j < ri ==> records@[order@[j] as int].id >= id,
            decreases hi - lo,
        {
            let mid = lo + (hi - lo) / 2;
            if records[order[mid]].id < id {
                lo = mid + 1;
            } else {
                hi = mid;
            }
        }
        let ghost opre = order@;
        order.insert(lo, ri);
        proof {
            let post = order@;
            assert(post == opre.insert(lo as int, ri as usize));
            assert(forall|j: int| 0 <= j < lo ==> post[j] == opre[j]);
            assert(post[lo as int] == ri as usize);
            assert(forall|j: int| lo < j < post.len() ==> post[j] == opre[j - 1]);
            assert forall|a: int, b: int|
                0 <= a < b < post.len() implies records@[post[a] as int].id < records@[post[b]
                as int].id by {
                if a < lo && b == lo {
                    assert(records@[opre[a] as int].id < id);
                } else if a == lo && b > lo {
                    assert(records@[opre[b - 1] as int].id >= id);
                    assert(opre[b - 1] < ri && opre[b - 1] != ri);
                    assert(records@[opre[b - 1] as int].id != id);
                } else if a < lo && b > lo {
                    assert(records@[opre[a] as int].id < id);
                    assert(records@[opre[b - 1] as int].id >= id);
                }
            }
            assert forall|x: int| 0 <= x < ri + 1 implies order_has(post, x) by {
                if x < ri {
                    assert(order_has(opre, x));
                    let w = choose|w: int| 0 <= w < opre.len() && (#[trigger] opre[w]) == x;
                    if w < lo {
                        assert(post[w] == x);
                    } else {
                        assert(post[w + 1] == x);
                    }
                } else {
                    assert(post[lo as int] == x);
                }
            }
        }
        ri += 1;
    }
    order
}

/// Serializes the records blob in `order`: each record's bytes appended,
/// with its id and byte offset collected for the offsets table.
pub fn build_records_blob(records: &Vec<GeoRecord>, order: &Vec<usize>) -> (r: (
    Vec<u8>,
    Vec<u32>,
    Vec<u64>,
))
    requires
        forall|i: int| 0 <= i < records@.len() ==> rec_fits((#[trigger] records@[i])@),
        forall|j: int| 0 <= j < order@.len() ==> (#[trigger] order@[j]) < records@.len(),
    ensures
        r.1@.len() == order@.len(),
        r.2@.len() == order@.len(),
        forall|j: int|
            0 <= j < order@.len() ==> (#[trigger] r.1@[j]) == records@[order@[j] as int].id,
        forall|j: int|
            0 <= j < order@.len() ==> rec_at(
                r.0@,
                (#[trigger] r.2@[j]) as int,
                records@[order@[j] as int]@,
            ),
{
    let mut blob: Vec<u8> = Vec::new();
    let mut ids: Vec<u32> = Vec::new();
    let mut offs: Vec<u64> = Vec::new();
    let mut j: usize = 0;
    while j < order.len()
        invariant
            0 <= j <= order@.len(),
            forall|i: int| 0 <= i < records@.len() ==> rec_fits((#[trigger] records@[i])@),
            forall|jj: int| 0 <= jj < order@.len() ==> (#[trigger] order@[jj]) < records@.len(),
            ids@.len() == j,
            offs@.len() == j,
            forall|jj: int|
                0 <= jj < j ==> (#[trigger] ids@[jj]) == records@[order@[jj] as int].id,
            forall|jj: int|
                0 <= jj < j ==> rec_at(
                    blob@,
                    (#[trigger] offs@[jj]) as int,
                    records@[order@[jj] as int]@,
                ),
        decreases order@.len() - j,
    {
        let ri = order[j];
        let off: u64 = blob.len() as u64;
        let ghost b0 = blob@;
        write_record(&mut blob, &records[ri]);
        ids.push(records[ri].id);
        offs.push(off);
        proof {
            let rb = rec_bytes(records@[ri as int]@);
            lemma_append_subrange(b0, rb);
            assert(rec_at(blob@, off as int, records@[ri as int]@));
            assert forall|jj: int|
                0 <= jj < j implies rec_at(
                blob@,
                (#[trigger] offs@[jj]) as int,
                records@[order@[jj] as int]@,
            ) by {
                let rv = records@[order@[jj] as int]@;
                lemma_subrange_stable(
                    b0,
                    rb,
                    offs@[jj] as int,
                    offs@[jj] + rec_bytes(rv).len(),
                );
            }
        }
        j += 1;
    }
    (blob, ids, offs)
}

/// Serializes the offsets table: the entry count, the ids, then the record
/// offsets, all little-endian.
pub fn build_offsets_blob(ids: &Vec<u32>, offs: &Vec<u64>) -> (r: Vec<u8>)
    requires
        ids@.len() == offs@.len(),
        ids@.len() < 0x100000000,
    ensures
        r@.len() == 4 + 12 * ids@.len(),
        otab_ok(r@),
        otab_n(r@) == ids@.len(),
        forall|j: int| 0 <= j < ids@.len() ==> otab_id(r@, j) == ids@[j],
        forall|j: int| 0 <= j < ids@.len() ==> otab_off(r@, j) == offs@[j],
{
    let n = ids.len();
    let mut blob: Vec<u8> = Vec::new();
    write_u32_le(&mut blob, n as u32);
    proof {
        lemma_u32_le_round_trip(n as u32, blob@, 0);
        assert(blob@.subrange(0, 4) =~= blob@);
    }
    let mut j: usize = 0;
    while j < n
        invariant
            0 <= j <= n,
            n == ids@.len(),
            ids@.len() == offs@.len(),
            n < 0x100000000,
            blob@.len() == 4 + 4 * j,
            le4_val(blob@, 0) == n,
            forall|jj: int|
                0 <= jj < j ==> blob@.subrange(4 + 4 * jj, 8 + 4 * jj) == u32_le_bytes(
                    #[trigger] ids@[jj],
                ),
        decreases n - j,
    {
        let ghost b0 = blob@;
        write_u32_le(&mut blob, ids[j]);
        proof {
            lemma_append_subrange(b0, u32_le_bytes(ids@[j as int]));
            assert(le4_val(blob@, 0) == n) by {
                assert(blob@.subrange(0, 4) =~= b0.subrange(0, 4));
                assert(forall|x: int| 0 <= x < 4 ==> blob@[x] == b0[x]);
            }
            assert forall|jj: int|
                0 <= jj < j + 1 implies blob@.subrange(4 + 4 * jj, 8 + 4 * jj) == u32_le_bytes(
                #[trigger] ids@[jj],
            ) by {
                if jj < j {
                    lemma_subrange_stable(
                        b0,
                        u32_le_bytes(ids@[j as int]),
                        4 + 4 * jj,
                        8 + 4 * jj,
                    );
                }
            }
        }
        j += 1;
    }
    let ghost idpart = blob@;
    let mut j2: usize = 0;
    while j2 < n
        invariant
            0 <= j2 <= n,
            n == ids@.len(),
            ids@.len() == offs@.len(),
            n < 0x100000000,
            idpart.len() == 4 + 4 * n,
            blob@.len() == 4 + 4 * n + 8 * j2,
            blob@.subrange(0, idpart.len() as int) == idpart,
            le4_val(idpart, 0) == n,
            forall|jj: int|
                0 <= jj < n ==> idpart.subrange(4 + 4 * jj, 8 + 4 * jj) == u32_le_bytes(
                    #[trigger] ids@[jj],
                ),
            forall|jj: int|
                0 <= jj < j2 ==> blob@.subrange(
                    4 + 4 * n + 8 * jj,
                    12 + 4 * n + 8 * jj,
                ) == u64_le_bytes(#[trigger] offs@[jj]),
        decreases n - j2,
    {
        let ghost b0 = blob@;
        write_u64_le(&mut blob, offs[j2]);
        proof {
            lemma_append_subrange(b0, u64_le_bytes(offs@[j2 as int]));
            lemma_subrange_stable(b0, u64_le_bytes(offs@[j2 as int]), 0, idpart.len() as int);
            assert forall|jj: int|
                0 <= jj < j2 + 1 implies blob@.subrange(
                4 + 4 * n + 8 * jj,
                12 + 4 * n + 8 * jj,
            ) == u64_le_bytes(#[trigger] offs@[jj]) by {
                if jj < j2 {
                    lemma_subrange_stable(
                        b0,
                        u64_le_bytes(offs@[j2 as int]),
                        4 + 4 * n + 8 * jj,
                        12 + 4 * n + 8 * jj,
                    );
                }
            }
        }
        j2 += 1;
    }
    proof {
        assert(le4_val(blob@, 0) == n) by {
            assert(forall|x: int| 0 <= x < 4 ==> blob@[x] == idpart[x]) by {
                assert(forall|x: int|
                    0 <= x < idpart.len() ==> blob@.subrange(0, idpart.len() as int)[x]
                        == blob@[x]);
            }
        }
        assert(otab_n(blob@) == n);
        assert(otab_ok(blob@));
        assert forall|j: int| 0 <= j < ids@.len() implies otab_id(blob@, j) == ids@[j] by {
            assert(blob@.subrange(4 + 4 * j, 8 + 4 * j) =~= idpart.subrange(4 + 4 * j, 8 + 4 * j))
                by {
                assert(forall|x: int|
                    0 <= x < idpart.len() ==> blob@.subrange(0, idpart.len() as int)[x]
                        == blob@[x]);
            }
            lemma_u32_le_round_trip(ids@[j], blob@, 4 + 4 * j);
        }
        assert forall|j: int| 0 <= j < ids@.len() implies otab_off(blob@, j) == offs@[j] by {
            lemma_u64_le_round_trip(offs@[j], blob@, 4 + 4 * n + 8 * j);
        }
    }
    blob
}


/// Some record of the build carries the id of the `j`-th offsets-table
/// entry, and that entry's offset holds the record's bytes.
pub open spec fn otab_entry_ok(b: Seq<u8>, recs: Seq<GeoRecord>, j: int) -> bool {
    exists|ri: int|
        0 <= ri < recs.len() && (#[trigger] recs[ri]).id == otab_id(offsets_sec(b), j) && rec_at(
            records_sec(b),
            otab_off(offsets_sec(b), j),
            recs[ri]@,
        )
}

/// Some offsets-table entry carries the id of record `ri`.
pub open spec fn otab_covers(b: Seq<u8>, recs: Seq<GeoRecord>, ri: int) -> bool {
    exists|j: int| 0 <= j < recs.len() && #[trigger] otab_id(offsets_sec(b), j) == recs[ri].id
}

/// How a serialized database relates to the posting map and records it was
/// built from: a sound header; an FST of exactly the map's keys, each
/// mapped to an offset whose posting record decodes to the key's list; an
/// offsets table of exactly the records' ids, ascending, each entry's
/// offset holding that id's record.
pub open spec fn db_matches(b: Seq<u8>, m: PostingMap, recs: Seq<GeoRecord>) -> bool {
    let km = fst_denote(fst_sec(b));
    let osec = offsets_sec(b);
    &&& open_err(b) is None
    &&& m.wf()
    &&& fst_is_valid(fst_sec(b))
    &&& forall|k: Seq<u8>| (#[trigger] km.contains_key(k)) == m.spec_has_key(k)
    &&& forall|i: int|
        0 <= i < m.keys@.len() ==> km.contains_key((#[trigger] m.keys@[i])@)
            && spec_read_postings(postings_sec(b), km[m.keys@[i]@] as int)
                == Ok::<Seq<u32>, GeoError>(m.lists@[i]@)
    &&& otab_ok(osec)
    &&& otab_n(osec) == recs.len()
    &&& forall|j1: int, j2: int|
        0 <= j1 < j2 < recs.len() ==> otab_id(osec, j1) < otab_id(osec, j2)
    &&& forall|j: int| 0 <= j < recs.len() ==> #[trigger] otab_entry_ok(b, recs, j)
    &&& forall|ri: int|
        0 <= ri < recs.len() ==> rec_wf((#[trigger] recs[ri])@) && otab_covers(b, recs, ri)
}

/// A database image assembled as header plus four sections opens soundly
/// and exposes exactly those sections.
/// The fields a 43-byte header carries.
#[verifier::rlimit(100)]
pub proof fn lemma_hdr_fields(h: Seq<u8>, l1: u64, l2: u64, l3: u64, l4: u64)
    requires
        h == magic_bytes() + u32_le_bytes(VERSION) + u64_le_bytes(l1) + u64_le_bytes(l2)
            + u64_le_bytes(l3) + u64_le_bytes(l4),
    ensures
        h.len() == 43,
        h.subrange(0, 7) == magic_bytes(),
        le4_val(h, 7) == VERSION,
        le8_val(h, 11) == l1,
        le8_val(h, 19) == l2,
        le8_val(h, 27) == l3,
        le8_val(h, 35) == l4,
{
    assert(h.subrange(0, 7) =~= magic_bytes());
    assert(h.subrange(7, 11) =~= u32_le_bytes(VERSION));
    assert(h.subrange(11, 19) =~= u64_le_bytes(l1));
    assert(h.subrange(19, 27) =~= u64_le_bytes(l2));
    assert(h.subrange(27, 35) =~= u64_le_bytes(l3));
    assert(h.subrange(35, 43) =~= u64_le_bytes(l4));
    lemma_u32_le_round_trip(VERSION, h, 7);
    lemma_u64_le_round_trip(l1, h, 11);
    lemma_u64_le_round_trip(l2, h, 19);
    lemma_u64_le_round_trip(l3, h, 27);
    lemma_u64_le_round_trip(l4, h, 35);
}

/// A database image assembled as header plus four sections opens soundly
/// and exposes exactly those sections.
#[verifier::rlimit(100)]
pub proof fn lemma_header_sections(
    b: Seq<u8>,
    hdr: Seq<u8>,
    s1: Seq<u8>,
    s2: Seq<u8>,
    s3: Seq<u8>,
    s4: Seq<u8>,
)
    requires
        b == hdr + s1 + s2 + s3 + s4,
        hdr.len() == 43,
        hdr.subrange(0, 7) == magic_bytes(),
        le4_val(hdr, 7) == VERSION,
        le8_val(hdr, 11) == s1.len(),
        le8_val(hdr, 19) == s2.len(),
        le8_val(hdr, 27) == s3.len(),
        le8_val(hdr, 35) == s4.len(),
    ensures
        open_err(b) is None,
        fst_sec(b) == s1,
        postings_sec(b) == s2,
        records_sec(b) == s3,
        offsets_sec(b) == s4,
{
    assert forall|i: int| 0 <= i < 43 implies b[i] == hdr[i] by {}
    assert(le4_val(b, 7) == le4_val(hdr, 7));
    assert(le8_val(b, 11) == le8_val(hdr, 11));
    assert(le8_val(b, 19) == le8_val(hdr, 19));
    assert(le8_val(b, 27) == le8_val(hdr, 27));
    assert(le8_val(b, 35) == le8_val(hdr, 35));
    assert(b.subrange(0, 7) =~= hdr.subrange(0, 7));
    assert(b.len() == 43 + s1.len() + s2.len() + s3.len() + s4.len());
    assert(open_err(b) is None);
    assert(fst_sec(b) =~= s1);
    assert(postings_sec(b) =~= s2);
    assert(records_sec(b) =~= s3);
    assert(offsets_sec(b) =~= s4);
}

/// The offsets-table side of `db_matches`, from the facts the serializers
/// establish.
#[verifier::rlimit(100)]
proof fn lemma_records_side(
    b: Seq<u8>,
    recs: Seq<GeoRecord>,
    order: Seq<usize>,
    ids: Seq<u32>,
    offs: Seq<u64>,
)
    requires
        otab_ok(offsets_sec(b)),
        otab_n(offsets_sec(b)) == recs.len(),
        ids.len() == recs.len(),
        offs.len() == recs.len(),
        order.len() == recs.len(),
        forall|j: int| 0 <= j < recs.len() ==> otab_id(offsets_sec(b), j) == ids[j],
        forall|j: int| 0 <= j < recs.len() ==> otab_off(offsets_sec(b), j) == offs[j],
        forall|j: int| 0 <= j < order.len() ==> (#[trigger] order[j]) < recs.len(),
        forall|a: int, c: int|
            0 <= a < c < order.len() ==> recs[order[a] as int].id < recs[order[c] as int].id,
        forall|ri: int| 0 <= ri < recs.len() ==> order_has(order, ri),
        forall|j: int| 0 <= j < recs.len() ==> (#[trigger] ids[j]) == recs[order[j] as int].id,
        forall|j: int|
            0 <= j < recs.len() ==> rec_at(
                records_sec(b),
                (#[trigger] offs[j]) as int,
                recs[order[j] as int]@,
            ),
        forall|ri: int| 0 <= ri < recs.len() ==> rec_wf((#[trigger] recs[ri])@),
    ensures
        forall|j1: int, j2: int|
            0 <= j1 < j2 < recs.len() ==> otab_id(offsets_sec(b), j1) < otab_id(
                offsets_sec(b),
                j2,
            ),
        forall|j: int| 0 <= j < recs.len() ==> #[trigger] otab_entry_ok(b, recs, j),
        forall|ri: int| 0 <= ri < recs.len() ==> otab_covers(b, recs, ri),
{
    assert forall|j1: int, j2: int|
        0 <= j1 < j2 < recs.len() implies otab_id(offsets_sec(b), j1) < otab_id(
        offsets_sec(b),
        j2,
    ) by {
        assert(otab_id(offsets_sec(b), j1) == ids[j1] && otab_id(offsets_sec(b), j2)
            == ids[j2]);
    }
    assert forall|j: int| 0 <= j < recs.len() implies #[trigger] otab_entry_ok(b, recs, j) by {
        let ri = order[j] as int;
        assert(0 <= ri < recs.len());
        assert(recs[ri].id == ids[j]);
        assert(otab_id(offsets_sec(b), j) == ids[j]);
        assert(otab_off(offsets_sec(b), j) == offs[j]);
        assert(rec_at(records_sec(b), offs[j] as int, recs[ri]@));
        assert(recs[ri].id == otab_id(offsets_sec(b), j) && rec_at(
            records_sec(b),
            otab_off(offsets_sec(b), j),
            recs[ri]@,
        ));
    }
    assert forall|ri: int| 0 <= ri < recs.len() implies otab_covers(b, recs, ri) by {
        assert(order_has(order, ri));
        let j = choose|j: int| 0 <= j < order.len() && (#[trigger] order[j]) == ri;
        assert(otab_id(offsets_sec(b), j) == ids[j]);
        assert(ids[j] == recs[ri].id);
    }
}

/// Serializes the database image: header, FST, postings blob, records
/// blob, offsets table.  Fails with `TooLarge` only when a posting list or
/// the record count cannot carry its 32-bit length field.
#[verifier::rlimit(100)]
#[verifier::spinoff_prover]
pub fn write_db(map: &PostingMap, records: Vec<GeoRecord>) -> (r: Result<Vec<u8>, GeoError>)
    requires
        map.wf(),
        forall|i: int| 0 <= i < records@.len() ==> rec_wf((#[trigger] records@[i])@),
        forall|i: int, j: int|
            0 <= i < j < records@.len() ==> (#[trigger] records@[i]).id != (
            #[trigger] records@[j]).id,
    ensures
        (r is Ok) == ((forall|i: int|
            0 <= i < map.lists@.len() ==> delta_bytes((#[trigger] map.lists@[i])@, 0).len()
                < 0x100000000) && records@.len() < 0x100000000),
        r is Err ==> r == Err::<Vec<u8>, GeoError>(GeoError::TooLarge),
        r matches Ok(file) ==> db_matches(file@, *map, records@),
{
    let (fst_bytes, postings) = match build_postings_fst(map) {
        Ok(p) => p,
        Err(e) => {
            return Err(e);
        },
    };
    if (records.len() as u64) >= 0x100000000u64 {
        return Err(GeoError::TooLarge);
    }
    let order = sort_order(&records);
    let (rblob, ids, offs) = build_records_blob(&records, &order);
    let oblob = build_offsets_blob(&ids, &offs);
    let mut hdr: Vec<u8> = Vec::new();
    hdr.push(71);
    hdr.push(69);
    hdr.push(79);
    hdr.push(68);
    hdr.push(66);
    hdr.push(49);
    hdr.push(0);
    proof {
        assert(hdr@ =~= magic_bytes());
    }
    write_u32_le(&mut hdr, VERSION);
    write_u64_le(&mut hdr, fst_bytes.len() as u64);
    write_u64_le(&mut hdr, postings.len() as u64);
    write_u64_le(&mut hdr, rblob.len() as u64);
    write_u64_le(&mut hdr, oblob.len() as u64);
    proof {
        lemma_hdr_fields(
            hdr@,
            fst_bytes@.len() as u64,
            postings@.len() as u64,
            rblob@.len() as u64,
            oblob@.len() as u64,
        );
    }
    let mut out: Vec<u8> = Vec::new();
    out.extend_from_slice(hdr.as_slice());
    proof {
        assert(out@ =~= hdr@);
    }
    out.extend_from_slice(fst_bytes.as_slice());
    proof {
        assert(out@ =~= hdr@ + fst_bytes@);
    }
    out.extend_from_slice(postings.as_slice());
    proof {
        assert(out@ =~= hdr@ + fst_bytes@ + postings@);
    }
    out.extend_from_slice(rblob.as_slice());
    proof {
        assert(out@ =~= hdr@ + fst_bytes@ + postings@ + rblob@);
    }
    out.extend_from_slice(oblob.as_slice());
    proof {
        assert(out@ =~= hdr@ + fst_bytes@ + postings@ + rblob@ + oblob@);
    }
    proof {
        let b = out@;
        lemma_header_sections(b, hdr@, fst_bytes@, postings@, rblob@, oblob@);
        lemma_records_side(b, records@, order@, ids@, offs@);
        assert(db_matches(b, *map, records@));
    }
    Ok(out)
}

/// Builds the serialized database from the admitted records and the
/// alternate-name pairs: seed the posting map from the records' names,
/// merge the pairs, serialize.  It fails with `EmptyAfterFilter` exactly
/// when no record was admitted, and otherwise only with `TooLarge`, which
/// cannot happen while twice the record count plus the pair count stays
/// within what a posting record's 32-bit length word can carry.
#[verifier::rlimit(100)]
#[verifier::spinoff_prover]
pub fn build_db_bytes(records: Vec<GeoRecord>, alt_pairs: Vec<(Vec<u8>, u32)>) -> (r: Result<
    Vec<u8>,
    GeoError,
>)
    requires
        forall|i: int| 0 <= i < records@.len() ==> rec_wf((#[trigger] records@[i])@),
        forall|i: int, j: int|
            0 <= i < j < records@.len() ==> (#[trigger] records@[i]).id != (
            #[trigger] records@[j]).id,
    ensures
        (r == Err::<Vec<u8>, GeoError>(GeoError::EmptyAfterFilter)) == (records@.len() == 0),
        r is Err ==> r == Err::<Vec<u8>, GeoError>(GeoError::EmptyAfterFilter) || r == Err::<
            Vec<u8>,
            GeoError,
        >(GeoError::TooLarge),
        (0 < records@.len() && 2 * records@.len() + alt_pairs@.len() <= 858993459) ==> r is Ok,
        r matches Ok(file) ==> exists|m: PostingMap|
            (#[trigger] db_matches(file@, m, records@)) && (forall|k: Seq<u8>|
                (#[trigger] m.spec_has_key(k)) == gt_has_key(all_pairs(records@, alt_pairs@), k))
                && (forall|k: Seq<u8>, id: u32|
                (#[trigger] m.spec_has(k, id)) == gt_has(all_pairs(records@, alt_pairs@), k, id)),
{
    let ghost recs0 = records@;
    if records.len() == 0 {
        return Err(GeoError::EmptyAfterFilter);
    }
    let mut map = PostingMap::new();
    proof {
        assert(map.bounded_lists(0));
    }
    seed_primary_keys(&mut map, &records);
    merge_alt_pairs(&mut map, &alt_pairs);
    proof {
        assert forall|k: Seq<u8>, id: u32|
            (#[trigger] map.spec_has(k, id)) == gt_has(all_pairs(records@, alt_pairs@), k, id) by {
            lemma_gt_concat(seed_pairs(records@), pair_views(alt_pairs@), k, id);
        }
        assert forall|k: Seq<u8>|
            (#[trigger] map.spec_has_key(k)) == gt_has_key(all_pairs(records@, alt_pairs@), k) by {
            lemma_gt_concat(seed_pairs(records@), pair_views(alt_pairs@), k, 0u32);
        }
        assert(map.bounded_lists(((0 + 2 * recs0.len()) as nat + alt_pairs@.len()) as nat));
        if 2 * recs0.len() + alt_pairs@.len() <= 858993459 {
            // every list stays short enough for its 32-bit length prefix
            assert forall|i: int|
                0 <= i < map.lists@.len() implies delta_bytes(
                (#[trigger] map.lists@[i])@,
                0,
            ).len() < 0x100000000 by {
                crate::codec::lemma_delta_bytes_len(map.lists@[i]@, 0);
                assert(map.lists@[i]@.len() <= 2 * recs0.len() + alt_pairs@.len());
            }
        }
    }
    match write_db(&map, records) {
        Ok(file) => {
            proof {
                assert(db_matches(file@, map, recs0));
            }
            Ok(file)
        },
        Err(e) => Err(e),
    }
}

/// Builds a database and answers one query on it: the verified end-to-end
/// path from admitted inputs to candidates.  The result is what an exact
/// query for `key` returns on the built image.
#[verifier::rlimit(100)]
#[verifier::spinoff_prover]
pub fn build_and_query(
    records: Vec<GeoRecord>,
    alt_pairs: Vec<(Vec<u8>, u32)>,
    key: &[u8],
    limit: usize,
) -> (r: Result<Vec<GeoRecord>, GeoError>)
    requires
        forall|i: int| 0 <= i < records@.len() ==> rec_wf((#[trigger] records@[i])@),
        forall|i: int, j: int|
            0 <= i < j < records@.len() ==> (#[trigger] records@[i]).id != (
            #[trigger] records@[j]).id,
    ensures
        records@.len() == 0 ==> r == Err::<Vec<GeoRecord>, GeoError>(GeoError::EmptyAfterFilter),
        r matches Ok(v) ==> exists|b: Seq<u8>, m: PostingMap|
            (#[trigger] db_matches(b, m, records@)) && (forall|k2: Seq<u8>|
                (#[trigger] m.spec_has_key(k2)) == gt_has_key(
                    all_pairs(records@, alt_pairs@),
                    k2,
                )) && (forall|k2: Seq<u8>, id2: u32|
                (#[trigger] m.spec_has(k2, id2)) == gt_has(
                    all_pairs(records@, alt_pairs@),
                    k2,
                    id2,
                )) && crate::query::spec_query(b, fst_denote(fst_sec(b)), key@, limit as int)
                == Ok::<Seq<RecView>, GeoError>(crate::query::rec_views(v@)),
{
    let ghost recs0 = records@;
    let ghost alts0 = alt_pairs@;
    let file = match build_db_bytes(records, alt_pairs) {
        Ok(f) => f,
        Err(e) => {
            return Err(e);
        },
    };
    let ghost fb = file@;
    let ghost m = choose|m: PostingMap|
        (#[trigger] db_matches(fb, m, recs0)) && (forall|k2: Seq<u8>|
            (#[trigger] m.spec_has_key(k2)) == gt_has_key(all_pairs(recs0, alts0), k2)) && (
        forall|k2: Seq<u8>, id2: u32|
            (#[trigger] m.spec_has(k2, id2)) == gt_has(all_pairs(recs0, alts0), k2, id2));
    let db = match crate::db::open_db(file) {
        Ok(d) => d,
        Err(_) => {
            proof {
                assert(false);
            }
            return Err(GeoError::Corrupt);
        },
    };
    let fstm = match crate::query::load_fst(&db) {
        Ok(fm) => fm,
        Err(_) => {
            proof {
                assert(fst_is_valid(fst_sec(db.bytes@)));
                assert(false);
            }
            return Err(GeoError::Corrupt);
        },
    };
    crate::query::query_exact(&db, &fstm, key, limit)
}


/// The records that survive deduplication by id: each record whose id no
/// earlier record carries, in their original order.
pub open spec fn dedup_spec(recs: Seq<GeoRecord>) -> Seq<GeoRecord>
    decreases recs.len(),
{
    if recs.len() == 0 {
        Seq::empty()
    } else {
        let head = dedup_spec(recs.drop_last());
        if exists|j: int| 0 <= j < recs.len() - 1 && (#[trigger] recs[j]).id == recs.last().id {
            head
        } else {
            head.push(recs.last())
        }
    }
}

/// Drops every record whose id an earlier record already carries, keeping
/// first occurrences: the result has pairwise distinct ids, each element a
/// record of the input, and is what the build's unique-id precondition
/// asks for.
#[verifier::rlimit(100)]
pub fn dedup_records_by_id(records: Vec<GeoRecord>) -> (r: Vec<GeoRecord>)
    ensures
        r@ == dedup_spec(records@),
        forall|i1: int, i2: int|
            0 <= i1 < i2 < r@.len() ==> (#[trigger] r@[i1]).id != (#[trigger] r@[i2]).id,
        forall|i: int|
            0 <= i < r@.len() ==> exists|j: int|
                0 <= j < records@.len() && #[trigger] r@[i] == #[trigger] records@[j],
{
    let ghost recs0 = records@;
    let mut stack: Vec<GeoRecord> = Vec::new();
    let mut src = records;
    proof {
        assert(src@ =~= recs0.subrange(0, src@.len() as int));
    }
    while src.len() > 0
        invariant
            src@ == recs0.subrange(0, src@.len() as int),
            src@.len() + stack@.len() == recs0.len(),
            forall|i: int|
                0 <= i < stack@.len() ==> #[trigger] stack@[i] == recs0[recs0.len() - 1 - i],
        decreases src@.len(),
    {
        let ghost spre = src@;
        let x = src.pop().unwrap();
        stack.push(x);
        proof {
            assert(src@ =~= recs0.subrange(0, src@.len() as int));
        }
    }
    let mut out: Vec<GeoRecord> = Vec::new();
    let mut seen = IdSet::new();
    let mut k: usize = 0;
    let total = stack.len();
    proof {
        assert(recs0.take(0) =~= Seq::<GeoRecord>::empty());
        assert(recs0.len() == total);
    }
    while stack.len() > 0
        invariant
            recs0.len() <= usize::MAX,
            k + stack@.len() == recs0.len(),
            forall|i: int|
                0 <= i < stack@.len() ==> #[trigger] stack@[i] == recs0[recs0.len() - 1 - i],
            seen.wf(),
            forall|x: u32|
                seen.spec_has(x) == exists|j: int| 0 <= j < k && (#[trigger] recs0[j]).id == x,
            out@ == dedup_spec(recs0.take(k as int)),
            forall|i: int| 0 <= i < out@.len() ==> seen.spec_has((#[trigger] out@[i]).id),
            forall|i1: int, i2: int|
                0 <= i1 < i2 < out@.len() ==> (#[trigger] out@[i1]).id != (#[trigger] out@[i2]).id,
            forall|i: int|
                0 <= i < out@.len() ==> exists|j: int|
                    0 <= j < k && #[trigger] out@[i] == #[trigger] recs0[j],
        decreases stack@.len(),
    {
        let x = stack.pop().unwrap();
        proof {
            assert(x == recs0[k as int]);
        }
        let rid = x.id;
        let dup = seen.contains(rid);
        let ghost outpre = out@;
        let ghost seenpre = seen;
        if !dup {
            out.push(x);
        }
        seen.insert(rid);
        proof {
            let t = recs0.take(k + 1);
            assert(t.drop_last() =~= recs0.take(k as int));
            assert(t.last() == recs0[k as int]);
            assert((exists|j: int| 0 <= j < t.len() - 1 && (#[trigger] t[j]).id == t.last().id)
                == dup) by {
                if exists|j: int| 0 <= j < t.len() - 1 && (#[trigger] t[j]).id == t.last().id {
                    let w = choose|w: int|
                        0 <= w < t.len() - 1 && (#[trigger] t[w]).id == t.last().id;
                    assert(recs0[w].id == rid);
                    assert(seenpre.spec_has(rid));
                }
                if dup {
                    let w = choose|w: int| 0 <= w < k && (#[trigger] recs0[w]).id == rid;
                    assert(t[w].id == t.last().id);
                }
            }
            assert(out@ == dedup_spec(recs0.take(k + 1)));
            assert forall|x2: u32|
                seen.spec_has(x2) == exists|j: int|
                    0 <= j < k + 1 && (#[trigger] recs0[j]).id == x2 by {
                if seen.spec_has(x2) {
                    if seenpre.spec_has(x2) {
                        let w = choose|w: int| 0 <= w < k && (#[trigger] recs0[w]).id == x2;
                        assert(recs0[w].id == x2);
                    } else {
                        assert(recs0[k as int].id == x2);
                    }
                }
                if exists|j: int| 0 <= j < k + 1 && (#[trigger] recs0[j]).id == x2 {
                    let w = choose|w: int| 0 <= w < k + 1 && (#[trigger] recs0[w]).id == x2;
                    if w < k {
                        assert(seenpre.spec_has(x2));
                    }
                }
            }
            if !dup {
                assert(forall|i: int| 0 <= i < outpre.len() ==> out@[i] == outpre[i]);
                assert(out@[out@.len() - 1] == recs0[k as int]);
                assert forall|i1: int, i2: int|
                    0 <= i1 < i2 < out@.len() implies (#[trigger] out@[i1]).id != (
                #[trigger] out@[i2]).id by {
                    if i2 == out@.len() - 1 {
                        assert(seenpre.spec_has(outpre[i1].id));
                        assert(!seenpre.spec_has(rid));
                    }
                }
            }
        }
        k += 1;
    }
    proof {
        assert(recs0.take(recs0.len() as int) =~= recs0);
    }
    out
}

} // verus!