//! Trusted bridge to the `fst` crate.
//!
//! The database's key index is a finite-state-transducer map from byte keys
//! to 64-bit postings offsets.  The build writes one through
//! `fst::MapBuilder`, which demands strictly ascending byte-ordered keys;
//! the reader loads the serialized bytes through `fst::Map` and looks keys
//! up exactly.  The contracts below say no more than the crate's source
//! shows; everything that uses them is verified against these names.

use vstd::prelude::*;

verus! {

use crate::posting::lex_lt;

#[verifier::external_type_specification]
#[verifier::external_body]
#[verifier::reject_recursive_types(D)]
pub struct ExFstMap<D>(fst::Map<D>);

#[verifier::external_type_specification]
#[verifier::external_body]
#[verifier::reject_recursive_types(W)]
pub struct ExFstMapBuilder<W>(fst::MapBuilder<W>);

#[verifier::external_type_specification]
#[verifier::external_body]
pub struct ExFstError(fst::Error);

/// The key → value pairs a builder has accepted so far, in insertion order.
pub uninterp spec fn fst_builder_pairs(b: fst::MapBuilder<Vec<u8>>) -> Seq<(Seq<u8>, u64)>;

/// Whether a byte blob is a serialized map that loads and reads back.
pub uninterp spec fn fst_is_valid(bytes: Seq<u8>) -> bool;

/// The key → value map a serialized blob denotes.
pub uninterp spec fn fst_denote(bytes: Seq<u8>) -> Map<Seq<u8>, u64>;

/// The contents of a loaded map.
pub uninterp spec fn fst_map_view(m: fst::Map<Vec<u8>>) -> Map<Seq<u8>, u64>;

/// Whether `fst::Map::new` accepts a byte blob: its shallow format check
/// is a deterministic function of the bytes alone.
pub uninterp spec fn fst_loadable(bytes: Seq<u8>) -> bool;

/// Whether a loaded map came from a well-formed blob, so that lookups on
/// it return normally.  `Map::new`'s check is shallow: bytes that pass it
/// without being a real serialized map yield a map whose lookups may
/// panic, which this predicate excludes.
pub uninterp spec fn fst_map_wf(m: fst::Map<Vec<u8>>) -> bool;

/// Relies on `fst::MapBuilder::new`: a builder over a fresh in-memory
/// buffer starts with no pairs; writing to a `Vec` cannot fail.
#[verifier::external_body]
pub(crate) fn fst_builder_new() -> (r: fst::MapBuilder<Vec<u8>>)
    ensures
        fst_builder_pairs(r) == Seq::<(Seq<u8>, u64)>::empty(),
{
    fst::MapBuilder::new(Vec::new()).expect("writing to a Vec cannot fail")
}

/// Relies on `fst::MapBuilder::insert`: a key strictly greater in byte
/// order than every key inserted before is accepted and recorded; an equal
/// or smaller key is refused and leaves the builder as it was.  Writing to
/// a `Vec` cannot fail.
#[verifier::external_body]
pub(crate) fn fst_builder_insert(b: &mut fst::MapBuilder<Vec<u8>>, key: &[u8], val: u64) -> (r: bool)
    ensures
        r == (fst_builder_pairs(*old(b)).len() == 0 || lex_lt(
            fst_builder_pairs(*old(b)).last().0,
            key@,
        )),
        r ==> fst_builder_pairs(*final(b)) == fst_builder_pairs(*old(b)).push((key@, val)),
        !r ==> fst_builder_pairs(*final(b)) == fst_builder_pairs(*old(b)),
{
    b.insert(key, val).is_ok()
}

/// The map that a pair sequence builds: later pairs win, though the builder
/// only ever accepts distinct ascending keys.
pub open spec fn pairs_as_map(ps: Seq<(Seq<u8>, u64)>) -> Map<Seq<u8>, u64>
    decreases ps.len(),
{
    if ps.len() == 0 {
        Map::empty()
    } else {
        pairs_as_map(ps.drop_last()).insert(ps.last().0, ps.last().1)
    }
}

/// Relies on `fst::MapBuilder::into_inner`: it serializes the accepted
/// pairs into the buffer, and the bytes load back to exactly those pairs.
/// Writing to a `Vec` cannot fail.
#[verifier::external_body]
pub(crate) fn fst_builder_finish(b: fst::MapBuilder<Vec<u8>>) -> (r: Vec<u8>)
    ensures
        fst_is_valid(r@),
        fst_denote(r@) == pairs_as_map(fst_builder_pairs(b)),
{
    b.into_inner().expect("writing to a Vec cannot fail")
}

/// Relies on `fst::Map::new`: its acceptance is a deterministic check of
/// the bytes, every well-formed serialized map passes it, and a
/// well-formed blob loads to its contents.
#[verifier::external_body]
pub(crate) fn fst_map_new(bytes: Vec<u8>) -> (r: Result<fst::Map<Vec<u8>>, fst::Error>)
    ensures
        (r is Ok) == fst_loadable(bytes@),
        fst_is_valid(bytes@) ==> r is Ok,
        r matches Ok(m) ==> (fst_is_valid(bytes@) ==> fst_map_wf(m) && fst_map_view(m)
            == fst_denote(bytes@)),
{
    fst::Map::new(bytes)
}

/// Relies on `fst::Map::get`: on a map loaded from a well-formed blob, the
/// value stored under the key, or nothing when the key is absent.  On a
/// map whose backing bytes merely passed `Map::new`'s shallow check, `get`
/// may panic, so such maps are excluded.
#[verifier::external_body]
pub(crate) fn fst_map_get(m: &fst::Map<Vec<u8>>, key: &[u8]) -> (r: Option<u64>)
    requires
        fst_map_wf(*m),
    ensures
        r matches Some(v) ==> fst_map_view(*m).contains_key(key@) && v == fst_map_view(*m)[key@],
        r is None ==> !fst_map_view(*m).contains_key(key@),
{
    m.get(key)
}

} // verus!
