//! Tabular line parsers.
//!
//! The build consumes two tab-separated inputs: the place table, whose lines
//! carry at least 15 columns, and the alternate-name table, whose lines
//! carry at least 4.  Lines that fail a structural or numeric parse are
//! dropped, not fatal; a population that fails to parse counts as 0.

use vstd::prelude::*;

verus! {

use vstd::slice::slice_subrange;
use vstd::slice::slice_to_vec;
use vstd::utf8::valid_utf8;
use crate::err::GeoError;
use crate::posting::IdSet;
use crate::record::GeoRecord;
use crate::record::rec_wf;
use crate::unicode::check_utf8;
use crate::unicode::norm_key;
use crate::unicode::norm_of;

/// Position of the first tab of `b` at or after `i`, or the length when no
/// tab is left.
pub open spec fn first_tab_from(b: Seq<u8>, i: int) -> int
    decreases b.len() - i,
{
    if i < 0 || i >= b.len() {
        b.len() as int
    } else if b[i] == 9 {
        i
    } else {
        first_tab_from(b, i + 1)
    }
}

/// The tab-separated fields of `b`, starting at `i`.
pub open spec fn tab_split_from(b: Seq<u8>, i: int) -> Seq<Seq<u8>>
    decreases b.len() - i,
{
    let j = first_tab_from(b, i);
    if j >= b.len() || j < i {
        seq![b.subrange(if 0 <= i <= b.len() { i } else { 0 }, b.len() as int)]
    } else {
        seq![b.subrange(i, j)] + tab_split_from(b, j + 1)
    }
}

/// The tab-separated fields of `b`.
pub open spec fn tab_split(b: Seq<u8>) -> Seq<Seq<u8>> {
    tab_split_from(b, 0)
}

proof fn lemma_first_tab_bounds(b: Seq<u8>, i: int)
    requires
        0 <= i <= b.len(),
    ensures
        i <= first_tab_from(b, i) <= b.len(),
        forall|k: int| i <= k < first_tab_from(b, i) ==> b[k] != 9,
        first_tab_from(b, i) < b.len() ==> b[first_tab_from(b, i)] == 9,
    decreases b.len() - i,
{
    if i < b.len() && b[i] != 9 {
        lemma_first_tab_bounds(b, i + 1);
    }
}

/// Every field is at most as long as the line.
pub proof fn lemma_tab_split_field_len(b: Seq<u8>, i: int)
    requires
        0 <= i <= b.len(),
    ensures
        forall|k: int|
            0 <= k < tab_split_from(b, i).len() ==> (#[trigger] tab_split_from(b, i)[k]).len()
                <= b.len(),
    decreases b.len() - i,
{
    lemma_first_tab_bounds(b, i);
    let j = first_tab_from(b, i);
    if !(j >= b.len() || j < i) {
        lemma_tab_split_field_len(b, j + 1);
        assert(forall|k: int|
            1 <= k < tab_split_from(b, i).len() ==> tab_split_from(b, i)[k] == tab_split_from(
                b,
                j + 1,
            )[k - 1]);
    }
}

/// The views of a vector of byte vectors.
pub open spec fn views_of(v: Seq<Vec<u8>>) -> Seq<Seq<u8>> {
    v.map_values(|x: Vec<u8>| x@)
}

/// Splits a line at its tabs.
pub fn split_tabs(b: &[u8]) -> (r: Vec<Vec<u8>>)
    ensures
        r@.len() == tab_split(b@).len(),
        forall|i: int| 0 <= i < r@.len() ==> (#[trigger] r@[i])@ == tab_split(b@)[i],
{
    let mut r: Vec<Vec<u8>> = Vec::new();
    let mut start: usize = 0;
    let ghost whole = tab_split(b@);
    loop
        invariant
            0 <= start <= b@.len(),
            whole == tab_split(b@),
            forall|i: int| 0 <= i < r@.len() ==> (#[trigger] r@[i])@ == whole[i],
            whole =~= views_of(r@) + tab_split_from(b@, start as int),
            whole.len() == r@.len() + tab_split_from(b@, start as int).len(),
        decreases b@.len() - start,
    {
        let mut j = start;
        while j < b.len() && b[j] != 9
            invariant
                start <= j <= b@.len(),
                forall|k: int| start <= k < j ==> b@[k] != 9,
            decreases b@.len() - j,
        {
            j += 1;
        }
        proof {
            lemma_first_tab_bounds(b@, start as int);
            assert(first_tab_from(b@, start as int) == j) by {
                if first_tab_from(b@, start as int) < j {
                    assert(b@[first_tab_from(b@, start as int)] != 9);
                }
                if first_tab_from(b@, start as int) > j {
                    assert(j < b@.len() && b@[j as int] == 9);
                }
            }
        }
        let f = slice_subrange(b, start, j);
        let ghost rpre = r@;
        r.push(slice_to_vec(f));
        proof {
            assert(views_of(r@) =~= views_of(rpre).push(
                b@.subrange(start as int, j as int)));
        }
        if j == b.len() {
            proof {
                assert(tab_split_from(b@, start as int) =~= seq![
                    b@.subrange(start as int, b@.len() as int),
                ]);
                assert(whole =~= views_of(r@));
                assert(whole == views_of(r@));
                assert forall|i: int| 0 <= i < r@.len() implies (#[trigger] r@[i])@
                    == tab_split(b@)[i] by {
                    assert(views_of(r@)[i] == r@[i]@);
                }
            }
            return r;
        }
        proof {
            assert(tab_split_from(b@, start as int) =~= seq![
                b@.subrange(start as int, j as int),
            ] + tab_split_from(b@, j + 1));
        }
        start = j + 1;
    }
}

/// Whether `s` is one or more decimal digits.
pub open spec fn is_digits(s: Seq<u8>) -> bool {
    s.len() > 0 && forall|i: int| 0 <= i < s.len() ==> 48 <= #[trigger] s[i] <= 57
}

/// The decimal value of a digit string, most significant digit first.
pub open spec fn dec_val(s: Seq<u8>) -> nat
    decreases s.len(),
{
    if s.len() == 0 {
        0
    } else {
        dec_val(s.take(s.len() - 1)) * 10 + (if s[s.len() - 1] >= 48 {
            (s[s.len() - 1] - 48) as nat
        } else {
            0
        })
    }
}

/// What `str::parse::<u32>` accepts of these inputs: an optional leading
/// `+`, then decimal digits whose value fits 32 bits.
pub open spec fn parse_u32_spec(b: Seq<u8>) -> Option<u32> {
    let d = if b.len() > 0 && b[0] == 43 {
        b.skip(1)
    } else {
        b
    };
    if is_digits(d) && dec_val(d) < 0x100000000 {
        Some(dec_val(d) as u32)
    } else {
        None
    }
}

/// A digit prefix never exceeds the whole digit string in value.
proof fn lemma_dec_val_prefix(s: Seq<u8>, k: int)
    requires
        0 <= k <= s.len(),
    ensures
        dec_val(s.take(k)) <= dec_val(s),
    decreases s.len() - k,
{
    if k < s.len() {
        lemma_dec_val_prefix(s, k + 1);
        let t = s.take(k + 1);
        assert(t.take(k) =~= s.take(k));
        assert(dec_val(t) == dec_val(s.take(k)) * 10 + (if t[k] >= 48 {
            (t[k] - 48) as nat
        } else {
            0
        }));
        assert(dec_val(s.take(k)) <= dec_val(s.take(k)) * 10) by (nonlinear_arith);
    } else {
        assert(s.take(k) =~= s);
    }
}

/// Parses a decimal `u32` with an optional leading `+`.
pub fn parse_u32_dec(b: &[u8]) -> (r: Option<u32>)
    ensures
        r == parse_u32_spec(b@),
{
    let s0: usize = if b.len() > 0 && b[0] == 43 {
        1
    } else {
        0
    };
    let ghost d = if b@.len() > 0 && b@[0] == 43 {
        b@.skip(1)
    } else {
        b@
    };
    proof {
        assert(forall|k: int| 0 <= k < d.len() ==> d[k] == b@[k + s0]);
    }
    if s0 == b.len() {
        return None;
    }
    let mut acc: u64 = 0;
    let mut i: usize = s0;
    proof {
        assert(d.take(0) =~= Seq::<u8>::empty());
    }
    while i < b.len()
        invariant
            s0 <= i <= b@.len(),
            s0 <= 1,
            s0 < b@.len(),
            (s0 == 1) == (b@.len() > 0 && b@[0] == 43),
            d == (if b@.len() > 0 && b@[0] == 43 {
                b@.skip(1)
            } else {
                b@
            }),
            d.len() == b@.len() - s0,
            forall|k: int| 0 <= k < d.len() ==> d[k] == b@[k + s0],
            forall|k: int| 0 <= k < i - s0 ==> 48 <= #[trigger] d[k] <= 57,
            acc == dec_val(d.take(i - s0)),
            acc < 0x100000000,
        decreases b@.len() - i,
    {
        let c = b[i];
        if c < 48 || c > 57 {
            proof {
                assert(d[i - s0] == c);
                assert(!is_digits(d));
            }
            return None;
        }
        proof {
            let t = d.take(i - s0 + 1);
            assert(t.take(i - s0) =~= d.take(i - s0));
            assert(t[i - s0] == c);
            assert(dec_val(t) == dec_val(d.take(i - s0)) * 10 + (c - 48));
        }
        acc = acc * 10 + ((c - 48) as u64);
        i += 1;
        if acc >= 0x100000000 {
            proof {
                lemma_dec_val_prefix(d, i - s0);
                assert(d.take(d.len() as int) =~= d);
            }
            return None;
        }
    }
    proof {
        assert(d.take(d.len() as int) =~= d);
        assert(is_digits(d));
    }
    Some(acc as u32)
}

/// The effective population of the population column: its parsed value, or
/// 0 when it does not parse.
pub open spec fn pop_of(c: Seq<u8>) -> u32 {
    match parse_u32_spec(c) {
        Some(p) => p,
        None => 0,
    }
}

/// Whether a place line is admitted: enough columns, a parseable id, stored
/// string fields in UTF-8, and an effective population that passes the
/// filter.  (Latitude and longitude parsing is the caller's, and can still
/// drop the line.)
pub open spec fn all_line_admitted(line: Seq<u8>, min_pop: u32) -> bool {
    let cols = tab_split(line);
    &&& line.len() < 0x100000000
    &&& cols.len() >= 15
    &&& parse_u32_spec(cols[0]) is Some
    &&& valid_utf8(cols[1])
    &&& valid_utf8(cols[2])
    &&& valid_utf8(cols[7])
    &&& valid_utf8(cols[8])
    &&& valid_utf8(cols[10])
    &&& valid_utf8(cols[11])
    &&& pop_of(cols[14]) >= min_pop
}

/// The record an admitted place line parses to, its latitude and longitude
/// bits still zero.
pub open spec fn all_line_record(line: Seq<u8>) -> crate::record::RecView {
    let cols = tab_split(line);
    crate::record::RecView {
        id: parse_u32_spec(cols[0]).unwrap(),
        lat_bits: 0,
        lon_bits: 0,
        population: pop_of(cols[14]),
        feat_class: if cols[6].len() > 0 {
            cols[6][0]
        } else {
            63
        },
        name: cols[1],
        country: cols[8],
        admin1: cols[10],
        admin2: cols[11],
        feat_code: cols[7],
    }
}

/// Parses one place line into a record plus the raw latitude and longitude
/// columns, which the caller converts (and may still reject).  A line with
/// too few columns, an unparseable id, a non-UTF-8 stored field, or a
/// population below the filter is dropped with `LineSkipped`.
pub fn parse_allcountries_line(line: &[u8], min_pop: u32) -> (r: Result<
    (GeoRecord, Vec<u8>, Vec<u8>),
    GeoError,
>)
    ensures
        all_line_admitted(line@, min_pop) ==> (r matches Ok(t) && {
            let cols = tab_split(line@);
            &&& t.0@ == all_line_record(line@)
            &&& t.0.ascii_name@ == cols[2]
            &&& t.1@ == cols[4]
            &&& t.2@ == cols[5]
            &&& rec_wf(t.0@)
        }),
        !all_line_admitted(line@, min_pop) ==> r == Err::<(GeoRecord, Vec<u8>, Vec<u8>),
            GeoError,
        >(GeoError::LineSkipped),
{
    if (line.len() as u64) >= 0x100000000u64 {
        return Err(GeoError::LineSkipped);
    }
    let cols = split_tabs(line);
    if cols.len() < 15 {
        return Err(GeoError::LineSkipped);
    }
    proof {
        lemma_tab_split_field_len(line@, 0);
    }
    let id = match parse_u32_dec(cols[0].as_slice()) {
        Some(v) => v,
        None => {
            return Err(GeoError::LineSkipped);
        },
    };
    let population = match parse_u32_dec(cols[14].as_slice()) {
        Some(v) => v,
        None => 0,
    };
    if population < min_pop {
        return Err(GeoError::LineSkipped);
    }
    if !check_utf8(cols[1].as_slice()) || !check_utf8(cols[2].as_slice()) || !check_utf8(
        cols[7].as_slice(),
    ) || !check_utf8(cols[8].as_slice()) || !check_utf8(cols[10].as_slice()) || !check_utf8(
        cols[11].as_slice(),
    ) {
        return Err(GeoError::LineSkipped);
    }
    let feat_class: u8 = if cols[6].len() > 0 {
        cols[6][0]
    } else {
        63
    };
    let rec = GeoRecord {
        id,
        name: slice_to_vec(cols[1].as_slice()),
        ascii_name: slice_to_vec(cols[2].as_slice()),
        country: slice_to_vec(cols[8].as_slice()),
        admin1: slice_to_vec(cols[10].as_slice()),
        admin2: slice_to_vec(cols[11].as_slice()),
        lat_bits: 0,
        lon_bits: 0,
        feat_class,
        feat_code: slice_to_vec(cols[7].as_slice()),
        population,
    };
    let lat_s = slice_to_vec(cols[4].as_slice());
    let lon_s = slice_to_vec(cols[5].as_slice());
    Ok((rec, lat_s, lon_s))
}

/// Whether an alternate-name line emits a pair: enough columns, a parseable
/// place id that the build admitted, and a name that survives
/// normalization.
pub open spec fn alt_line_admitted(line: Seq<u8>, ids: IdSet) -> bool {
    let cols = tab_split(line);
    &&& cols.len() >= 4
    &&& parse_u32_spec(cols[1]) is Some
    &&& ids.spec_has(parse_u32_spec(cols[1]).unwrap())
    &&& norm_of(cols[3]) is Some
}

/// Parses one alternate-name line into its normalized key and place id, or
/// nothing when the line has too few columns, an unparseable or unadmitted
/// id, or a name that normalizes to nothing.
pub fn parse_alt_pair(line: &[u8], ids: &IdSet) -> (r: Option<(Vec<u8>, u32)>)
    requires
        ids.wf(),
    ensures
        alt_line_admitted(line@, *ids) ==> (r matches Some(p) && {
            let cols = tab_split(line@);
            &&& p.0@ == norm_of(cols[3]).unwrap()
            &&& p.1 == parse_u32_spec(cols[1]).unwrap()
        }),
        !alt_line_admitted(line@, *ids) ==> r is None,
{
    let cols = split_tabs(line);
    if cols.len() < 4 {
        return None;
    }
    let gid = match parse_u32_dec(cols[1].as_slice()) {
        Some(v) => v,
        None => {
            return None;
        },
    };
    if !ids.contains(gid) {
        return None;
    }
    match norm_key(cols[3].as_slice()) {
        Some(k) => Some((k, gid)),
        None => None,
    }
}

} // verus!
