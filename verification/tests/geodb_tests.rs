// End-to-end and unit tests for the geodb library: codecs, parsers, the
// build pipeline, the reader and the query path, against the real fst crate.

use geodb::decode_delta_varints;
use geodb::encode_delta_varints;
use geodb::build_and_query;
use geodb::build_db_bytes;
use geodb::dedup_records_by_id;
use geodb::collect_ids;
use geodb::load_fst;
use geodb::norm_key;
use geodb::open_db;
use geodb::parse_allcountries_line;
use geodb::parse_alt_pair;
use geodb::query_exact;
use geodb::read_lp_str_cur;
use geodb::read_record;
use geodb::read_u32_le_at;
use geodb::read_u64_le_at;
use geodb::read_var_u32;
use geodb::write_lp_str;
use geodb::write_record;
use geodb::write_var_u32;
use geodb::Db;
use geodb::GeoError;
use geodb::GeoRecord;

fn var_round_trip(v: u32) {
    let mut buf: Vec<u8> = Vec::new();
    write_var_u32(&mut buf, v);
    let (got, n) = read_var_u32(&buf).unwrap();
    assert_eq!(got, v);
    assert_eq!(n, buf.len());
}

#[test]
fn varint_round_trips() {
    for v in [0u32, 1, 127, 128, 129, 300, 16383, 16384, 2097151, u32::MAX] {
        var_round_trip(v);
    }
}

#[test]
fn varint_rejects_truncated_and_overlong() {
    assert_eq!(read_var_u32(&[]), Err(GeoError::Corrupt));
    assert_eq!(read_var_u32(&[0x80]), Err(GeoError::Corrupt));
    assert_eq!(
        read_var_u32(&[0x80, 0x80, 0x80, 0x80, 0x80, 0x01]),
        Err(GeoError::Corrupt)
    );
}

#[test]
fn delta_round_trips() {
    for ids in [vec![0u32], vec![1, 2, 3], vec![5, 100, 4_000_000_000], vec![42]] {
        let enc = encode_delta_varints(&ids);
        assert_eq!(decode_delta_varints(&enc), ids);
    }
}

#[test]
fn le_readers_read_what_was_written() {
    let mut b: Vec<u8> = Vec::new();
    geodb::write_u32_le(&mut b, 0xDEADBEEF);
    geodb::write_u64_le(&mut b, 0x0123456789ABCDEF);
    assert_eq!(read_u32_le_at(&b, 0), 0xDEADBEEF);
    assert_eq!(read_u64_le_at(&b, 4), 0x0123456789ABCDEF);
}

fn sample_record() -> GeoRecord {
    GeoRecord {
        id: 101,
        name: b"Paris".to_vec(),
        ascii_name: b"Paris".to_vec(),
        country: b"FR".to_vec(),
        admin1: b"11".to_vec(),
        admin2: b"75".to_vec(),
        lat_bits: 48.85f32.to_bits(),
        lon_bits: 2.35f32.to_bits(),
        feat_class: b'P',
        feat_code: b"PPLC".to_vec(),
        population: 2_140_000,
    }
}

#[test]
fn record_round_trips_without_ascii_name() {
    let r = sample_record();
    let mut buf: Vec<u8> = Vec::new();
    write_record(&mut buf, &r);
    let (got, end) = read_record(&buf, 0).unwrap();
    assert_eq!(end, buf.len());
    assert_eq!(got.id, 101);
    assert_eq!(got.name, b"Paris".to_vec());
    assert_eq!(got.ascii_name, Vec::<u8>::new());
    assert_eq!(got.country, b"FR".to_vec());
    assert_eq!(got.admin1, b"11".to_vec());
    assert_eq!(got.admin2, b"75".to_vec());
    assert_eq!(f32::from_bits(got.lat_bits), 48.85);
    assert_eq!(f32::from_bits(got.lon_bits), 2.35);
    assert_eq!(got.feat_class, b'P');
    assert_eq!(got.feat_code, b"PPLC".to_vec());
    assert_eq!(got.population, 2_140_000);
}

#[test]
fn lp_str_validates_utf8_and_bounds() {
    let mut buf: Vec<u8> = Vec::new();
    write_lp_str(&mut buf, b"ok");
    let (s, end) = read_lp_str_cur(&buf, 0).unwrap();
    assert_eq!(s, b"ok".to_vec());
    assert_eq!(end, 3);
    // invalid UTF-8 payload
    assert_eq!(read_lp_str_cur(&[2, 0xFF, 0xFE], 0), Err(GeoError::Corrupt));
    // length runs past the buffer
    assert_eq!(read_lp_str_cur(&[5, b'a'], 0), Err(GeoError::Corrupt));
}

#[test]
fn norm_key_trims_and_lowercases() {
    assert_eq!(norm_key(b"  AbC "), Some(b"abc".to_vec()));
    assert_eq!(norm_key(b"Stra\xc3\x9fe"), Some("straße".as_bytes().to_vec()));
    assert_eq!(norm_key(b""), None);
    assert_eq!(norm_key(b"   \t  "), None);
}

const PARIS: &str = "101\tParis\tParis\t\t48.85\t2.35\tP\tPPLC\tFR\t\t11\t75\t\t\t2140000";

fn parse_line(line: &str, min_pop: u32) -> Result<GeoRecord, GeoError> {
    let (mut rec, lat_s, lon_s) = parse_allcountries_line(line.as_bytes(), min_pop)?;
    let lat: f32 = std::str::from_utf8(&lat_s)
        .ok()
        .and_then(|s| s.parse().ok())
        .ok_or(GeoError::LineSkipped)?;
    let lon: f32 = std::str::from_utf8(&lon_s)
        .ok()
        .and_then(|s| s.parse().ok())
        .ok_or(GeoError::LineSkipped)?;
    rec.lat_bits = lat.to_bits();
    rec.lon_bits = lon.to_bits();
    Ok(rec)
}

#[test]
fn allcountries_line_parses_columns() {
    let rec = parse_line(PARIS, 0).unwrap();
    assert_eq!(rec.id, 101);
    assert_eq!(rec.name, b"Paris".to_vec());
    assert_eq!(rec.ascii_name, b"Paris".to_vec());
    assert_eq!(rec.country, b"FR".to_vec());
    assert_eq!(rec.admin1, b"11".to_vec());
    assert_eq!(rec.admin2, b"75".to_vec());
    assert_eq!(rec.feat_class, b'P');
    assert_eq!(rec.feat_code, b"PPLC".to_vec());
    assert_eq!(rec.population, 2_140_000);
    assert_eq!(f32::from_bits(rec.lat_bits), 48.85);
}

#[test]
fn allcountries_line_boundaries() {
    // too few columns
    assert_eq!(
        parse_allcountries_line(b"1\tX", 0).err(),
        Some(GeoError::LineSkipped)
    );
    // unparseable id
    let bad_id = PARIS.replacen("101", "abc", 1);
    assert!(parse_allcountries_line(bad_id.as_bytes(), 0).is_err());
    // empty feature class column decodes as '?'
    let no_fc = "7\tFoo\tFoo\t\t1.0\t2.0\t\tPPL\tDE\t\t\t\t\t\t50";
    let rec = parse_line(no_fc, 0).unwrap();
    assert_eq!(rec.feat_class, b'?');
    // a population that fails to parse is admitted with population 0 ...
    let bad_pop = "8\tBar\tBar\t\t1.0\t2.0\tP\tPPL\tDE\t\t\t\t\t\tnotanumber";
    let rec = parse_line(bad_pop, 0).unwrap();
    assert_eq!(rec.population, 0);
    // ... but excluded once min_pop is positive
    assert!(parse_allcountries_line(bad_pop.as_bytes(), 1).is_err());
}

#[test]
fn alt_pair_filters_and_normalizes() {
    let records = vec![parse_line(PARIS, 0).unwrap()];
    let ids = collect_ids(&records);
    let pair = parse_alt_pair("1\t101\tfr\tPar\u{ed}s".as_bytes(), &ids).unwrap();
    assert_eq!(pair.0, "parís".as_bytes().to_vec());
    assert_eq!(pair.1, 101);
    // id not admitted
    assert!(parse_alt_pair(b"1\t999\tfr\tNope", &ids).is_none());
    // name normalizes to nothing
    assert!(parse_alt_pair(b"1\t101\tfr\t   ", &ids).is_none());
    // too few columns
    assert!(parse_alt_pair(b"1\t101", &ids).is_none());
}

fn build_and_open(lines: &[&str], alt_lines: &[&str], min_pop: u32) -> Result<Db, GeoError> {
    let mut records: Vec<GeoRecord> = Vec::new();
    for line in lines {
        if let Ok(rec) = parse_line(line, min_pop) {
            records.push(rec);
        }
    }
    let ids = collect_ids(&records);
    let mut alts: Vec<(Vec<u8>, u32)> = Vec::new();
    for line in alt_lines {
        if let Some(p) = parse_alt_pair(line.as_bytes(), &ids) {
            alts.push(p);
        }
    }
    let bytes = build_db_bytes(records, alts)?;
    open_db(bytes)
}

fn lookup_ids(db: &Db, key: &str, limit: usize) -> Vec<u32> {
    let m = load_fst(db).unwrap();
    let hits = query_exact(db, &m, key.as_bytes(), limit).unwrap();
    hits.iter().map(|r| r.id).collect()
}

#[test]
fn scenario_single_record_by_primary_name() {
    let db = build_and_open(&[PARIS], &[], 0).unwrap();
    let m = load_fst(&db).unwrap();
    let hits = query_exact(&db, &m, b"paris", 0).unwrap();
    assert_eq!(hits.len(), 1);
    assert_eq!(hits[0].id, 101);
    assert_eq!(hits[0].population, 2_140_000);
    assert_eq!(hits[0].name, b"Paris".to_vec());
}

#[test]
fn scenario_alternate_name_reaches_record() {
    let db = build_and_open(&[PARIS], &["1\t101\tfr\tPar\u{ed}s"], 0).unwrap();
    assert_eq!(lookup_ids(&db, "parís", 0), vec![101]);
}

#[test]
fn scenario_population_filter_drops_low_rows() {
    let a = "5\tSpringfield\tSpringfield\t\t1.0\t2.0\tP\tPPL\tUS\t\t\t\t\t\t100";
    let b = "9\tSpringfield\tSpringfield\t\t3.0\t4.0\tP\tPPL\tUS\t\t\t\t\t\t200";
    let db = build_and_open(&[a, b], &[], 150).unwrap();
    assert_eq!(lookup_ids(&db, "springfield", 0), vec![9]);
}

#[test]
fn scenario_case_and_whitespace_collide() {
    let line = "7\tFoo\tFoo\t\t1.0\t2.0\tP\tPPL\tDE\t\t\t\t\t\t10";
    let db = build_and_open(&[line], &[], 0).unwrap();
    assert_eq!(lookup_ids(&db, "FOO", 0), vec![7]);
    assert_eq!(lookup_ids(&db, " foo ", 0), vec![7]);
}

#[test]
fn scenario_duplicate_keys_deduplicate_ascending() {
    let r1 = "1\tDup\tDup\t\t1.0\t2.0\tP\tPPL\tDE\t\t\t\t\t\t10";
    let r2 = "2\tDup\tDup\t\t1.0\t2.0\tP\tPPL\tDE\t\t\t\t\t\t10";
    let r3 = "3\tDup\tDup\t\t1.0\t2.0\tP\tPPL\tDE\t\t\t\t\t\t10";
    let db = build_and_open(&[r3, r1, r2], &["1\t2\tde\tDup"], 0).unwrap();
    assert_eq!(lookup_ids(&db, "dup", 0), vec![1, 2, 3]);
}

#[test]
fn scenario_empty_after_filter_fails() {
    let err = build_and_open(&[PARIS], &[], 1_000_000_000).unwrap_err();
    assert_eq!(err, GeoError::EmptyAfterFilter);
}

#[test]
fn limit_semantics() {
    let r1 = "1\tDup\tDup\t\t1.0\t2.0\tP\tPPL\tDE\t\t\t\t\t\t10";
    let r2 = "2\tDup\tDup\t\t1.0\t2.0\tP\tPPL\tDE\t\t\t\t\t\t10";
    let r3 = "3\tDup\tDup\t\t1.0\t2.0\tP\tPPL\tDE\t\t\t\t\t\t10";
    let db = build_and_open(&[r1, r2, r3], &[], 0).unwrap();
    assert_eq!(lookup_ids(&db, "dup", 0), vec![1, 2, 3]);
    assert_eq!(lookup_ids(&db, "dup", 5), vec![1, 2, 3]);
    assert_eq!(lookup_ids(&db, "dup", 3), vec![1, 2, 3]);
    assert_eq!(lookup_ids(&db, "dup", 2), vec![1, 2]);
    assert_eq!(lookup_ids(&db, "dup", 1), vec![1]);
}

#[test]
fn empty_or_whitespace_query_is_empty_not_error() {
    let db = build_and_open(&[PARIS], &[], 0).unwrap();
    assert_eq!(lookup_ids(&db, "", 0), Vec::<u32>::new());
    assert_eq!(lookup_ids(&db, "   \t ", 0), Vec::<u32>::new());
}

#[test]
fn absent_key_is_empty_not_error() {
    let db = build_and_open(&[PARIS], &[], 0).unwrap();
    assert_eq!(lookup_ids(&db, "london", 0), Vec::<u32>::new());
}

#[test]
fn dedup_keeps_first_occurrence_of_an_id() {
    let mut a = sample_record();
    a.population = 1;
    let mut b = sample_record();
    b.population = 2;
    let mut c = sample_record();
    c.id = 7;
    let out = dedup_records_by_id(vec![a, b, c]);
    assert_eq!(out.len(), 2);
    assert_eq!(out[0].id, 101);
    assert_eq!(out[0].population, 1);
    assert_eq!(out[1].id, 7);
}

#[test]
fn build_and_query_end_to_end() {
    let records = vec![parse_line(PARIS, 0).unwrap()];
    let hits = build_and_query(records, Vec::new(), b"paris", 0).unwrap();
    assert_eq!(hits.len(), 1);
    assert_eq!(hits[0].id, 101);
    let err = build_and_query(Vec::new(), Vec::new(), b"paris", 0).unwrap_err();
    assert_eq!(err, GeoError::EmptyAfterFilter);
}

#[test]
fn open_rejects_bad_files() {
    assert_eq!(open_db(b"nope".to_vec()).unwrap_err(), GeoError::BadMagic);
    let mut junk = b"AAAAAAAAAAAAAAAAAAAAAAAAAAAAAAAAAAAAAAAAAAAAAAAA".to_vec();
    junk[..7].copy_from_slice(b"XXXXXXX");
    assert_eq!(open_db(junk).unwrap_err(), GeoError::BadMagic);

    let db = build_and_open(&[PARIS], &[], 0).unwrap();
    let good = db.bytes.clone();

    let mut wrong_version = good.clone();
    wrong_version[7] = 99;
    assert_eq!(open_db(wrong_version).unwrap_err(), GeoError::BadVersion);

    let mut trailing = good.clone();
    trailing.push(0);
    assert_eq!(open_db(trailing).unwrap_err(), GeoError::Corrupt);

    let mut truncated = good.clone();
    truncated.truncate(20);
    assert_eq!(open_db(truncated).unwrap_err(), GeoError::Corrupt);

    assert!(open_db(good).is_ok());
}

#[test]
fn header_magic_and_version_as_documented() {
    let db = build_and_open(&[PARIS], &[], 0).unwrap();
    assert_eq!(&db.bytes[..7], &[0x47, 0x45, 0x4F, 0x44, 0x42, 0x31, 0x00]);
    assert_eq!(read_u32_le_at(&db.bytes, 7), 2);
}

#[test]
fn fst_section_loads_with_the_fst_crate() {
    let db = build_and_open(&[PARIS], &[], 0).unwrap();
    let start = 43;
    let end = start + read_u64_le_at(&db.bytes, 11) as usize;
    let map = fst::Map::new(db.bytes[start..end].to_vec()).unwrap();
    assert!(map.get(b"paris").is_some());
    assert!(map.get(b"Paris").is_none());
}

#[test]
fn error_descriptions_are_nonempty() {
    for e in [
        GeoError::BadMagic,
        GeoError::BadVersion,
        GeoError::Corrupt,
        GeoError::LineSkipped,
        GeoError::EmptyAfterFilter,
        GeoError::TooLarge,
    ] {
        assert!(!e.describe().is_empty());
    }
}

#[test]
fn sections_account_for_the_whole_file() {
    let db = build_and_open(&[PARIS], &[], 0).unwrap();
    let total = 43
        + read_u64_le_at(&db.bytes, 11)
        + read_u64_le_at(&db.bytes, 19)
        + read_u64_le_at(&db.bytes, 27)
        + read_u64_le_at(&db.bytes, 35);
    assert_eq!(total as usize, db.bytes.len());
}
