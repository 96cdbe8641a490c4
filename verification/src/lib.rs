//! A compact, read-optimized geographic-name lookup database.
//!
//! The library builds a binary database from tabular place-name data and
//! answers exact, case-folded name queries against it.  The on-disk format
//! holds four sections behind a fixed header: an FST key index, a postings
//! blob of delta+varint-encoded id lists, a records blob, and a binary
//! searchable id-to-offset table.

pub mod pipeline;
pub mod codec;
pub mod parse;
pub mod posting;
pub mod query;
pub mod record;
pub mod unicode;
pub mod db;
pub mod err;
pub mod fstidx;
pub mod laws;

pub use codec::decode_delta_varints;
pub use codec::write_u32_le;
pub use codec::write_u64_le;
pub use codec::encode_delta_varints;
pub use codec::read_u32_le_at;
pub use codec::read_u64_le_at;
pub use codec::read_var_u32;
pub use codec::write_var_u32;
pub use db::Db;
pub use db::open_db;
pub use db::read_postings;
pub use db::read_record_by_id;
pub use db::VERSION;
pub use err::GeoError;
pub use parse::parse_allcountries_line;
pub use parse::parse_alt_pair;
pub use pipeline::build_and_query;
pub use pipeline::build_db_bytes;
pub use pipeline::dedup_records_by_id;
pub use pipeline::collect_ids;
pub use pipeline::write_db;
pub use posting::IdSet;
pub use posting::PostingMap;
pub use query::load_fst;
pub use query::query_exact;
pub use record::GeoRecord;
pub use record::read_lp_str_cur;
pub use record::read_record;
pub use record::write_lp_str;
pub use record::write_record;
pub use unicode::norm_key;
