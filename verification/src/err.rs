//! Error kinds of the library.

use vstd::prelude::*;

verus! {

/// What can go wrong while building, opening or querying a database.
#[derive(Clone, Copy, Debug, PartialEq, Eq, Structural)]
pub enum GeoError {
    /// The file does not begin with the expected magic bytes.
    BadMagic,
    /// The file's version word differs from the current `VERSION`.
    BadVersion,
    /// A section length, offset, varint or stored string is inconsistent.
    Corrupt,
    /// A tabular line was dropped: too few columns or an unparseable field.
    LineSkipped,
    /// No record passed the population filter, so nothing can be built.
    EmptyAfterFilter,
    /// A section or table would overflow a length word of the file format.
    TooLarge,
}

impl GeoError {
    /// A short human-readable name for the error.
    pub fn describe(&self) -> (r: &'static str)
        ensures
            r@.len() > 0,
    {
        let r = match self {
            GeoError::BadMagic => "bad magic",
            GeoError::BadVersion => "unsupported version",
            GeoError::Corrupt => "corrupt file",
            GeoError::LineSkipped => "line skipped",
            GeoError::EmptyAfterFilter => "no records passed the filter (min_pop too high?)",
            GeoError::TooLarge => "section too large for the file format",
        };
        proof {
            reveal_strlit("bad magic");
            reveal_strlit("unsupported version");
            reveal_strlit("corrupt file");
            reveal_strlit("line skipped");
            reveal_strlit("no records passed the filter (min_pop too high?)");
            reveal_strlit("section too large for the file format");
        }
        r
    }
}

} // verus!
