//! Parsing and validation for a comma-separated table of used-car listings.
//!
//! Lines are split on commas, fields are trimmed of whitespace, and a row is
//! kept only when it has at least twelve fields whose year, engine size,
//! kilometre and price columns are numeric. The library proves exactly which
//! rows are kept, in which order, and that every data row is either kept or
//! counted as skipped.

pub mod dataset;
pub mod numeric;
pub mod row;
pub mod text;

pub use dataset::parse_lines;
pub use numeric::is_numeric;
pub use row::parse_row;
pub use row::split_and_trim;
pub use row::CarRecord;
