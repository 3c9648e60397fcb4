//! Reading delimited text into a table of typed columns.
//!
//! The header line decides the separator ([`determine_delimiter`]) and
//! names the columns; every later line is split into fields with regard to
//! double quotes ([`split_csv_line`]); every field gets a type
//! ([`find_data_type`]) and goes to the column of its position
//! ([`parse_csv_data`]).

pub mod delimiter;
pub mod split;
pub mod table;
pub mod text;
pub mod value;

pub use delimiter::determine_delimiter;
pub use split::{split_csv_line, split_header};
pub use table::{parse_csv_data, Table};
pub use value::{find_data_type, ParsedValue};
