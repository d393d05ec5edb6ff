//! A binary-to-text codec that packs arbitrary bytes into Unicode text,
//! one 17-bit symbol per character, drawn from a table of 131,072 code
//! points plus two reserved padding sentinels.

mod bits;
mod chars;
mod codec;
mod pack;
mod padding;
mod ranges;
mod table;
mod ucd;

pub use bits::nth_bit;
pub use bits::val_of_bits;
pub use codec::InvalidChar;
pub use codec::decode;
pub use codec::encode;
pub use pack::B17;
pub use pack::B17ToB8Iter;
pub use pack::B8ToB17Iter;
pub use padding::Padding;
pub use padding::calc_padding;
pub use ranges::Ranges;
pub use ranges::compress;
pub use table::RangeTable;
pub use table::default_table;
pub use ucd::ParsedLine;
pub use ucd::hangul_line;
pub use ucd::insert_code_point;
pub use ucd::parse_code_point;
pub use ucd::unicode_data_line;
pub use ucd::unihan_line;
