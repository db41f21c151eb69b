//! A compact binary codec for toki pona text: every word of the covered
//! dictionaries is written as a single byte, and read back in any of the
//! supported orthographies.

pub mod dict;
pub mod dict_set;
pub mod encoding;
pub mod error;
pub mod stream;
pub mod table;
pub mod text;
pub mod variation;
