//! Reader and writer for the BCSV/JMap fixed-layout binary table format:
//! an ordered directory of hashed field definitions, packed fixed-size row
//! records, and a deduplicated trailing string pool.

pub mod bytes;
pub mod entry;
pub mod error;
pub mod field;
pub mod hash;
pub mod io;
pub mod jmap;
pub mod laws;
pub mod layout;
pub mod text;

pub use crate::bytes::{get_u16, get_u32, put_u16, put_u32};
pub use crate::entry::{Entry, FieldKey};
pub use crate::error::JMapError;
pub use crate::field::{Field, FieldType, FieldValue};
pub use crate::hash::{calc_hash, parse_fallback_name, smg_hash_table, smg_hash_table_with_lines, FileHashTable, HashAlgorithm, HashTable};
pub use crate::io::{from_buffer, to_buffer, Encoding, IoOptions};
pub use crate::jmap::JMapInfo;
