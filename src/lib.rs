//! Extraction of layered `.db` / `.xdb` container archives.
//!
//! The library holds the container format and the extraction rules: the
//! chunk reader and the per-archive header loader, the file-table and
//! metadata decoders, the merge of many archives' tables, the directory plan
//! and the checks on each payload. Reading and writing files is left to the
//! caller, which hands the library plain bytes and acts on what it returns.

mod codecs;
mod le;

pub mod chunk;
pub mod extract;
pub mod file_table;
pub mod layout;
pub mod logger;
pub mod merge;
pub mod metadata;
