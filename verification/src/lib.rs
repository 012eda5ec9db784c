//! A compact, self-describing, append-only record file format with a small
//! streaming relational engine on top of it.
//!
//! A file holds a schema header followed by rows. Each row is framed in groups
//! of up to eight columns; every group carries a null bitmap byte, the encoded
//! fields and an Adler-32 checksum, so that a reader can skip a damaged group
//! and go on with the next one.
//!
//! The layers, from the bottom up:
//!
//! - `buf`, `vecbuf`, `mmapbuf`, `filebuf`, `adlerbuf`: byte streams that are
//!   read and written one byte at a time, and the adapters that checksum
//!   what passes through them;
//! - `scalar`, `compress`, `varstring`: integers and strings on a stream;
//! - `schema2`, `layout`, `write2`: the schema header and the rows, as a
//!   model of the bytes and as the code that writes and reads them;
//! - `round_trip`, `scan`: what is written reads back, and what a scan of a
//!   file yields;
//! - `rel`, `ast`, `unique`, `hashset`: relations and the operators over
//!   them;
//! - `token`, `dsl`, `plan`, `resolve`: the statements that name relations,
//!   and the making of the relations that they name.

pub mod types;
pub mod err;
pub mod buf;
pub mod vecbuf;
pub mod adlerbuf;
pub mod mmapbuf;
pub mod filebuf;
pub mod scalar;
pub mod compress;
pub mod varstring;
pub mod schema2;
pub mod row;
pub mod layout;
pub mod write2;
pub mod round_trip;
pub mod scan;
pub mod ast;
pub mod rel;
pub mod hashset;
pub mod unique;
pub mod token;
pub mod dsl;
pub mod plan;
pub mod resolve;
