//! A log-structured key-value store.
//!
//! Every mutation is appended as a record to a segment (one segment per
//! generation); an in-memory index maps each live key to the byte range of
//! the record that holds its value. The index is rebuilt by replaying the
//! segments in ascending generation order.
//!
//! The store works on bytes in memory: it is opened on the names and the
//! bytes of the files of a directory, and hands out the bytes of its
//! segments. Reading and writing the files is left to the caller.

pub mod error;
pub mod index;
pub mod kv;
pub mod laws;
pub mod record;
pub mod segment;
pub mod utils;

pub use error::KvsError;
pub use index::{Index, Value};
pub use kv::KvStore;
pub use record::Record;
pub use utils::{BufReaderWithPos, BufWriterWithPos, SeekFrom, Stream};
