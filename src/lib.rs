//! Columnar field storage: typed columns encoded into self-describing
//! byte blobs and opened back into random-access readers.
pub mod bits;
pub mod bytes_column;
pub mod codec;
pub mod column;
pub mod dictionary;
pub mod error;
pub mod index;
pub mod le;
pub mod line;
pub mod mapping;
pub mod serialize;
pub mod wide;
