//! Reading and writing PLY (polygon file format) data.

pub mod error;
pub mod scalar;
pub mod text;
pub mod words;
pub mod header;
pub mod header_proof;
pub mod value;
pub mod binary;
pub mod ascii;
pub mod row;
pub mod chunked;
pub mod reader;
pub mod writer;
pub mod serializer;
pub mod list_count;
pub mod roundtrip;
pub mod resume;
pub mod stream;
