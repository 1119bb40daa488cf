//! Author-keyed word-frequency statistics over newline-delimited text
//! records, with a streaming binary codec for the resulting two-level
//! frequency map.

pub mod assoc;
pub mod bytes;
pub mod codec;
pub mod container;
pub mod corpus;
pub mod frame;
pub mod pipeline;
pub mod record;
pub mod text;
pub mod wordcount;
