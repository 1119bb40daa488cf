//! Text processing: tokenization of record bodies into per-text word
//! frequencies.

pub mod text_item;
