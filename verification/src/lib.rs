//! Parsing from a stream of bytes: a JSON tokenizer that is pulled for one
//! event at a time, and small parsers over a stream of characters that can
//! be rewound.

pub mod classify;
pub mod descent;
pub mod grammar;
pub mod internals;
pub mod json;
pub mod json2;
pub mod laws;
pub mod locality;
pub mod source;
pub mod text;
