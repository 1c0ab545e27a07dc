//! Text steganography: hiding bits in the whitespace and line layout of a cover text.

pub mod chars;

pub mod binary;
pub mod text;
pub mod byte_stream;
pub mod words;
pub mod log;
pub mod observer;
pub mod context;
pub mod encoder;
pub mod decoder;
pub mod encodable;
pub mod method;
pub mod ptero_common;
pub mod ptero_text;
pub mod cli;
