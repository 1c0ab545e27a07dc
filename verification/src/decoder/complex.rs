//! Decoders made of several line decoders.
pub mod extended_line_decoder;
