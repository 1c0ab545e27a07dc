//! Encoders made of several line encoders.
pub mod extended_line_encoder;
