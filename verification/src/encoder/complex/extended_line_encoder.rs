//! The Extended Line encoder, under the complex encoders.
pub use crate::encoder::extended_line_encoder::ExtendedLineEncoder;
