//! The decoder interface.
use vstd::prelude::*;

pub mod complex;
pub mod line_extend_decoder;
pub mod random_whitespace_decoder;
pub mod trailing_whitespace_decoder;

use crate::binary::Bit;
use crate::context::{Context, ContextError};

verus! {

/// Base trait for data decoders working on a context `D`.
pub trait Decoder<D: Context> {
    /// Decodes the bits hidden in the currently loaded fragment of `context`.
    fn partial_decode(&self, context: &D) -> Result<Vec<Bit>, ContextError>;
}

/// A decoder reading the bits hidden in a given line.
pub trait LineDecoder {
    /// The bits hidden in `line`.
    fn decode(&self, line: &str) -> Vec<Bit>;
}

} // verus!
