//! Steganographic methods: simple ones that hide bits in one feature of a line, and
//! complex ones that combine them.
use vstd::prelude::*;

pub mod complex;
pub mod line_extend;
pub mod random_whitespace;
pub mod trailing_unicode;
pub mod trailing_whitespace;
pub mod variant;

use crate::context::Context;
use crate::decoder::Decoder;
use crate::encoder::Encoder;

verus! {

/// Combination of [Encoder] and [Decoder]: each method should be able to encode and decode.
pub trait Method<E: Context, D: Context>: Encoder<E> + Decoder<D> {
    /// The name of the method.
    fn method_name(&self) -> String;
}

} // verus!
