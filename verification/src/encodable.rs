//! Data that can be hidden in a cover text.
use vstd::prelude::*;
use vstd::string::StringSliceAdditionalSpecFns;

use crate::binary::{bits_of_bytes, BitIterator};
use crate::chars::words_of;
use crate::context::PivotByLineContext;
use crate::encoder::{ErrorKind, MethodError};
use crate::method::complex::extended_line::{
    extended_line_methods, ExtendedLineMethod, ExtendedLineMethodVariant,
};
use crate::method::complex::{encode_rel, out_kind};

verus! {

/// What hiding the bytes `data` in the words of `cover` under `pivot` with the default
/// Extended Line method may give.
pub open spec fn el_encoding(
    cover: Seq<char>,
    pivot: int,
    data: Seq<u8>,
    out: Result<Seq<char>, ErrorKind>,
) -> bool {
    encode_rel(
        extended_line_methods(ExtendedLineMethodVariant::Variant1),
        pivot,
        words_of(cover),
        bits_of_bytes(data),
        out,
    )
}

/// Data types which can be encoded into cover text.
/// The base implementation is the one for `&[u8]`.
pub trait Encodable {
    /// The bytes that are hidden.
    spec fn bytes_of(&self) -> Seq<u8>;

    /// Hides the data in `cover_text` with the default Extended Line method, lines being
    /// built under `pivot`, and returns the stego text.
    fn encode(&self, cover_text: &str, pivot: usize) -> (res: Result<String, MethodError>)
        ensures
            el_encoding(cover_text@, pivot as int, self.bytes_of(), out_kind(res)),
    ;
}

impl<'a> Encodable for &'a [u8] {
    open spec fn bytes_of(&self) -> Seq<u8> {
        self@
    }

    fn encode(&self, cover_text: &str, pivot: usize) -> (res: Result<String, MethodError>) {
        let mut context = PivotByLineContext::new(cover_text, pivot);
        let mut bits = BitIterator::new(*self);
        let method = ExtendedLineMethod::default();
        method.encode(&mut context, &mut bits)
    }
}

impl<'a> Encodable for &'a str {
    open spec fn bytes_of(&self) -> Seq<u8> {
        (*self).spec_bytes()
    }

    fn encode(&self, cover_text: &str, pivot: usize) -> (res: Result<String, MethodError>) {
        let bytes: &[u8] = (*self).as_bytes();
        bytes.encode(cover_text, pivot)
    }
}

impl Encodable for Vec<u8> {
    open spec fn bytes_of(&self) -> Seq<u8> {
        self@
    }

    fn encode(&self, cover_text: &str, pivot: usize) -> (res: Result<String, MethodError>) {
        let bytes: &[u8] = self.as_slice();
        bytes.encode(cover_text, pivot)
    }
}

} // verus!
