//! Encoding results, capacity, the encoder interface and encoding errors.
use vstd::prelude::*;

pub mod complex;
pub mod complex_encoder;
pub mod extended_line_encoder;
pub mod line_extend_encoder;
pub mod random_whitespace_encoder;
pub mod trailing_unicode_encoder;
pub mod trailing_whitespace_encoder;

use crate::binary::{BinaryConversionError, BitIterator};
use crate::context::{Context, ContextError, ContextErrorKind, PivotByLineContext};
use crate::chars::{copy_string, push_str};
use crate::method::variant::{decimal, VariantError};

verus! {

/// Possible results of data encoding
#[derive(Debug, Clone, Copy, PartialEq, Eq, Structural)]
pub enum EncoderResult {
    Success,
    NoDataLeft,
}

/// Gives amount of bits that are encoded per text fragment.
pub trait Capacity {
    /// Returns how many bits are encoded per text fragment.
    fn bitrate(&self) -> usize;
}

/// Base trait for data encoders working on a context `E`.
pub trait Encoder<E: Context>: Capacity {
    /// Encodes bits taken from `data` into the currently loaded fragment of `context`.
    fn partial_encode(&self, context: &mut E, data: &mut BitIterator) -> Result<
        EncoderResult,
        MethodError,
    >;
}

/// Enum for data encoding errors types
#[derive(Debug, Clone, Copy, PartialEq, Eq, Structural)]
pub enum EncodingErrorKind {
    CapacityTooLow,
    NoWordsLeft,
}

/// Represents encoding error. Concrete error if differentiated by the [EncodingErrorKind]
#[derive(Debug, Clone)]
pub struct EncodingError {
    kind: EncodingErrorKind,
}

impl EncodingError {
    /// The kind of the error.
    pub closed spec fn kind_of(&self) -> EncodingErrorKind {
        self.kind
    }

    /// Facade for creating [EncodingErrorKind::CapacityTooLow] error.
    pub fn capacity_error() -> (res: Self)
        ensures
            res.kind_of() == EncodingErrorKind::CapacityTooLow,
    {
        EncodingError { kind: EncodingErrorKind::CapacityTooLow }
    }

    /// Facade for creating [EncodingErrorKind::NoWordsLeft] error.
    pub fn no_words_error() -> (res: Self)
        ensures
            res.kind_of() == EncodingErrorKind::NoWordsLeft,
    {
        EncodingError { kind: EncodingErrorKind::NoWordsLeft }
    }

    /// The kind of the error.
    pub fn kind(&self) -> (res: EncodingErrorKind)
        ensures
            res == self.kind_of(),
    {
        self.kind
    }

    /// The message describing the error.
    pub fn message(&self) -> (res: &'static str)
        ensures
            res@ == match self.kind_of() {
                EncodingErrorKind::CapacityTooLow => "Exceeded cover text capacity"@,
                EncodingErrorKind::NoWordsLeft => "No extra words found in cover text when tried to encode a bit"@,
            },
    {
        match self.kind {
            EncodingErrorKind::CapacityTooLow => "Exceeded cover text capacity",
            EncodingErrorKind::NoWordsLeft => "No extra words found in cover text when tried to encode a bit",
        }
    }
}

/// An encoder that hides bits in a given line.
pub trait LineEncoder {
    /// Hides the next bits of `data` in `line`.
    fn encode(&mut self, data: &mut BitIterator, line: &mut String) -> Result<EncoderResult, EncodingError>;
}

/// One step of an encoder hiding one bit per line: no bit left gives `NoDataLeft` and
/// leaves the line; a 1 bit changes the line into `changed`; a 0 bit leaves it.
pub open spec fn one_bit_line_step(
    line: Seq<char>,
    bits: Seq<u8>,
    changed: Seq<char>,
    new_line: Seq<char>,
    new_bits: Seq<u8>,
    res: Result<EncoderResult, EncodingErrorKind>,
) -> bool {
    if bits.len() == 0 {
        res == Ok::<EncoderResult, EncodingErrorKind>(EncoderResult::NoDataLeft) && new_line == line
            && new_bits == bits
    } else if bits[0] == 1 {
        res == Ok::<EncoderResult, EncodingErrorKind>(EncoderResult::Success) && new_line == changed
            && new_bits == bits.drop_first()
    } else {
        res == Ok::<EncoderResult, EncodingErrorKind>(EncoderResult::Success) && new_line == line
            && new_bits == bits.drop_first()
    }
}

/// A line-step result with the error as its kind.
pub open spec fn line_res(res: Result<EncoderResult, EncodingError>) -> Result<EncoderResult, EncodingErrorKind> {
    match res {
        Ok(r) => Ok(r),
        Err(e) => Err(e.kind_of()),
    }
}

/// Any error raised while hiding or revealing data.
#[derive(Debug)]
pub enum MethodError {
    Context(ContextError),
    Encoding(EncodingError),
    Conversion(BinaryConversionError),
    Variant(VariantError),
    PivotTooLarge,
    PivotTooSmall,
}

/// The kinds of [MethodError], as plain values.
#[derive(Debug, Clone, Copy, PartialEq, Eq, Structural)]
pub enum ErrorKind {
    NoTextLeft,
    CannotConstructLine,
    CapacityTooLow,
    NoWordsLeft,
    Conversion,
    Variant(u8),
    PivotTooLarge,
    PivotTooSmall,
}

impl MethodError {
    /// The kind of the error, as a plain value.
    pub open spec fn kind_of(&self) -> ErrorKind {
        match self {
            MethodError::Context(e) => match e.kind_of() {
                ContextErrorKind::NoTextLeft => ErrorKind::NoTextLeft,
                ContextErrorKind::CannotConstructLine => ErrorKind::CannotConstructLine,
            },
            MethodError::Encoding(e) => match e.kind_of() {
                EncodingErrorKind::CapacityTooLow => ErrorKind::CapacityTooLow,
                EncodingErrorKind::NoWordsLeft => ErrorKind::NoWordsLeft,
            },
            MethodError::Conversion(_) => ErrorKind::Conversion,
            MethodError::Variant(e) => ErrorKind::Variant(e.value_of()),
            MethodError::PivotTooLarge => ErrorKind::PivotTooLarge,
            MethodError::PivotTooSmall => ErrorKind::PivotTooSmall,
        }
    }

    /// The text describing the error.
    pub open spec fn text_of(&self) -> Seq<char> {
        match self {
            MethodError::Context(e) => match e.kind_of() {
                ContextErrorKind::NoTextLeft => "No cover text left."@,
                ContextErrorKind::CannotConstructLine => "Pivot is too small to construct a line."@,
            },
            MethodError::Encoding(e) => match e.kind_of() {
                EncodingErrorKind::CapacityTooLow => "Exceeded cover text capacity"@,
                EncodingErrorKind::NoWordsLeft => "No extra words found in cover text when tried to encode a bit"@,
            },
            MethodError::Conversion(e) => e.text(),
            MethodError::Variant(e) => "Invalid variant equal to "@ + decimal(e.value_of() as nat)
                + " has been provided"@,
            MethodError::PivotTooLarge => "Pivot is greater than the cover text length."@,
            MethodError::PivotTooSmall => "Provided pivot is smaller than the largest word in text! Cannot guarantee encoding will succeed."@,
        }
    }

    /// The message describing the error.
    pub fn message(&self) -> (res: String)
        ensures
            res@ == self.text_of(),
    {
        match self {
            MethodError::Context(e) => {
                let mut res = String::new();
                push_str(&mut res, e.message());
                assert(res@ =~= self.text_of());
                res
            },
            MethodError::Encoding(e) => {
                let mut res = String::new();
                push_str(&mut res, e.message());
                assert(res@ =~= self.text_of());
                res
            },
            MethodError::Conversion(e) => copy_string(e.message()),
            MethodError::Variant(e) => e.message(),
            MethodError::PivotTooLarge => {
                let mut res = String::new();
                push_str(&mut res, "Pivot is greater than the cover text length.");
                assert(res@ =~= self.text_of());
                res
            },
            MethodError::PivotTooSmall => {
                let mut res = String::new();
                push_str(
                    &mut res,
                    "Provided pivot is smaller than the largest word in text! Cannot guarantee encoding will succeed.",
                );
                assert(res@ =~= self.text_of());
                res
            },
        }
    }

    /// The kind of the error.
    pub fn kind(&self) -> (res: ErrorKind)
        ensures
            res == self.kind_of(),
    {
        match self {
            MethodError::Context(e) => match e.kind() {
                ContextErrorKind::NoTextLeft => ErrorKind::NoTextLeft,
                ContextErrorKind::CannotConstructLine => ErrorKind::CannotConstructLine,
            },
            MethodError::Encoding(e) => match e.kind() {
                EncodingErrorKind::CapacityTooLow => ErrorKind::CapacityTooLow,
                EncodingErrorKind::NoWordsLeft => ErrorKind::NoWordsLeft,
            },
            MethodError::Conversion(_) => ErrorKind::Conversion,
            MethodError::Variant(e) => ErrorKind::Variant(e.value()),
            MethodError::PivotTooLarge => ErrorKind::PivotTooLarge,
            MethodError::PivotTooSmall => ErrorKind::PivotTooSmall,
        }
    }
}

/// The error kind a context error maps to.
pub open spec fn context_kind(k: ContextErrorKind) -> ErrorKind {
    match k {
        ContextErrorKind::NoTextLeft => ErrorKind::NoTextLeft,
        ContextErrorKind::CannotConstructLine => ErrorKind::CannotConstructLine,
    }
}

/// A result with its error reduced to the error kind.
pub open spec fn result_kind(res: Result<EncoderResult, MethodError>) -> Result<
    EncoderResult,
    ErrorKind,
> {
    match res {
        Ok(r) => Ok(r),
        Err(e) => Err(e.kind_of()),
    }
}

/// One step of a method that hides one bit per line by changing the line with `change`:
/// no bit left gives `NoDataLeft`; a 1 bit applies the change (an error if no line is
/// loaded); a 0 bit leaves the line as it is.
pub open spec fn one_bit_step(
    cur: Option<Seq<char>>,
    bits: Seq<u8>,
    changed: Seq<char>,
    new_cur: Option<Seq<char>>,
    new_bits: Seq<u8>,
    res: Result<EncoderResult, ErrorKind>,
) -> bool {
    if bits.len() == 0 {
        res == Ok::<EncoderResult, ErrorKind>(EncoderResult::NoDataLeft) && new_cur == cur
            && new_bits == bits
    } else {
        &&& new_bits == bits.drop_first()
        &&& if bits[0] == 1 {
            match cur {
                None => res == Err::<EncoderResult, ErrorKind>(ErrorKind::NoTextLeft)
                    && new_cur is None,
                Some(l) => res == Ok::<EncoderResult, ErrorKind>(EncoderResult::Success)
                    && new_cur == Some(changed),
            }
        } else {
            res == Ok::<EncoderResult, ErrorKind>(EncoderResult::Success) && new_cur == cur
        }
    }
}

/// The state an encoding step works on: the loaded line, the words left and the bits left.
#[verifier::ext_equal]
pub struct EncState {
    pub current: Option<Seq<char>>,
    pub words: Seq<Seq<char>>,
    pub bits: Seq<u8>,
}

/// The encoding state of a context and a bit sequence.
pub open spec fn enc_state(ctx: PivotByLineContext, bits: Seq<u8>) -> EncState {
    EncState { current: ctx.current(), words: ctx.words_left(), bits }
}

} // verus!
