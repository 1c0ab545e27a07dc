//! The Extended Line Unicode Variant (ELUV) method. It consists of three simpler methods:
//! [RandomWhitespaceMethod](crate::method::random_whitespace::RandomWhitespaceMethod),
//! [LineExtendMethod](crate::method::line_extend::LineExtendMethod) and
//! [TrailingUnicodeMethod](crate::method::trailing_unicode::TrailingUnicodeMethod),
//! applied in the order the variant gives.
use vstd::prelude::*;

use crate::binary::{bit_values, Bit, BitIterator};
use crate::chars::push_str;
use crate::context::{Context, ContextError, PivotByLineContext, PivotByRawLineContext};
use crate::decoder::Decoder;
use crate::encoder::{enc_state, result_kind, Capacity, Encoder, EncoderResult, MethodError};
use crate::method::complex::{
    chain_decode, chain_encode, chain_from, complex_decode, complex_encode, decode_line,
    decode_lines, encode_rel, methods_bitrate, out_kind, padded, sub_name, Submethod,
    total_rate,
};
use crate::method::Method;
use crate::ptero_text::extended_line_method::character_sets::CharacterSetType;

use crate::cli::progress::{steps, ProgressStatus};
use crate::method::complex::lines_reported;

verus! {

/// The variants of the ELUV method: orders of its simple methods.
#[derive(Debug, Clone, Copy, PartialEq, Eq, Structural)]
pub enum ELUVMethodVariant {
    /// Random Whitespace, Line Extension, Trailing Unicode
    Variant1,
    /// Line Extension, Random Whitespace, Trailing Unicode
    Variant2,
    /// Line Extension, Trailing Unicode, Random Whitespace
    Variant3,
}

/// The simple methods of the ELUV method, in order, for a variant and a character set.
pub open spec fn eluv_methods(variant: ELUVMethodVariant, cs: CharacterSetType) -> Seq<Submethod> {
    match variant {
        ELUVMethodVariant::Variant1 => seq![
            Submethod::RandomWhitespace,
            Submethod::LineExtend,
            Submethod::TrailingUnicode(cs),
        ],
        ELUVMethodVariant::Variant2 => seq![
            Submethod::LineExtend,
            Submethod::RandomWhitespace,
            Submethod::TrailingUnicode(cs),
        ],
        ELUVMethodVariant::Variant3 => seq![
            Submethod::LineExtend,
            Submethod::TrailingUnicode(cs),
            Submethod::RandomWhitespace,
        ],
    }
}

/// Structure representing the ELUV algorithm: the simple methods it applies, in order.
pub struct ELUVMethod {
    methods: Vec<Submethod>,
}

/// Builder of [ELUVMethod].
pub struct ELUVMethodBuilder {
    character_set: CharacterSetType,
    variant: ELUVMethodVariant,
}

impl ELUVMethodBuilder {
    /// The character set the built method will use.
    pub closed spec fn set_of(&self) -> CharacterSetType {
        self.character_set
    }

    /// The variant the built method will use.
    pub closed spec fn variant_of(&self) -> ELUVMethodVariant {
        self.variant
    }

    /// A builder for the first variant with the full character set.
    pub fn new() -> (res: Self)
        ensures
            res.set_of() == CharacterSetType::Full,
            res.variant_of() == ELUVMethodVariant::Variant1,
    {
        ELUVMethodBuilder {
            character_set: CharacterSetType::Full,
            variant: ELUVMethodVariant::Variant1,
        }
    }

    /// Sets the character set.
    pub fn character_set(self, set: CharacterSetType) -> (res: Self)
        ensures
            res.set_of() == set,
            res.variant_of() == self.variant_of(),
    {
        let mut builder = self;
        builder.character_set = set;
        builder
    }

    /// Sets the variant.
    pub fn variant(self, variant: ELUVMethodVariant) -> (res: Self)
        ensures
            res.set_of() == self.set_of(),
            res.variant_of() == variant,
    {
        let mut builder = self;
        builder.variant = variant;
        builder
    }

    fn select_methods(&self) -> (res: Vec<Submethod>)
        ensures
            res@ == eluv_methods(self.variant, self.character_set),
    {
        let indices: [u8; 3] = match self.variant {
            ELUVMethodVariant::Variant1 => [0, 1, 2],
            ELUVMethodVariant::Variant2 => [1, 0, 2],
            ELUVMethodVariant::Variant3 => [1, 2, 0],
        };
        let mut methods: Vec<Submethod> = Vec::new();
        let mut k: usize = 0;
        while k < 3
            invariant
                k <= 3,
                indices@ == match self.variant {
                    ELUVMethodVariant::Variant1 => seq![0u8, 1u8, 2u8],
                    ELUVMethodVariant::Variant2 => seq![1u8, 0u8, 2u8],
                    ELUVMethodVariant::Variant3 => seq![1u8, 2u8, 0u8],
                },
                methods@ == eluv_methods(self.variant, self.character_set).take(k as int),
            decreases 3 - k,
        {
            let method = match indices[k] {
                0 => Submethod::RandomWhitespace,
                1 => Submethod::LineExtend,
                _ => Submethod::TrailingUnicode(self.character_set),
            };
            methods.push(method);
            assert(methods@ =~= eluv_methods(self.variant, self.character_set).take(k as int + 1));
            k += 1;
        }
        assert(eluv_methods(self.variant, self.character_set).take(3) =~= eluv_methods(
            self.variant,
            self.character_set,
        ));
        methods
    }

    /// Builds the method.
    pub fn build(&self) -> (res: ELUVMethod)
        ensures
            res.methods_of() == eluv_methods(self.variant_of(), self.set_of()),
    {
        ELUVMethod { methods: self.select_methods() }
    }
}

impl ELUVMethod {
    #[verifier::type_invariant]
    spec fn well_formed(&self) -> bool {
        self.methods@.len() == 3
    }

    /// The simple methods applied, in order.
    pub closed spec fn methods_of(&self) -> Seq<Submethod> {
        self.methods@
    }

    /// The simple methods, in order.
    pub fn into_methods(self) -> (res: Vec<Submethod>)
        ensures
            res@ == self.methods_of(),
    {
        self.methods
    }

    /// Encodes the bits of `data` into the cover of `context`, line by line, and
    /// returns the resulting text; on success every bit of `data` was taken.
    pub fn encode(&self, context: &mut PivotByLineContext, data: &mut BitIterator) -> (res: Result<
        String,
        MethodError,
    >)
        ensures
            encode_rel(
                self.methods_of(),
                old(context).pivot_of() as int,
                old(context).words_left(),
                old(data).remaining(),
                out_kind(res),
            ),
            res is Ok ==> final(data).remaining().len() == 0,
    {
        let mut progress = Vec::new();
        self.encode_reporting(context, data, &mut progress)
    }

    /// Encodes as `encode` does, reporting to `progress` one step of the bitrate for
    /// every line that hid data in full, or in part for the last one.
    pub fn encode_reporting(
        &self,
        context: &mut PivotByLineContext,
        data: &mut BitIterator,
        progress: &mut Vec<ProgressStatus>,
    ) -> (res: Result<String, MethodError>)
        ensures
            encode_rel(
                self.methods_of(),
                old(context).pivot_of() as int,
                old(context).words_left(),
                old(data).remaining(),
                out_kind(res),
            ),
            res is Ok ==> final(data).remaining().len() == 0,
            exists|k: nat|
                final(progress)@ == old(progress)@ + #[trigger] steps(k, total_rate(self.methods_of()) as u64)
                    && (res is Ok ==> lines_reported(k, old(data).remaining().len(), total_rate(self.methods_of()))),
    {
        proof {
            use_type_invariant(self);
        }
        complex_encode(&self.methods, context, data, progress)
    }

    /// Decodes the data hidden in the lines of `context`.
    pub fn decode(&self, context: &mut PivotByRawLineContext) -> (res: Result<Vec<u8>, MethodError>)
        ensures
            res is Ok,
            res matches Ok(bytes) ==> bytes@ == crate::binary::bytes_of_bits(
                padded(
                    decode_lines(
                        self.methods_of(),
                        old(context).pivot_of() as int,
                        old(context).lines_left(),
                    ),
                ),
            ),
    {
        complex_decode(&self.methods, context)
    }
}

impl Default for ELUVMethod {
    fn default() -> (res: Self)
        ensures
            res.methods_of() == eluv_methods(ELUVMethodVariant::Variant1, CharacterSetType::Full),
    {
        ELUVMethodBuilder::new().build()
    }
}

impl Capacity for ELUVMethod {
    fn bitrate(&self) -> (res: usize)
        ensures
            res == total_rate(self.methods_of()),
    {
        proof {
            use_type_invariant(self);
        }
        methods_bitrate(&self.methods)
    }
}

impl Encoder<PivotByLineContext> for ELUVMethod {
    fn partial_encode(&self, context: &mut PivotByLineContext, data: &mut BitIterator) -> (res:
        Result<EncoderResult, MethodError>)
        ensures
            final(data).source() == old(data).source(),
            final(context).pivot_of() == old(context).pivot_of(),
            chain_from(
                self.methods_of(),
                0,
                enc_state(*old(context), old(data).remaining()),
                enc_state(*final(context), final(data).remaining()),
                result_kind(res),
            ),
    {
        chain_encode(&self.methods, 0, context, data)
    }
}

impl Decoder<PivotByRawLineContext> for ELUVMethod {
    fn partial_decode(&self, context: &PivotByRawLineContext) -> (res: Result<Vec<Bit>, ContextError>)
        ensures
            context.current() is None ==> res is Err && res->Err_0.kind_of()
                == crate::context::ContextErrorKind::NoTextLeft,
            context.current() is Some ==> res is Ok && bit_values(res->Ok_0@) == decode_line(
                self.methods_of(),
                context.pivot_of() as int,
                context.current()->0,
            ),
    {
        chain_decode(&self.methods, context)
    }
}

impl Method<PivotByLineContext, PivotByRawLineContext> for ELUVMethod {
    fn method_name(&self) -> (res: String)
        ensures
            res@ == "ELUVMethod("@ + sub_name(self.methods_of()[0]) + ","@ + sub_name(
                self.methods_of()[1],
            ) + ","@ + sub_name(self.methods_of()[2]) + ")"@,
    {
        proof {
            use_type_invariant(self);
        }
        crate::method::complex::complex_name("ELUVMethod(", &self.methods)
    }
}

/// Every variant applies each of the three simple methods exactly once: it is a permutation.
pub proof fn lemma_variant_is_permutation(v: ELUVMethodVariant, cs: CharacterSetType)
    ensures
        eluv_methods(v, cs).len() == 3,
        forall|i: int, j: int| 0 <= i < j < 3 ==> #[trigger] eluv_methods(v, cs)[i] != #[trigger] eluv_methods(v, cs)[j],
{
}

} // verus!
