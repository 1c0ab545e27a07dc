//! Decoding of a secret from a stego text.
use vstd::prelude::*;

use crate::binary::bytes_of_bits;
use crate::chars::lines_of;
use crate::cli::capacity::GetCapacityCommand;
use crate::context::PivotByRawLineContext;
use crate::encoder::{ErrorKind, MethodError};
use crate::method::complex::eluv::{eluv_methods, ELUVMethodBuilder, ELUVMethodVariant};
use crate::method::complex::extended_line::{
    extended_line_methods, ExtendedLineMethodBuilder, ExtendedLineMethodVariant,
};
use crate::method::complex::{complex_decode, decode_lines, padded, Submethod};
use crate::method::variant::{eluv_variant_of, extended_line_variant_of, VariantError};
use crate::ptero_text::extended_line_method::character_sets::CharacterSetType;

verus! {

/// Decode secret from the stegotext.
pub struct DecodeSubCommand {
    /// Path to stegotext from which data will be decoded.
    pub text: String,
    /// Pivot i.e. line length used to encode with extended line algorithm.
    pub pivot: usize,
    /// Use ELUV method for encoding.
    pub eluv: bool,
    /// Override the default set of the ELUV method; it may change the method's bitrate.
    pub set: Option<CharacterSetType>,
    /// Variant of the method: a permutation of the simple methods used (1, 2 or 3).
    pub variant: u8,
    /// Use Extended Line method for encoding.
    pub extended_line: bool,
}

impl DecodeSubCommand {
    /// The character set the ELUV method uses: the one given, else the full set.
    pub open spec fn set_spec(&self) -> CharacterSetType {
        match self.set {
            Some(s) => s,
            None => CharacterSetType::Full,
        }
    }

    /// The simple methods selected by the command, or `None` when the variant names none.
    pub open spec fn methods_spec(&self) -> Option<Seq<Submethod>> {
        if self.eluv {
            match eluv_variant_of(self.variant) {
                Some(v) => Some(eluv_methods(v, self.set_spec())),
                None => None,
            }
        } else {
            match extended_line_variant_of(self.variant) {
                Some(v) => Some(extended_line_methods(v)),
                None => None,
            }
        }
    }

    /// The simple methods of the selected method (ELUV or Extended Line) in the selected
    /// variant; fails when the variant is not 1, 2 or 3.
    pub fn get_method(&self) -> (res: Result<Vec<Submethod>, VariantError>)
        ensures
            self.methods_spec() is None <==> res is Err,
            res matches Ok(ms) ==> self.methods_spec() == Some(ms@),
            res matches Err(e) ==> e.value_of() == self.variant,
    {
        if self.eluv {
            let variant = ELUVMethodVariant::from_number(self.variant)?;
            let mut builder = ELUVMethodBuilder::new();
            match self.set {
                Some(s) => {
                    builder = builder.character_set(s);
                },
                None => {},
            }
            Ok(builder.variant(variant).build().into_methods())
        } else {
            let variant = ExtendedLineMethodVariant::from_number(self.variant)?;
            Ok(ExtendedLineMethodBuilder::new().variant(variant).build().into_methods())
        }
    }

    /// Decodes the data hidden in `stego_text`: the bits of every line, padded with zero
    /// bits to whole bytes. Fails only when the variant is not 1, 2 or 3.
    pub fn do_decode(&self, stego_text: &str) -> (res: Result<Vec<u8>, MethodError>)
        ensures
            self.methods_spec() is None <==> res is Err,
            res matches Err(e) ==> e.kind_of() == ErrorKind::Variant(self.variant),
            res matches Ok(bytes) ==> bytes@ == bytes_of_bits(
                padded(decode_lines(self.methods_spec()->0, self.pivot as int, lines_of(stego_text@))),
            ),
    {
        let methods = match self.get_method() {
            Ok(ms) => ms,
            Err(e) => {
                return Err(MethodError::Variant(e));
            },
        };
        let mut context = PivotByRawLineContext::new(stego_text, self.pivot);
        complex_decode(&methods, &mut context)
    }
}

/// The ELUV method of the decode command: a set given overrides the character set; with
/// none it is the full Unicode set, the set the ELUV builder starts with and the capacity
/// command uses. So without a set the command selects what it selects given the full
/// set, and in the first variant what the capacity command's ELUV method is.
pub proof fn lemma_decode_eluv_set(cmd: DecodeSubCommand)
    requires
        cmd.eluv,
    ensures
        cmd.set matches Some(s) ==> cmd.methods_spec() == match eluv_variant_of(cmd.variant) {
            Some(v) => Some(eluv_methods(v, s)),
            None => None::<Seq<Submethod>>,
        },
        cmd.set is None ==> cmd.methods_spec() == match eluv_variant_of(cmd.variant) {
            Some(v) => Some(eluv_methods(v, CharacterSetType::Full)),
            None => None::<Seq<Submethod>>,
        },
        cmd.set is None ==> cmd.methods_spec() == (DecodeSubCommand {
            set: Some(CharacterSetType::Full),
            ..cmd
        }).methods_spec(),
        cmd.set is None && cmd.variant == 1 ==> cmd.methods_spec() == Some(
            (GetCapacityCommand {
                cover: cmd.text,
                pivot: cmd.pivot,
                eluv: true,
                extended_line: false,
            }).methods_spec(),
        ),
{
}

} // verus!
