//! Conversion of variant numbers to method variants.
use vstd::prelude::*;
use vstd::std_specs::convert::TryFromSpecImpl;

use crate::chars::{push_char, push_str};
use crate::method::complex::eluv::ELUVMethodVariant;
use crate::method::complex::extended_line::ExtendedLineMethodVariant;

verus! {

/// Error raised when an unknown variant number is given.
#[derive(Debug)]
pub struct VariantError(u8);

impl VariantError {
    /// The rejected variant number.
    pub closed spec fn value_of(&self) -> u8 {
        self.0
    }

    fn new(variant: u8) -> (res: Self)
        ensures
            res.value_of() == variant,
    {
        VariantError(variant)
    }

    /// The rejected variant number.
    pub fn value(&self) -> (res: u8)
        ensures
            res == self.value_of(),
    {
        self.0
    }

    /// The message describing the error.
    pub fn message(&self) -> (res: String)
        ensures
            res@ == "Invalid variant equal to "@ + decimal(self.value_of() as nat)
                + " has been provided"@,
    {
        let mut res = String::new();
        push_str(&mut res, "Invalid variant equal to ");
        let n = self.0;
        let ghost before = res@;
        if n >= 100 {
            push_char(&mut res, digit_char(n / 100));
        }
        if n >= 10 {
            push_char(&mut res, digit_char((n / 10) % 10));
        }
        push_char(&mut res, digit_char(n % 10));
        proof {
            reveal_with_fuel(decimal, 4);
            assert(res@ =~= before + decimal(n as nat));
        }
        push_str(&mut res, " has been provided");
        assert(res@ =~= "Invalid variant equal to "@ + decimal(self.value_of() as nat) + " has been provided"@);
        res
    }
}

/// The decimal digit `d`.
pub open spec fn digit_of(d: nat) -> char {
    (('0' as u32) + d) as char
}

/// The decimal numeral of `n`, without leading zeros.
pub open spec fn decimal(n: nat) -> Seq<char>
    decreases n,
{
    if n < 10 {
        seq![digit_of(n)]
    } else {
        decimal(n / 10).push(digit_of(n % 10))
    }
}

/// Appends the decimal numeral of `n` to `s`.
pub fn push_decimal(s: &mut String, n: u64)
    ensures
        final(s)@ == old(s)@ + decimal(n as nat),
    decreases n,
{
    if n >= 10 {
        push_decimal(s, n / 10);
    }
    let d = (n % 10) as u8;
    let ghost before = s@;
    push_char(s, digit_char(d));
    assert(s@ =~= old(s)@ + decimal(n as nat));
}

/// The character of the decimal digit `d`.
fn digit_char(d: u8) -> (res: char)
    requires
        d < 10,
    ensures
        res == digit_of(d as nat),
{
    if d == 0 { '0' } else if d == 1 { '1' } else if d == 2 { '2' } else if d == 3 { '3' } else if d == 4 {
        '4'
    } else if d == 5 { '5' } else if d == 6 { '6' } else if d == 7 { '7' } else if d == 8 { '8' } else { '9' }
}

/// The ELUV variant numbered `value` (1 to 3).
pub open spec fn eluv_variant_of(value: u8) -> Option<ELUVMethodVariant> {
    if value == 1 {
        Some(ELUVMethodVariant::Variant1)
    } else if value == 2 {
        Some(ELUVMethodVariant::Variant2)
    } else if value == 3 {
        Some(ELUVMethodVariant::Variant3)
    } else {
        None
    }
}

/// The Extended Line variant numbered `value` (1 to 3).
pub open spec fn extended_line_variant_of(value: u8) -> Option<ExtendedLineMethodVariant> {
    if value == 1 {
        Some(ExtendedLineMethodVariant::Variant1)
    } else if value == 2 {
        Some(ExtendedLineMethodVariant::Variant2)
    } else if value == 3 {
        Some(ExtendedLineMethodVariant::Variant3)
    } else {
        None
    }
}

impl ELUVMethodVariant {
    /// Converts a number to an ELUV method variant; only 1, 2 and 3 name one.
    pub fn from_number(value: u8) -> (res: Result<Self, VariantError>)
        ensures
            eluv_variant_of(value) is Some ==> res == Ok::<Self, VariantError>(
                eluv_variant_of(value)->0,
            ),
            eluv_variant_of(value) is None ==> res is Err && res->Err_0.value_of() == value,
    {
        match value {
            1 => Ok(ELUVMethodVariant::Variant1),
            2 => Ok(ELUVMethodVariant::Variant2),
            3 => Ok(ELUVMethodVariant::Variant3),
            _ => Err(VariantError::new(value)),
        }
    }
}

impl ExtendedLineMethodVariant {
    /// Converts a number to an Extended Line method variant; only 1, 2 and 3 name one.
    pub fn from_number(value: u8) -> (res: Result<Self, VariantError>)
        ensures
            extended_line_variant_of(value) is Some ==> res == Ok::<Self, VariantError>(
                extended_line_variant_of(value)->0,
            ),
            extended_line_variant_of(value) is None ==> res is Err && res->Err_0.value_of()
                == value,
    {
        match value {
            1 => Ok(ExtendedLineMethodVariant::Variant1),
            2 => Ok(ExtendedLineMethodVariant::Variant2),
            3 => Ok(ExtendedLineMethodVariant::Variant3),
            _ => Err(VariantError::new(value)),
        }
    }
}

impl TryFrom<u8> for ELUVMethodVariant {
    type Error = VariantError;

    fn try_from(value: u8) -> (res: Result<Self, Self::Error>)
        ensures
            eluv_variant_of(value) is Some ==> res == Ok::<Self, VariantError>(eluv_variant_of(value)->0),
            eluv_variant_of(value) is None ==> res is Err && res->Err_0.value_of() == value,
    {
        Self::from_number(value)
    }
}

impl TryFromSpecImpl<u8> for ELUVMethodVariant {
    open spec fn obeys_try_from_spec() -> bool {
        false
    }

    open spec fn try_from_spec(v: u8) -> Result<Self, Self::Error> {
        arbitrary()
    }
}

impl TryFrom<u8> for ExtendedLineMethodVariant {
    type Error = VariantError;

    fn try_from(value: u8) -> (res: Result<Self, Self::Error>)
        ensures
            extended_line_variant_of(value) is Some ==> res == Ok::<Self, VariantError>(extended_line_variant_of(value)->0),
            extended_line_variant_of(value) is None ==> res is Err && res->Err_0.value_of() == value,
    {
        Self::from_number(value)
    }
}

impl TryFromSpecImpl<u8> for ExtendedLineMethodVariant {
    open spec fn obeys_try_from_spec() -> bool {
        false
    }

    open spec fn try_from_spec(v: u8) -> Result<Self, Self::Error> {
        arbitrary()
    }
}

} // verus!
