//! This method encodes n bits per line using a set of Unicode whitespace and invisible
//! characters appended at the end of the line. Larger sets give a higher bitrate but
//! might not survive every channel.
//!
//! The amount of bits encoded depends on the character set: at most 5 bits per line with
//! the full set. The encoder does not report when no data is left.
use vstd::prelude::*;

use crate::binary::{
    bit_length, bit_length_of, bit_values, bits_value, is_bit_seq, lemma_bits_fold_u32,
    lemma_bits_value_bound, lemma_pow2_mono, lemma_pow2_pos, pow2_nat, u32_bits, Bit, BitIterator,
    BitVec,
};
use crate::chars::chars_of;
use crate::context::{Context, ContextError, PivotByLineContext, PivotByRawLineContext};
use crate::decoder::Decoder;
use crate::encoder::{
    enc_state, result_kind, Capacity, EncState, Encoder, EncoderResult, ErrorKind, MethodError,
};
use crate::method::trailing_whitespace::append_to_current;
use crate::method::Method;
use crate::ptero_text::extended_line_method::character_sets::{
    char_number, distinct_chars, lemma_char_number_of_member, CharacterSetType, GetCharacterSet,
};

verus! {

/// Bits per line for a set of `n` characters.
pub open spec fn tu_rate(n: nat) -> nat {
    bit_length(n)
}

/// Number of bits taken from `bits` for one line at rate `r`.
pub open spec fn tu_taken(bits: Seq<u8>, r: nat) -> nat {
    if bits.len() < r {
        bits.len()
    } else {
        r
    }
}

/// The number formed by the bits taken for one line, padded with zero bits up to `r` bits.
pub open spec fn tu_number(bits: Seq<u8>, r: nat) -> nat {
    let k = tu_taken(bits, r);
    bits_value(bits.take(k as int)) * pow2_nat((r - k) as nat)
}

/// The bits hidden in `line` with the character set `set`: the last `rate` bits of the
/// number of its last character (0 when it is not in the set); `rate` zero bits for an
/// empty line.
pub open spec fn tu_decoded(set: Seq<char>, line: Seq<char>) -> Seq<u8> {
    let r = tu_rate(set.len());
    if line.len() > 0 {
        u32_bits(char_number(set, line.last()) as u32).skip(32 - r)
    } else {
        Seq::new(r, |i: int| 0u8)
    }
}

/// Each pre-defined set has `2^rate - 1` characters, with a rate between 1 and 5.
pub proof fn lemma_charset_shape(cs: CharacterSetType)
    ensures
        1 <= tu_rate(cs.charset().len()) <= 5,
        cs.charset().len() + 1 == pow2_nat(tu_rate(cs.charset().len())),
{
    reveal_with_fuel(bit_length, 7);
    reveal_with_fuel(pow2_nat, 7);
}

/// One encoding step of the method with the character set `set`.
pub open spec fn tu_step(
    set: Seq<char>,
    before: EncState,
    after: EncState,
    res: Result<EncoderResult, ErrorKind>,
) -> bool {
    let r = tu_rate(set.len());
    let bits = before.bits;
    let n = tu_number(bits, r);
    &&& after.words == before.words
    &&& after.bits == bits.skip(tu_taken(bits, r) as int)
    &&& 0 <= n <= set.len()
    &&& if n == 0 {
        res == Ok::<EncoderResult, ErrorKind>(EncoderResult::Success) && after.current
            == before.current
    } else {
        match before.current {
            None => res == Err::<EncoderResult, ErrorKind>(ErrorKind::NoTextLeft)
                && after.current is None,
            Some(l) => res == Ok::<EncoderResult, ErrorKind>(EncoderResult::Success)
                && after.current == Some(l.push(set[n - 1])),
        }
    }
}

/// Trailing unicode method for the pre-defined character sets.
pub struct TrailingUnicodeMethod {
    character_set: CharacterSetType,
}

impl TrailingUnicodeMethod {
    /// The character set used.
    pub closed spec fn set_of(&self) -> CharacterSetType {
        self.character_set
    }

    pub fn new(unicode_set: CharacterSetType) -> (res: Self)
        ensures
            res.set_of() == unicode_set,
    {
        TrailingUnicodeMethod { character_set: unicode_set }
    }
}

impl Default for TrailingUnicodeMethod {
    fn default() -> Self {
        Self::new(CharacterSetType::Full)
    }
}

impl Capacity for TrailingUnicodeMethod {
    fn bitrate(&self) -> (res: usize)
        ensures
            res == tu_rate(self.set_of().charset().len()),
    {
        let size = self.character_set.size();
        bit_length_of(size)
    }
}

impl Encoder<PivotByLineContext> for TrailingUnicodeMethod {
    fn partial_encode(&self, context: &mut PivotByLineContext, data: &mut BitIterator) -> (res:
        Result<EncoderResult, MethodError>)
        ensures
            final(data).source() == old(data).source(),
            final(context).pivot_of() == old(context).pivot_of(),
            tu_step(
                self.set_of().charset(),
                enc_state(*old(context), old(data).remaining()),
                enc_state(*final(context), final(data).remaining()),
                result_kind(res),
            ),
    {
        let ghost bits = data.remaining();
        let set_capacity = self.bitrate();
        proof {
            lemma_charset_shape(self.character_set);
            data.lemma_remaining_are_bits();
        }
        let mut next_n_bits: Vec<Bit> = Vec::new();
        let mut k: usize = 0;
        while k < set_capacity
            invariant
                k <= set_capacity <= 5,
                data.source() == old(data).source(),
                k <= bits.len(),
                bit_values(next_n_bits@) == bits.take(k as int),
                data.remaining() == bits.skip(k as int),
            ensures
                k == tu_taken(bits, set_capacity as nat),
                bit_values(next_n_bits@) == bits.take(k as int),
                data.remaining() == bits.skip(k as int),
                data.source() == old(data).source(),
            decreases set_capacity - k,
        {
            match data.next() {
                Some(b) => {
                    let ghost old_v = next_n_bits@;
                    next_n_bits.push(b);
                    assert(next_n_bits@ == old_v.push(b));
                    assert(bit_values(next_n_bits@) =~= bit_values(old_v).push(b.0));
                    assert(bit_values(next_n_bits@) =~= bits.take(k as int + 1));
                    assert(bits.skip(k as int).drop_first() =~= bits.skip(k as int + 1));
                    k += 1;
                },
                None => {
                    break;
                },
            }
        }
        let ghost taken = bits.take(k as int);
        assert(is_bit_seq(taken)) by {
            assert forall|i: int| 0 <= i < taken.len() implies #[trigger] taken[i] <= 1 by {
                assert(taken[i] == bits[i]);
                assert(bits.skip(0) == bits);
            }
        }
        let bit_vec = BitVec::new(next_n_bits);
        let mut number: u32 = bit_vec.to_u32();
        proof {
            assert(bit_vec@ == taken);
            lemma_bits_fold_u32(taken);
            lemma_bits_value_bound(taken);
            assert(pow2_nat(0) == 1);
            assert(bits_value(taken) * pow2_nat(0) == bits_value(taken)) by (nonlinear_arith)
                requires
                    pow2_nat(0) == 1,
            ;
            assert(number == bits_value(taken) * pow2_nat(0));
        }
        let mut j: usize = k;
        while j < set_capacity
            invariant
                k <= j <= set_capacity <= 5,
                number == bits_value(taken) * pow2_nat((j - k) as nat),
                bits_value(taken) < pow2_nat(k as nat),
            decreases set_capacity - j,
        {
            proof {
                lemma_pow2_mono((j - k) as nat, 5);
                lemma_pow2_mono(k as nat, 5);
                reveal_with_fuel(pow2_nat, 6);
                assert(number <= 32 * 32) by (nonlinear_arith)
                    requires
                        number == bits_value(taken) * pow2_nat((j - k) as nat),
                        bits_value(taken) < 32,
                        pow2_nat((j - k) as nat) <= 32,
                ;
                assert(pow2_nat((j + 1 - k) as nat) == 2 * pow2_nat((j - k) as nat));
                assert(2 * number == bits_value(taken) * pow2_nat((j + 1 - k) as nat)) by (nonlinear_arith)
                    requires
                        number == bits_value(taken) * pow2_nat((j - k) as nat),
                        pow2_nat((j + 1 - k) as nat) == 2 * pow2_nat((j - k) as nat),
                ;
            }
            number = number * 2;
            j += 1;
        }
        proof {
            let r = set_capacity as nat;
            assert(number < pow2_nat(r)) by {
                lemma_pow2_pos((r - k) as nat);
                assert(pow2_nat(r) == pow2_nat(k as nat) * pow2_nat((r - k) as nat)) by {
                    lemma_pow2_add(k as nat, (r - k) as nat);
                }
                assert(bits_value(taken) * pow2_nat((r - k) as nat) < pow2_nat(k as nat) * pow2_nat(
                    (r - k) as nat,
                )) by (nonlinear_arith)
                    requires
                        bits_value(taken) < pow2_nat(k as nat),
                        pow2_nat((r - k) as nat) >= 1,
                ;
            }
        }
        let character = self.character_set.get_character(number as usize);
        match character {
            Some(c) => {
                match append_to_current(context, c) {
                    Ok(()) => Ok(EncoderResult::Success),
                    Err(e) => Err(MethodError::Context(e)),
                }
            },
            None => Ok(EncoderResult::Success),
        }
    }
}

/// `2^(a+b) = 2^a * 2^b`.
pub proof fn lemma_pow2_add(a: nat, b: nat)
    ensures
        pow2_nat(a + b) == pow2_nat(a) * pow2_nat(b),
    decreases b,
{
    if b > 0 {
        let b1 = (b - 1) as nat;
        lemma_pow2_add(a, b1);
        assert(a + b1 + 1 == a + b);
        assert(pow2_nat(a + b) == 2 * pow2_nat(a + b1));
        assert(pow2_nat(b) == 2 * pow2_nat(b1));
        assert(pow2_nat(a) * (2 * pow2_nat(b1)) == 2 * (pow2_nat(a) * pow2_nat(b1)))
            by (nonlinear_arith);
    } else {
        assert(pow2_nat(0) == 1);
        assert(pow2_nat(a) * 1 == pow2_nat(a));
    }
}

impl Decoder<PivotByRawLineContext> for TrailingUnicodeMethod {
    fn partial_decode(&self, context: &PivotByRawLineContext) -> (res: Result<Vec<Bit>, ContextError>)
        ensures
            context.current() is None ==> res is Err && res->Err_0.kind_of()
                == crate::context::ContextErrorKind::NoTextLeft,
            context.current() is Some ==> res is Ok && bit_values(res->Ok_0@) == tu_decoded(
                self.set_of().charset(),
                context.current()->0,
            ),
    {
        let text = match context.get_current_text() {
            Ok(t) => t,
            Err(e) => return Err(e),
        };
        let chars = chars_of(text.as_str());
        let rate = self.bitrate();
        proof {
            lemma_charset_shape(self.character_set);
        }
        let n = chars.len();
        if n > 0 {
            let character = chars[n - 1];
            let decoded_number = self.character_set.character_to_bits(&character);
            proof {
                lemma_char_number_le(self.set_of().charset(), character);
            }
            let data = BitVec::from_u32(decoded_number as u32).into_bits();
            let mut res: Vec<Bit> = Vec::new();
            let mut i: usize = 32 - rate;
            let ghost full = u32_bits(decoded_number as u32);
            assert(bit_values(data@).len() == data@.len());
            while i < 32
                invariant
                    1 <= rate <= 5,
                    32 - rate <= i <= 32,
                    full.len() == 32,
                    data@.len() == 32,
                    bit_values(data@) == full,
                    bit_values(res@) == full.subrange(32 - rate, i as int),
                decreases 32 - i,
            {
                let ghost old_v = res@;
                res.push(data[i]);
                assert(res@ == old_v.push(data@[i as int]));
                assert(bit_values(res@) =~= bit_values(old_v).push(data@[i as int].0));
                assert(bit_values(data@)[i as int] == data@[i as int].0);
                assert(bit_values(res@) =~= full.subrange(32 - rate, i as int + 1));
                i += 1;
            }
            assert(full.subrange(32 - rate, 32) =~= full.skip(32 - rate));
            Ok(res)
        } else {
            let zeros = BitVec::filled_with(0, rate).into_bits();
            Ok(zeros)
        }
    }
}

/// The number of a character is at most the size of the set.
pub proof fn lemma_char_number_le(set: Seq<char>, c: char)
    ensures
        char_number(set, c) <= set.len(),
    decreases set.len(),
{
    if set.len() > 0 {
        lemma_char_number_le(set.drop_last(), c);
    }
}

impl Method<PivotByLineContext, PivotByRawLineContext> for TrailingUnicodeMethod {
    fn method_name(&self) -> (res: String)
        ensures
            res@ == "TrailingUnicodeMethod"@,
    {
        "TrailingUnicodeMethod".to_string()
    }
}

/// Reading a line gives back the number hidden in it: for a non-empty line whose last
/// character is not in the set (of distinct characters), after appending the character
/// that stands for `n` (none for 0), the bits read are the last `rate` bits of `n`.
pub proof fn lemma_trailing_unicode_roundtrip(set: Seq<char>, line: Seq<char>, n: nat)
    requires
        distinct_chars(set),
        line.len() > 0,
        char_number(set, line.last()) == 0,
        n <= set.len(),
    ensures
        tu_decoded(set, if n == 0 { line } else { line.push(set[n - 1]) }) == u32_bits(n as u32).skip(
            32 - tu_rate(set.len()),
        ),
{
    if n > 0 {
        lemma_char_number_of_member(set, n - 1);
    }
}

} // verus!
