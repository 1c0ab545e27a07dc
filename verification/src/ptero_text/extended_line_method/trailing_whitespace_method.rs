//! Trailing Whitespace: the next bits, read least significant first, form a number that
//! picks a character of the set to put at the end of the line (0 puts none).
use vstd::prelude::*;

use crate::binary::{bit_length_of, bit_values, is_bit_seq, pow2_nat, u32_bits, Bit, BitIterator, BitVec};
use crate::chars::{chars_of, push_char, string_of, byte_len};
use crate::method::trailing_unicode::{lemma_char_number_le, lemma_charset_shape, lemma_pow2_add, tu_rate};
use crate::ptero_common::config::CommonMethodConfig;
use crate::ptero_common::method::{MethodProgressStatus, MethodResult};
use crate::ptero_text::extended_line_method::character_sets::{
    char_number, distinct_chars, lemma_char_number_of_member, CharacterSetType, GetCharacterSet,
};
use crate::ptero_text::extended_line_method::{ConcealErrorView, ElState};

verus! {

/// The number whose binary digits, least significant first, are `s`.
pub open spec fn lsb_value(s: Seq<u8>) -> nat
    decreases s.len(),
{
    if s.len() == 0 {
        0
    } else {
        (s[0] + 2 * lsb_value(s.drop_first())) as nat
    }
}

/// Number of bits taken from `bits` for a line at rate `r`.
pub open spec fn taken(bits: Seq<u8>, r: nat) -> nat {
    if bits.len() < r {
        bits.len()
    } else {
        r
    }
}

/// The number the taken bits form, least significant first, shifted up to `r` bits.
pub open spec fn tw_index(bits: Seq<u8>, r: nat) -> nat {
    let n = taken(bits, r);
    lsb_value(bits.take(n as int)) * pow2_nat((r - n) as nat)
}

/// One Trailing Whitespace step with the character set `set`: no bit left gives
/// `NoDataLeft`; otherwise up to `rate` bits are taken and the character they pick (none
/// for 0) is appended; fewer bits than the rate give `NoDataLeft`.
pub open spec fn tw_step(
    set: Seq<char>,
    s: ElState,
    after: ElState,
    res: Result<MethodResult, ConcealErrorView>,
) -> bool {
    let r = tu_rate(set.len());
    let n = taken(s.bits, r);
    if n == 0 {
        res == Ok::<MethodResult, ConcealErrorView>(MethodResult::NoDataLeft) && after == s
    } else {
        let idx = tw_index(s.bits, r);
        &&& after == ElState {
            line: if idx == 0 {
                s.line
            } else {
                s.line.push(set[idx - 1])
            },
            words: s.words,
            bits: s.bits.skip(n as int),
        }
        &&& res == Ok::<MethodResult, ConcealErrorView>(
            if n < r {
                MethodResult::NoDataLeft
            } else {
                MethodResult::Success
            },
        )
    }
}

/// The bits read from a line and the line left for the next method: the last `rate`
/// bits (most significant first) of the number of the last character, which is removed
/// when it is in the set; nothing for an empty line.
pub open spec fn tw_revealed(set: Seq<char>, line: Seq<char>) -> (Seq<u8>, Seq<char>) {
    let r = tu_rate(set.len());
    if line.len() > 0 {
        let n = char_number(set, line.last());
        (
            u32_bits(n as u32).skip(32 - r),
            if n > 0 {
                line.drop_last()
            } else {
                line
            },
        )
    } else {
        (seq![], line)
    }
}

/// A number of `n` binary digits is below `2^n`.
pub proof fn lemma_lsb_value_bound(s: Seq<u8>)
    requires
        is_bit_seq(s),
    ensures
        lsb_value(s) < pow2_nat(s.len()),
    decreases s.len(),
{
    if s.len() > 0 {
        assert(is_bit_seq(s.drop_first())) by {
            assert forall|i: int| 0 <= i < s.drop_first().len() implies #[trigger] s.drop_first()[i]
                <= 1 by {
                assert(s.drop_first()[i] == s[i + 1]);
            }
        }
        lemma_lsb_value_bound(s.drop_first());
        assert(pow2_nat(s.len()) == 2 * pow2_nat((s.len() - 1) as nat));
    }
}

/// The Trailing Whitespace method.
pub struct TrailingWhitespaceMethod {
    character_set: CharacterSetType,
}

impl TrailingWhitespaceMethod {
    /// The character set used.
    pub closed spec fn set_of(&self) -> CharacterSetType {
        self.character_set
    }

    /// The method with the given character set.
    pub fn new(character_set: CharacterSetType) -> (res: Self)
        ensures
            res.set_of() == character_set,
    {
        TrailingWhitespaceMethod { character_set }
    }

    /// Bits hidden per line: the number of binary digits of the size of the set.
    pub fn bitrate(&self) -> (res: usize)
        ensures
            res == tu_rate(self.set_of().charset().len()),
    {
        bit_length_of(self.character_set.size())
    }

    /// Hides the next bits by appending the character they pick to `line`. A whole chunk
    /// of bits hidden is reported to the observers as that many bits written.
    pub fn conceal_in_trailing_whitespace(
        &self,
        data: &mut BitIterator,
        line: &mut String,
        config: &mut CommonMethodConfig,
    ) -> (res: MethodResult)
        ensures
            final(data).source() == old(data).source(),
            tw_step(
                self.set_of().charset(),
                ElState { line: old(line)@, words: seq![], bits: old(data).remaining() },
                ElState { line: final(line)@, words: seq![], bits: final(data).remaining() },
                Ok(res),
            ),
            final(line)@.len() >= old(line)@.len(),
            byte_len(old(line)@) <= isize::MAX ==> byte_len(final(line)@) <= isize::MAX,
            res == MethodResult::Success ==> final(config).notifier.events_of() == old(
                config,
            ).notifier.events_of().push(
                MethodProgressStatus::DataWritten(tu_rate(self.set_of().charset().len()) as u64),
            ),
            res == MethodResult::NoDataLeft ==> final(config).notifier.events_of() == old(
                config,
            ).notifier.events_of(),
            res == MethodResult::Success ==> final(data).remaining().len() + tu_rate(
                self.set_of().charset().len(),
            ) == old(data).remaining().len(),
            res == MethodResult::NoDataLeft ==> final(data).remaining().len() == 0 && old(
                data,
            ).remaining().len() < tu_rate(self.set_of().charset().len()),
    {
        let ghost bits = data.remaining();
        let bitrate = self.bitrate();
        proof {
            lemma_charset_shape(self.character_set);
            data.lemma_remaining_are_bits();
        }
        let mut next_n_bits: Vec<Bit> = Vec::new();
        let mut k: usize = 0;
        while k < bitrate
            invariant
                k <= bitrate <= 5,
                data.source() == old(data).source(),
                k <= bits.len(),
                bit_values(next_n_bits@) == bits.take(k as int),
                data.remaining() == bits.skip(k as int),
            ensures
                k == taken(bits, bitrate as nat),
                bit_values(next_n_bits@) == bits.take(k as int),
                data.remaining() == bits.skip(k as int),
                data.source() == old(data).source(),
            decreases bitrate - k,
        {
            match data.next() {
                Some(b) => {
                    let ghost old_v = next_n_bits@;
                    next_n_bits.push(b);
                    assert(bit_values(next_n_bits@) =~= bit_values(old_v).push(b.0));
                    assert(bit_values(next_n_bits@) =~= bits.take(k as int + 1));
                    assert(bits.skip(k as int).drop_first() =~= bits.skip(k as int + 1));
                },
                None => {
                    break ;
                },
            }
            k += 1;
        }
        if k == 0 {
            assert(bits.skip(0) =~= bits);
            return MethodResult::NoDataLeft;
        }
        let ghost taken_bits = bits.take(k as int);
        assert(is_bit_seq(taken_bits)) by {
            assert forall|i: int| 0 <= i < taken_bits.len() implies #[trigger] taken_bits[i] <= 1 by {
                assert(taken_bits[i] == bits[i]);
            }
        }
        let mut index: usize = 0;
        let mut i: usize = k;
        while i > 0
            invariant
                i <= k <= bitrate <= 5,
                taken_bits == bits.take(k as int),
                is_bit_seq(taken_bits),
                bit_values(next_n_bits@) == taken_bits,
                next_n_bits@.len() == k,
                index == lsb_value(taken_bits.skip(i as int)),
                index < pow2_nat((k - i) as nat),
            decreases i,
        {
            i -= 1;
            let b = next_n_bits[i].0;
            assert(bit_values(next_n_bits@)[i as int] == b);
            assert(taken_bits.skip(i as int).drop_first() =~= taken_bits.skip(i as int + 1));
            assert(pow2_nat((k - i) as nat) == 2 * pow2_nat((k - i - 1) as nat));
            proof {
                crate::binary::lemma_pow2_mono((k - i - 1) as nat, 5);
                reveal_with_fuel(pow2_nat, 6);
            }
            index = b as usize + 2 * index;
        }
        assert(taken_bits.skip(0) =~= taken_bits);
        assert(pow2_nat(0) == 1);
        let mut j: usize = k;
        proof {
            lemma_lsb_value_bound(taken_bits);
            assert(index == lsb_value(taken_bits));
            assert(lsb_value(taken_bits) * pow2_nat(0) == lsb_value(taken_bits));
        }
        while j < bitrate
            invariant
                k <= j <= bitrate <= 5,
                index == lsb_value(taken_bits) * pow2_nat((j - k) as nat),
                index < pow2_nat(j as nat),
            decreases bitrate - j,
        {
            assert(pow2_nat((j + 1 - k) as nat) == 2 * pow2_nat((j - k) as nat));
            assert(pow2_nat((j + 1) as nat) == 2 * pow2_nat(j as nat));
            assert(lsb_value(taken_bits) * (2 * pow2_nat((j - k) as nat)) == 2 * (lsb_value(taken_bits)
                * pow2_nat((j - k) as nat))) by (nonlinear_arith);
            proof {
                crate::binary::lemma_pow2_mono(j as nat, 5);
                reveal_with_fuel(pow2_nat, 6);
            }
            index = index * 2;
            j += 1;
        }
        assert(index == tw_index(bits, bitrate as nat));
        let set_size = self.character_set.size();
        assert(index <= set_size);
        match self.character_set.get_character(index) {
            Some(character) => {
                push_char(line, character);
            },
            None => {},
        }
        if k < bitrate {
            MethodResult::NoDataLeft
        } else {
            config.notifier.notify(&MethodProgressStatus::DataWritten(bitrate as u64));
            MethodResult::Success
        }
    }

    /// Reads the bits hidden at the end of `stego_text_line`, most significant first, and
    /// removes the character that held them.
    pub fn reveal_in_trailing_whitespace(&self, stego_text_line: &mut String) -> (res: Vec<Bit>)
        ensures
            (bit_values(res@), final(stego_text_line)@) == tw_revealed(
                self.set_of().charset(),
                old(stego_text_line)@,
            ),
    {
        let chars = chars_of(stego_text_line.as_str());
        let rate = self.bitrate();
        proof {
            lemma_charset_shape(self.character_set);
        }
        let n = chars.len();
        if n == 0 {
            let res: Vec<Bit> = Vec::new();
            assert(bit_values(res@) =~= Seq::<u8>::empty());
            return res;
        }
        let character = chars[n - 1];
        let decoded_number = self.character_set.character_to_bits(&character);
        proof {
            lemma_char_number_le(self.set_of().charset(), character);
        }
        let data = BitVec::from_u32(decoded_number as u32).into_bits();
        let mut res: Vec<Bit> = Vec::new();
        let mut i: usize = 32 - rate;
        let ghost full = u32_bits(decoded_number as u32);
        assert(bit_values(data@).len() == data@.len());
        while i < 32
            invariant
                1 <= rate <= 5,
                32 - rate <= i <= 32,
                full.len() == 32,
                data@.len() == 32,
                bit_values(data@) == full,
                bit_values(res@) == full.subrange(32 - rate, i as int),
            decreases 32 - i,
        {
            let ghost old_v = res@;
            res.push(data[i]);
            assert(bit_values(res@) =~= bit_values(old_v).push(data@[i as int].0));
            assert(bit_values(data@)[i as int] == data@[i as int].0);
            assert(bit_values(res@) =~= full.subrange(32 - rate, i as int + 1));
            i += 1;
        }
        assert(full.subrange(32 - rate, 32) =~= full.skip(32 - rate));
        if decoded_number > 0 {
            let mut kept = chars;
            kept.pop();
            assert(kept@ =~= old(stego_text_line)@.drop_last());
            *stego_text_line = string_of(&kept);
        }
        res
    }
}

/// Reading a line gives back what hiding put in it: for a non-empty line whose last
/// character is not in the set (of distinct characters), the line read after hiding some
/// bits is the line before, and the number read is the number the bits formed.
pub proof fn lemma_trailing_roundtrip(set: Seq<char>, line: Seq<char>, bits: Seq<u8>)
    requires
        distinct_chars(set),
        line.len() > 0,
        char_number(set, line.last()) == 0,
        tw_index(bits, tu_rate(set.len())) <= set.len(),
    ensures
        ({
            let idx = tw_index(bits, tu_rate(set.len()));
            let hidden = if idx == 0 {
                line
            } else {
                line.push(set[idx - 1])
            };
            tw_revealed(set, hidden) == (
                u32_bits(idx as u32).skip(32 - tu_rate(set.len())),
                line,
            )
        }),
{
    let idx = tw_index(bits, tu_rate(set.len()));
    if idx > 0 {
        lemma_char_number_of_member(set, idx - 1);
        assert(line.push(set[idx - 1]).drop_last() =~= line);
    }
}

} // verus!
