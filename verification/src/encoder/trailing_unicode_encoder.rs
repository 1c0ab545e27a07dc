//! An encoder putting a trailing Unicode whitespace or invisible character on the line:
//! the next bits pick the character (none for all zeros).
use vstd::prelude::*;

use crate::binary::{bit_length, bit_length_of, bit_values, bits_fold_u32, Bit, BitIterator, BitVec};
use crate::chars::push_char;
use crate::encoder::{line_res, EncoderResult, EncodingError, LineEncoder};

verus! {

/// The full set of Unicode whitespace and invisible characters used.
pub const FULL_UNICODE_CHARACTER_SET: [char; 31] = [
    '\u{0020}', '\u{2000}', '\u{2001}', '\u{2002}', '\u{2003}', '\u{2004}', '\u{2005}', '\u{2006}',
    '\u{2007}', '\u{2009}', '\u{200A}', '\u{200B}', '\u{200C}', '\u{200D}', '\u{200E}', '\u{2028}',
    '\u{202A}', '\u{202C}', '\u{202D}', '\u{202F}', '\u{205F}', '\u{2060}', '\u{2061}', '\u{2062}',
    '\u{2063}', '\u{2064}', '\u{2066}', '\u{2068}', '\u{2069}', '\u{3000}', '\u{FEFF}',
];

/// A set of Unicode characters standing for numbers: the character at position `i`
/// stands for `i + 1`, and none for 0.
pub trait UnicodeSet {
    /// The characters, in order.
    spec fn chars_of_set(&self) -> Seq<char>;

    /// The characters, in order.
    fn get_set(&self) -> (res: &[char])
        ensures
            res@ == self.chars_of_set(),
    ;

    /// Number of characters.
    fn size(&self) -> (res: usize)
        ensures
            res == self.chars_of_set().len(),
    {
        self.get_set().len()
    }

    /// Bits per character: the number of binary digits of the size.
    fn capacity(&self) -> (res: usize)
        ensures
            res == bit_length(self.chars_of_set().len() as nat),
    {
        bit_length_of(self.size())
    }

    /// The character standing for `number` (none for 0). Numbers above the size of the
    /// set are not accepted.
    fn get_character(&self, number: u32) -> (res: Option<char>)
        requires
            number <= self.chars_of_set().len(),
        ensures
            number == 0 ==> res is None,
            number > 0 ==> res == Some(self.chars_of_set()[number - 1]),
    {
        if number == 0 {
            None
        } else {
            let set = self.get_set();
            Some(set[(number - 1) as usize])
        }
    }
}

/// The full Unicode set.
pub struct FullUnicodeSet;

impl UnicodeSet for FullUnicodeSet {
    open spec fn chars_of_set(&self) -> Seq<char> {
        FULL_UNICODE_CHARACTER_SET@
    }

    fn get_set(&self) -> (res: &[char]) {
        &FULL_UNICODE_CHARACTER_SET
    }
}

/// One step of the encoder at `capacity` bits per line: the next `capacity` bits (fewer
/// when fewer are left), most significant first, pick the character appended; then
/// `capacity` more bits are skipped.
pub open spec fn trailing_unicode_step(
    set: Seq<char>,
    capacity: nat,
    line: Seq<char>,
    bits: Seq<u8>,
    new_line: Seq<char>,
    new_bits: Seq<u8>,
) -> bool {
    let n = if bits.len() < capacity { bits.len() } else { capacity };
    let number = bits_fold_u32(bits.take(n as int));
    let rest = bits.skip(n as int);
    let skipped = if rest.len() < capacity { rest.len() } else { capacity };
    &&& new_bits == rest.skip(skipped as int)
    &&& new_line == if number == 0 { line } else { line.push(set[number - 1]) }
}

/// Encodes bits as a trailing character of a set.
pub struct TrailingUnicodeEncoder {
    unicode_set: FullUnicodeSet,
}

impl TrailingUnicodeEncoder {
    pub fn new(unicode_set: FullUnicodeSet) -> Self {
        TrailingUnicodeEncoder { unicode_set }
    }
}

impl Default for TrailingUnicodeEncoder {
    fn default() -> Self {
        Self::new(FullUnicodeSet)
    }
}

impl LineEncoder for TrailingUnicodeEncoder {
    fn encode(&mut self, data: &mut BitIterator, line: &mut String) -> (res: Result<EncoderResult, EncodingError>)
        ensures
            final(data).source() == old(data).source(),
            res == Ok::<EncoderResult, EncodingError>(EncoderResult::Success),
            trailing_unicode_step(
                FULL_UNICODE_CHARACTER_SET@,
                5,
                old(line)@,
                old(data).remaining(),
                final(line)@,
                final(data).remaining(),
            ),
    {
        let set_capacity = self.unicode_set.capacity();
        assert(set_capacity == 5) by {
            reveal_with_fuel(bit_length, 7);
        }
        let ghost bits = data.remaining();
        proof {
            data.lemma_remaining_are_bits();
        }
        let mut taken: Vec<Bit> = Vec::new();
        let mut k: usize = 0;
        while k < set_capacity
            invariant
                k <= set_capacity == 5,
                data.source() == old(data).source(),
                k <= bits.len(),
                bit_values(taken@) == bits.take(k as int),
                data.remaining() == bits.skip(k as int),
            ensures
                k == (if bits.len() < 5 { bits.len() } else { 5 }),
                bit_values(taken@) == bits.take(k as int),
                data.remaining() == bits.skip(k as int),
                data.source() == old(data).source(),
            decreases set_capacity - k,
        {
            match data.next() {
                Some(b) => {
                    let ghost old_v = taken@;
                    taken.push(b);
                    assert(bit_values(taken@) =~= bit_values(old_v).push(b.0));
                    assert(bit_values(taken@) =~= bits.take(k as int + 1));
                    assert(bits.skip(k as int).drop_first() =~= bits.skip(k as int + 1));
                },
                None => {
                    break ;
                },
            }
            k += 1;
        }
        let number = BitVec::new(taken).to_u32();
        proof {
            crate::binary::lemma_bits_fold_u32(bits.take(k as int));
            crate::binary::lemma_bits_value_bound(bits.take(k as int));
            crate::binary::lemma_pow2_mono(k as nat, 5);
            reveal_with_fuel(crate::binary::pow2_nat, 6);
            assert(crate::binary::is_bit_seq(bits.take(k as int))) by {
                assert forall|i: int| 0 <= i < k implies #[trigger] bits.take(k as int)[i] <= 1 by {
                    assert(bits.take(k as int)[i] == bits[i]);
                }
            }
        }
        match self.unicode_set.get_character(number) {
            Some(character) => {
                push_char(line, character);
            },
            None => {},
        }
        let ghost rest = data.remaining();
        let mut j: usize = 0;
        while j < set_capacity
            invariant
                j <= set_capacity == 5,
                data.source() == old(data).source(),
                data.remaining() == rest.skip(if j <= rest.len() { j as int } else { rest.len() as int }),
            decreases set_capacity - j,
        {
            let ghost before = data.remaining();
            data.next();
            proof {
                if j < rest.len() {
                    assert(rest.skip(j as int).drop_first() =~= rest.skip(j as int + 1));
                }
            }
            j += 1;
        }
        Ok(EncoderResult::Success)
    }
}

} // verus!
