//! Bits, bit vectors, conversions between bits, numbers and bytes, and an iterator over
//! the bits of a byte slice (most significant bit first).
use vstd::prelude::*;
use vstd::std_specs::convert::FromSpecImpl;

verus! {

const MOST_SIGNIFICANT_BIT_PATTERN: u8 = 0b10000000;

const CLEARED_PATTERN: u8 = 0b00000000;

/// Type for representing a bit.
#[derive(Debug, Clone, Copy, PartialEq, Eq, Structural, PartialOrd)]
pub struct Bit(pub u8);

/// Wrapper for `Vec<Bit>`.
pub struct BitVec(Vec<Bit>);

/// The values of a sequence of bits.
pub open spec fn bit_values(v: Seq<Bit>) -> Seq<u8> {
    v.map_values(|b: Bit| b.0)
}

/// Whether every value is 0 or 1.
pub open spec fn is_bit_seq(s: Seq<u8>) -> bool {
    forall|i: int| 0 <= i < s.len() ==> #[trigger] s[i] <= 1
}

/// Bit `j` (0 is the most significant) of byte `b`.
pub open spec fn byte_bit(b: u8, j: int) -> u8 {
    ((b >> ((7 - j) as u8)) & 1u8) as u8
}

/// The bits of `bytes`, each byte most significant bit first.
pub open spec fn bits_of_bytes(bytes: Seq<u8>) -> Seq<u8> {
    Seq::new((8 * bytes.len()) as nat, |k: int| byte_bit(bytes[k / 8], k % 8))
}

/// The number whose binary digits, most significant first, are `s`.
pub open spec fn bits_value(s: Seq<u8>) -> nat
    decreases s.len(),
{
    if s.len() == 0 {
        0
    } else {
        (2 * bits_value(s.drop_last()) + s.last()) as nat
    }
}

/// What the `u32` accumulation `n = (n << 1) + b` gives for the digits `s`, wrapping on overflow.
pub open spec fn bits_fold_u32(s: Seq<u8>) -> nat
    decreases s.len(),
{
    if s.len() == 0 {
        0
    } else {
        (((2 * bits_fold_u32(s.drop_last())) % 0x1_0000_0000 + s.last()) % 0x1_0000_0000) as nat
    }
}

/// Bit `k` (0 is the most significant) of the 32-bit number `n`.
pub open spec fn u32_bit(n: u32, k: int) -> u8 {
    ((n >> ((31 - k) as u32)) & 1u32) as u8
}

/// The 32 bits of `n`, most significant first.
pub open spec fn u32_bits(n: u32) -> Seq<u8> {
    Seq::new(32, |k: int| u32_bit(n, k))
}

/// The bytes whose bits, most significant first, are `s` (`s.len()` a multiple of 8).
pub open spec fn bytes_of_bits(s: Seq<u8>) -> Seq<u8> {
    Seq::new(s.len() / 8, |i: int| bits_value(s.subrange(8 * i, 8 * i + 8)) as u8)
}

impl View for BitVec {
    type V = Seq<u8>;

    closed spec fn view(&self) -> Seq<u8> {
        bit_values(self.0@)
    }
}

impl BitVec {
    /// Wraps a vector of bits.
    pub fn new(bits: Vec<Bit>) -> (res: BitVec)
        ensures
            res@ == bit_values(bits@),
    {
        BitVec(bits)
    }

    /// Unwraps the vector of bits.
    pub fn into_bits(self) -> (res: Vec<Bit>)
        ensures
            bit_values(res@) == self@,
    {
        self.0
    }

    /// Number of bits.
    pub fn len(&self) -> (res: usize)
        ensures
            res == self@.len(),
    {
        self.0.len()
    }

    /// A vector of `count` bits, each equal to `value`.
    pub fn filled_with(value: u8, count: usize) -> (res: BitVec)
        ensures
            res@ == Seq::new(count as nat, |i: int| value),
    {
        let mut v: Vec<Bit> = Vec::new();
        let mut i: usize = 0;
        while i < count
            invariant
                i <= count,
                bit_values(v@) == Seq::new(i as nat, |j: int| value),
            decreases count - i,
        {
            let ghost old_v = v@;
            v.push(Bit(value));
            assert(v@ == old_v.push(Bit(value)));
            assert(bit_values(v@) =~= bit_values(old_v).push(value));
            assert(bit_values(v@) =~= Seq::new((i + 1) as nat, |j: int| value));
            i += 1;
        }
        BitVec(v)
    }

    /// Converts the bits to a number; the first bit is the most significant
    /// (`u32::from`). Digits beyond 32 shift out the leading ones.
    pub fn to_u32(&self) -> (res: u32)
        ensures
            res == bits_fold_u32(self@),
    {
        let mut number: u32 = 0;
        let mut i: usize = 0;
        while i < self.0.len()
            invariant
                i <= self.0.len(),
                number == bits_fold_u32(self@.take(i as int)),
            decreases self.0.len() - i,
        {
            let ghost prev = number;
            assert(self@.take(i as int + 1).drop_last() == self@.take(i as int));
            let shifted = number << 1u32;
            assert(shifted == (2 * prev) % 0x1_0000_0000) by (bit_vector)
                requires
                    shifted == prev << 1u32,
            ;
            let b = self.0[i].0 as u32;
            number = shifted.wrapping_add(b);
            i += 1;
        }
        assert(self@.take(self@.len() as int) == self@);
        number
    }

    /// Converts a number to its 32 bits, most significant first (`BitVec::from`).
    pub fn from_u32(number: u32) -> (res: BitVec)
        ensures
            res@ == u32_bits(number),
    {
        let mut v: Vec<Bit> = Vec::new();
        let mut k: u32 = 0;
        while k < 32
            invariant
                k <= 32,
                bit_values(v@) == u32_bits(number).take(k as int),
            decreases 32 - k,
        {
            let sh = 31 - k;
            let masked = (number >> sh) & 1;
            assert(masked <= 1) by (bit_vector)
                requires
                    masked == (number >> sh) & 1,
            ;
            let b = masked as u8;
            assert(b == u32_bit(number, k as int));
            let ghost old_v = v@;
            v.push(Bit(b));
            assert(v@ == old_v.push(Bit(b)));
            assert(bit_values(v@) =~= bit_values(old_v).push(b));
            assert(bit_values(v@) =~= u32_bits(number).take(k as int + 1));
            k += 1;
        }
        assert(u32_bits(number).take(32) =~= u32_bits(number));
        BitVec(v)
    }

    /// Converts the bits to bytes, each group of 8 bits most significant bit first.
    /// Fails when the number of bits is not a multiple of 8.
    pub fn try_into_bytes(self) -> (res: Result<Vec<u8>, BinaryConversionError>)
        requires
            is_bit_seq(self@),
        ensures
            self@.len() % 8 != 0 <==> res is Err,
            res matches Ok(bytes) ==> bytes@ == bytes_of_bits(self@),
    {
        let bits = self.0;
        let ghost s = bit_values(bits@);
        if bits.len() % 8 != 0 {
            return Err(BinaryConversionError::new("Bit array length is not divisible by 8".to_string()));
        }
        let mut bytes: Vec<u8> = Vec::new();
        let mut index: usize = 0;
        while index < bits.len()
            invariant
                s == bit_values(bits@),
                is_bit_seq(s),
                bits.len() % 8 == 0,
                index % 8 == 0,
                index <= bits.len(),
                bytes@.len() == index / 8,
                forall|i: int|
                    0 <= i < bytes@.len() ==> #[trigger] bytes@[i] == bits_value(
                        s.subrange(8 * i, 8 * i + 8),
                    ),
            decreases bits.len() - index,
        {
            let start = index;
            let mut byte: u8 = 0;
            let mut j: usize = 0;
            while j < 8
                invariant
                    s == bit_values(bits@),
                    is_bit_seq(s),
                    start + 8 <= bits.len(),
                    j <= 8,
                    index == start + j,
                    byte == bits_value(s.subrange(start as int, start + j)),
                    byte < pow2_nat(j as nat),
                decreases 8 - j,
            {
                assert(s.subrange(start as int, start + j + 1).drop_last() == s.subrange(
                    start as int,
                    start + j,
                ));
                let b = bits[index].0;
                assert(b == s[index as int]);
                assert(b <= 1);
                proof {
                    lemma_pow2_step(j as nat);
                    lemma_pow2_le_128(j as nat);
                }
                byte = byte * 2 + b;
                index += 1;
                j += 1;
            }
            bytes.push(byte);
            proof {
                let k = bytes@.len() - 1;
                assert(8 * k == start);
            }
        }
        proof {
            let want = bytes_of_bits(s);
            assert(bytes@ =~= want);
        }
        Ok(bytes)
    }
}

/// `2^n`.
pub open spec fn pow2_nat(n: nat) -> nat
    decreases n,
{
    if n == 0 {
        1
    } else {
        2 * pow2_nat((n - 1) as nat)
    }
}

proof fn lemma_pow2_step(n: nat)
    ensures
        pow2_nat(n + 1) == 2 * pow2_nat(n),
{
}

proof fn lemma_pow2_le_128(n: nat)
    requires
        n < 8,
    ensures
        pow2_nat(n) <= 128,
{
    reveal_with_fuel(pow2_nat, 8);
}

impl From<Vec<Bit>> for BitVec {
    fn from(bit_vec: Vec<Bit>) -> (res: Self) {
        BitVec(bit_vec)
    }
}

impl FromSpecImpl<Vec<Bit>> for BitVec {
    open spec fn obeys_from_spec() -> bool {
        true
    }

    closed spec fn from_spec(v: Vec<Bit>) -> BitVec {
        BitVec(v)
    }
}

/// Converting a vector of bits keeps its bits.
pub proof fn lemma_from_bits(v: Vec<Bit>)
    ensures
        <BitVec as vstd::std_specs::convert::FromSpec<Vec<Bit>>>::from_spec(v)@ == bit_values(v@),
{
}

/// Error signaling binary conversion issues.
#[derive(Debug, Clone)]
pub struct BinaryConversionError {
    message: String,
}

impl BinaryConversionError {
    /// The text of the message.
    pub closed spec fn text(&self) -> Seq<char> {
        self.message@
    }

    fn new(message: String) -> (res: Self)
        ensures
            res.message@ == message@,
    {
        BinaryConversionError { message }
    }

    /// The message describing the error.
    pub fn message(&self) -> (res: &String)
        ensures
            res@ == self.text(),
    {
        &self.message
    }
}

/// The bits of any bytes are 0 or 1.
pub proof fn lemma_bits_of_bytes_are_bits(bytes: Seq<u8>)
    ensures
        is_bit_seq(bits_of_bytes(bytes)),
{
    assert forall|k: int| 0 <= k < bits_of_bytes(bytes).len() implies #[trigger] bits_of_bytes(
        bytes,
    )[k] <= 1 by {
        let b = bytes[k / 8];
        let j = k % 8;
        let sh = (7 - j) as u8;
        assert(((b >> sh) & 1u8) <= 1) by (bit_vector);
    }
}

/// Mask selecting the bit that is read next from the current byte.
#[derive(Debug)]
struct BinaryPattern(u8);

/// Position (0 to 7) of the bit selected by the mask `p`; 8 once the mask is cleared.
pub open spec fn pattern_offset(p: u8) -> int {
    if p == 0x80 {
        0
    } else if p == 0x40 {
        1
    } else if p == 0x20 {
        2
    } else if p == 0x10 {
        3
    } else if p == 0x08 {
        4
    } else if p == 0x04 {
        5
    } else if p == 0x02 {
        6
    } else if p == 0x01 {
        7
    } else {
        8
    }
}

pub open spec fn valid_pattern(p: u8) -> bool {
    p == 0x80 || p == 0x40 || p == 0x20 || p == 0x10 || p == 0x08 || p == 0x04 || p == 0x02
        || p == 0x01 || p == 0
}

pub proof fn lemma_pattern_bit(b: u8, p: u8)
    requires
        valid_pattern(p),
        p != 0,
    ensures
        (b & p != 0) <==> byte_bit(b, pattern_offset(p)) == 1,
        byte_bit(b, pattern_offset(p)) <= 1,
        valid_pattern(p >> 1),
        pattern_offset(p >> 1) == pattern_offset(p) + 1,
{
    if p == 0x80 {
        assert((b & 0x80 != 0) <==> ((b >> 7u8) & 1u8) == 1) by (bit_vector);
        assert(((b >> 7u8) & 1u8) <= 1) by (bit_vector);
    } else if p == 0x40 {
        assert((b & 0x40 != 0) <==> ((b >> 6u8) & 1u8) == 1) by (bit_vector);
        assert(((b >> 6u8) & 1u8) <= 1) by (bit_vector);
    } else if p == 0x20 {
        assert((b & 0x20 != 0) <==> ((b >> 5u8) & 1u8) == 1) by (bit_vector);
        assert(((b >> 5u8) & 1u8) <= 1) by (bit_vector);
    } else if p == 0x10 {
        assert((b & 0x10 != 0) <==> ((b >> 4u8) & 1u8) == 1) by (bit_vector);
        assert(((b >> 4u8) & 1u8) <= 1) by (bit_vector);
    } else if p == 0x08 {
        assert((b & 0x08 != 0) <==> ((b >> 3u8) & 1u8) == 1) by (bit_vector);
        assert(((b >> 3u8) & 1u8) <= 1) by (bit_vector);
    } else if p == 0x04 {
        assert((b & 0x04 != 0) <==> ((b >> 2u8) & 1u8) == 1) by (bit_vector);
        assert(((b >> 2u8) & 1u8) <= 1) by (bit_vector);
    } else if p == 0x02 {
        assert((b & 0x02 != 0) <==> ((b >> 1u8) & 1u8) == 1) by (bit_vector);
        assert(((b >> 1u8) & 1u8) <= 1) by (bit_vector);
    } else {
        assert((b & 0x01 != 0) <==> ((b >> 0u8) & 1u8) == 1) by (bit_vector);
        assert(((b >> 0u8) & 1u8) <= 1) by (bit_vector);
    }
    assert(0x80u8 >> 1u8 == 0x40u8) by (bit_vector);
    assert(0x40u8 >> 1u8 == 0x20u8) by (bit_vector);
    assert(0x20u8 >> 1u8 == 0x10u8) by (bit_vector);
    assert(0x10u8 >> 1u8 == 0x08u8) by (bit_vector);
    assert(0x08u8 >> 1u8 == 0x04u8) by (bit_vector);
    assert(0x04u8 >> 1u8 == 0x02u8) by (bit_vector);
    assert(0x02u8 >> 1u8 == 0x01u8) by (bit_vector);
    assert(0x01u8 >> 1u8 == 0x00u8) by (bit_vector);
}

impl BinaryPattern {
    fn new() -> (res: BinaryPattern)
        ensures
            res.0 == 0x80,
    {
        BinaryPattern(MOST_SIGNIFICANT_BIT_PATTERN)
    }

    fn start(&mut self)
        ensures
            final(self).0 == 0x80,
        no_unwind
    {
        self.0 = MOST_SIGNIFICANT_BIT_PATTERN;
    }

    fn is_cleared(&self) -> (res: bool)
        ensures
            res == (self.0 == 0),
    {
        self.0 == CLEARED_PATTERN
    }

    fn shift(&mut self)
        ensures
            final(self).0 == old(self).0 >> 1,
        no_unwind
    {
        self.0 = self.0 >> 1;
    }

    fn get(&self, byte: u8) -> (res: Bit)
        ensures
            res.0 == (if byte & self.0 == 0 { 0u8 } else { 1u8 }),
    {
        if byte & self.0 == 0 {
            Bit(0)
        } else {
            Bit(1)
        }
    }
}

/// Bit sequence iterator over a byte slice, most significant bit of each byte first.
#[derive(Debug)]
pub struct BitIterator<'a> {
    bytes: &'a [u8],
    index: usize,
    fetch_pattern: BinaryPattern,
}

impl<'a> BitIterator<'a> {
    #[verifier::type_invariant]
    spec fn well_formed(&self) -> bool {
        &&& valid_pattern(self.fetch_pattern.0)
        &&& self.index <= self.bytes@.len()
        &&& self.index == self.bytes@.len() ==> self.fetch_pattern.0 == 0x80
    }

    /// The bytes iterated over.
    pub closed spec fn source(&self) -> Seq<u8> {
        self.bytes@
    }

    /// Number of bits already yielded.
    pub closed spec fn position(&self) -> int {
        if self.index >= self.bytes@.len() {
            8 * self.bytes@.len() as int
        } else {
            8 * self.index + pattern_offset(self.fetch_pattern.0)
        }
    }

    /// The bits still to be yielded.
    pub open spec fn remaining(&self) -> Seq<u8> {
        bits_of_bytes(self.source()).skip(self.position())
    }

    /// Creates a bit iterator over `array`; iteration begins from the most significant bit.
    pub fn new(array: &'a [u8]) -> (res: Self)
        ensures
            res.source() == array@,
            res.remaining() == bits_of_bytes(array@),
    {
        let res = BitIterator { bytes: array, index: 0, fetch_pattern: BinaryPattern::new() };
        assert(bits_of_bytes(array@).skip(0) == bits_of_bytes(array@));
        res
    }

    /// Every bit still to be yielded is 0 or 1.
    pub proof fn lemma_remaining_are_bits(&self)
        ensures
            is_bit_seq(self.remaining()),
            0 <= self.position() <= 8 * self.source().len(),
    {
        lemma_bits_of_bytes_are_bits(self.source());
    }

    /// Yields the next bit, or `None` once every bit has been yielded.
    pub fn next(&mut self) -> (ret: Option<Bit>)
        ensures
            final(self).source() == old(self).source(),
            old(self).remaining().len() > 0 ==> ret == Some(Bit(old(self).remaining()[0]))
                && final(self).remaining() == old(self).remaining().drop_first(),
            old(self).remaining().len() == 0 ==> ret is None && final(self).remaining() == old(self).remaining(),
    {
        proof {
            use_type_invariant(&*self);
        }
        let ghost old_pos = self.position();
        let ghost all = bits_of_bytes(self.bytes@);
        if self.fetch_pattern.is_cleared() {
            let n = self.bytes.len();
            assert(self.index < n);
            let next_index = self.index + 1;
            self.fetch_pattern.start();
            self.index = next_index;
        }
        if self.index >= self.bytes.len() {
            assert(self.position() == old_pos);
            return None;
        }
        let byte = self.bytes[self.index];
        let bit = self.fetch_pattern.get(byte);
        proof {
            lemma_pattern_bit(byte, self.fetch_pattern.0);
            let k = 8 * self.index + pattern_offset(self.fetch_pattern.0);
            assert(k == old_pos);
            assert(k / 8 == self.index as int);
            assert(k % 8 == pattern_offset(self.fetch_pattern.0));
            assert(all[k] == byte_bit(byte, pattern_offset(self.fetch_pattern.0)));
        }
        self.fetch_pattern.shift();
        assert(all.skip(old_pos + 1) =~= all.skip(old_pos).drop_first());
        Some(bit)
    }

    /// Collects every remaining bit.
    pub fn collect_bits(&mut self) -> (res: Vec<Bit>)
        ensures
            bit_values(res@) == old(self).remaining(),
            final(self).remaining().len() == 0,
            final(self).source() == old(self).source(),
    {
        let mut res: Vec<Bit> = Vec::new();
        let ghost start = self.remaining();
        loop
            invariant
                self.source() == old(self).source(),
                start == old(self).remaining(),
                bit_values(res@) + self.remaining() == start,
            decreases self.remaining().len(),
        {
            let ghost before = self.remaining();
            match self.next() {
                Some(b) => {
                    res.push(b);
                    assert(bit_values(res@) + self.remaining() =~= start);
                },
                None => {
                    assert(bit_values(res@) =~= start);
                    return res;
                },
            }
        }
    }

    /// Number of bits still to be yielded (saturating at `usize::MAX`); consumes the iterator.
    pub fn count(self) -> (res: usize)
        ensures
            res == capped_count(self.remaining().len()),
    {
        self.remaining_count()
    }

    /// Yields every bit still to be yielded and returns how many there were (saturating
    /// at `usize::MAX`), as counting a borrowed iterator does.
    pub fn drain(&mut self) -> (res: usize)
        ensures
            res == capped_count(old(self).remaining().len()),
            final(self).source() == old(self).source(),
            final(self).remaining().len() == 0,
    {
        let n = self.remaining_count();
        *self = BitIterator { bytes: self.bytes, index: self.bytes.len(), fetch_pattern: BinaryPattern::new() };
        n
    }

    /// Number of bits still to be yielded (saturating at `usize::MAX`).
    pub fn remaining_count(&self) -> (res: usize)
        ensures
            res == capped_count(self.remaining().len()),
    {
        proof {
            use_type_invariant(self);
        }
        if self.index >= self.bytes.len() {
            0
        } else {
            let offset: u128 = if self.fetch_pattern.0 == 0x80 {
                0
            } else if self.fetch_pattern.0 == 0x40 {
                1
            } else if self.fetch_pattern.0 == 0x20 {
                2
            } else if self.fetch_pattern.0 == 0x10 {
                3
            } else if self.fetch_pattern.0 == 0x08 {
                4
            } else if self.fetch_pattern.0 == 0x04 {
                5
            } else if self.fetch_pattern.0 == 0x02 {
                6
            } else if self.fetch_pattern.0 == 0x01 {
                7
            } else {
                8
            };
            let left: u128 = (self.bytes.len() - self.index) as u128 * 8 - offset;
            if left > usize::MAX as u128 {
                usize::MAX
            } else {
                left as usize
            }
        }
    }
}

/// `n`, saturating at `usize::MAX`.
pub open spec fn capped_count(n: nat) -> nat {
    if n <= usize::MAX {
        n
    } else {
        usize::MAX as nat
    }
}

/// Number of binary digits of `n` (0 for 0): what `usize::BITS - n.leading_zeros()` gives.
pub open spec fn bit_length(n: nat) -> nat
    decreases n,
{
    if n == 0 {
        0
    } else {
        1 + bit_length(n / 2)
    }
}

/// Number of binary digits of `n`.
pub fn bit_length_of(n: usize) -> (res: usize)
    ensures
        res == bit_length(n as nat),
{
    proof {
        lemma_bit_length_usize(n);
    }
    let mut m = n;
    let mut count: usize = 0;
    while m > 0
        invariant
            count + bit_length(m as nat) == bit_length(n as nat),
            bit_length(n as nat) <= 64,
        decreases m,
    {
        m = m / 2;
        count = count + 1;
    }
    count
}

/// `2^k` as defined here agrees with `vstd`'s `pow2`.
proof fn lemma_pow2_nat_is_pow2(k: nat)
    ensures
        pow2_nat(k) == vstd::arithmetic::power2::pow2(k),
    decreases k,
{
    if k > 0 {
        lemma_pow2_nat_is_pow2((k - 1) as nat);
        vstd::arithmetic::power2::lemma_pow2_unfold(k);
    } else {
        vstd::arithmetic::power2::lemma2_to64();
    }
}

/// A number below `2^k` has at most `k` binary digits.
pub proof fn lemma_bit_length_below(n: nat, k: nat)
    requires
        n < pow2_nat(k),
    ensures
        bit_length(n) <= k,
    decreases k,
{
    if k > 0 && n > 0 {
        lemma_bit_length_below(n / 2, (k - 1) as nat);
    }
}

/// A `usize` has at most 64 binary digits.
pub proof fn lemma_bit_length_usize(n: usize)
    ensures
        bit_length(n as nat) <= 64,
{
    lemma_pow2_nat_is_pow2(64);
    vstd::arithmetic::power2::lemma2_to64();
    lemma_bit_length_below(n as nat, 64);
}

/// The value of `k` bits is below `2^k`.
pub proof fn lemma_bits_value_bound(s: Seq<u8>)
    requires
        is_bit_seq(s),
    ensures
        bits_value(s) < pow2_nat(s.len()),
    decreases s.len(),
{
    if s.len() > 0 {
        assert(is_bit_seq(s.drop_last())) by {
            assert forall|i: int| 0 <= i < s.drop_last().len() implies #[trigger] s.drop_last()[i]
                <= 1 by {
                assert(s.drop_last()[i] == s[i]);
            }
        }
        lemma_bits_value_bound(s.drop_last());
        assert(s.last() == s[s.len() - 1]);
        lemma_pow2_step((s.len() - 1) as nat);
    }
}

/// Monotonicity of `2^k`.
pub proof fn lemma_pow2_mono(a: nat, b: nat)
    requires
        a <= b,
    ensures
        pow2_nat(a) <= pow2_nat(b),
    decreases b,
{
    if a < b {
        lemma_pow2_mono(a, (b - 1) as nat);
        lemma_pow2_step((b - 1) as nat);
    }
}

/// `2^k` is positive.
pub proof fn lemma_pow2_pos(k: nat)
    ensures
        pow2_nat(k) >= 1,
    decreases k,
{
    if k > 0 {
        lemma_pow2_pos((k - 1) as nat);
    }
}

/// For at most 32 bits, the wrapping `u32` accumulation gives the plain value.
pub proof fn lemma_bits_fold_u32(s: Seq<u8>)
    requires
        is_bit_seq(s),
        s.len() <= 32,
    ensures
        bits_fold_u32(s) == bits_value(s),
    decreases s.len(),
{
    if s.len() > 0 {
        let d = s.drop_last();
        assert(is_bit_seq(d)) by {
            assert forall|i: int| 0 <= i < d.len() implies #[trigger] d[i] <= 1 by {
                assert(d[i] == s[i]);
            }
        }
        lemma_bits_fold_u32(d);
        lemma_bits_value_bound(d);
        lemma_pow2_mono(d.len(), 31);
        lemma_pow2_nat_is_pow2(31);
        vstd::arithmetic::power2::lemma2_to64();
        assert(s.last() == s[s.len() - 1]);
    }
}

/// The leading `k` bits of a byte, most significant first, read back as a number give
/// the byte shifted right by `8 - k`.
proof fn lemma_byte_prefix_value(b: u8, k: int)
    requires
        0 <= k <= 8,
    ensures
        bits_value(Seq::new(k as nat, |j: int| byte_bit(b, j))) == (b >> ((8 - k) as u8)),
    decreases k,
{
    let f = |j: int| byte_bit(b, j);
    if k == 0 {
        assert(b >> 8u8 == 0u8) by (bit_vector);
    } else {
        lemma_byte_prefix_value(b, k - 1);
        assert(Seq::new(k as nat, f).drop_last() =~= Seq::new((k - 1) as nat, f));
        let s: u8 = (8 - k) as u8;
        assert(2 * (b >> ((s + 1) as u8)) + ((b >> s) & 1u8) == b >> s) by (bit_vector)
            requires
                s < 8,
        ;
        assert(Seq::new(k as nat, f).last() == byte_bit(b, k - 1));
    }
}

/// Bits read back into bytes: turning bytes into their bits, each byte most significant
/// bit first, and those bits back into bytes gives the same bytes.
pub proof fn lemma_bytes_bits_roundtrip(bytes: Seq<u8>)
    ensures
        bytes_of_bits(bits_of_bytes(bytes)) == bytes,
{
    let bits = bits_of_bytes(bytes);
    assert(bits.len() / 8 == bytes.len()) by (nonlinear_arith)
        requires
            bits.len() == 8 * bytes.len(),
    ;
    assert forall|i: int| 0 <= i < bytes.len() implies #[trigger] bytes_of_bits(bits)[i]
        == bytes[i] by {
        let f = |j: int| byte_bit(bytes[i], j);
        assert(8 * i + 8 <= bits.len()) by (nonlinear_arith)
            requires
                0 <= i < bytes.len(),
                bits.len() == 8 * bytes.len(),
        ;
        assert forall|j: int| 0 <= j < 8 implies (#[trigger] bits.subrange(8 * i, 8 * i + 8)[j])
            == f(j) by {
            assert((8 * i + j) / 8 == i && (8 * i + j) % 8 == j) by (nonlinear_arith)
                requires
                    0 <= j < 8,
                    0 <= i,
            ;
        }
        assert(bits.subrange(8 * i, 8 * i + 8) =~= Seq::new(8, f));
        let b = bytes[i];
        lemma_byte_prefix_value(b, 8);
        assert(b >> 0u8 == b) by (bit_vector);
    }
    assert(bytes_of_bits(bits) =~= bytes);
}

/// The leading `k` of the 32 bits of `n`, read back as a number, give `n` shifted right
/// by `32 - k`.
proof fn lemma_u32_prefix_value(n: u32, k: int)
    requires
        0 <= k <= 32,
    ensures
        bits_value(u32_bits(n).take(k)) == (n >> ((32 - k) as u32)),
    decreases k,
{
    if k == 0 {
        assert(n >> 32u32 == 0u32) by (bit_vector);
        assert(u32_bits(n).take(0) =~= Seq::<u8>::empty());
    } else {
        lemma_u32_prefix_value(n, k - 1);
        assert(u32_bits(n).take(k).drop_last() =~= u32_bits(n).take(k - 1));
        let s: u32 = (32 - k) as u32;
        assert(2 * (n >> ((s + 1) as u32)) + ((n >> s) & 1u32) == n >> s) by (bit_vector)
            requires
                s < 32,
        ;
        assert((n >> s) & 1u32 <= 1u32) by (bit_vector);
        assert(u32_bits(n).take(k).last() == u32_bit(n, k - 1));
        assert(u32_bit(n, k - 1) == ((n >> s) & 1u32) as u8);
        assert(u32_bit(n, k - 1) as nat == ((n >> s) & 1u32) as nat);
    }
}

/// Number to bits and back: the 32 bits of a number, most significant first, converted
/// back to a number give the number (`u32::from(BitVec::from(n)) == n`).
pub proof fn lemma_u32_bits_roundtrip(n: u32)
    ensures
        bits_fold_u32(u32_bits(n)) == n,
{
    lemma_u32_prefix_value(n, 32);
    assert(u32_bits(n).take(32) =~= u32_bits(n));
    assert(n >> 0u32 == n) by (bit_vector);
    assert(is_bit_seq(u32_bits(n))) by {
        assert forall|i: int| 0 <= i < 32 implies #[trigger] u32_bits(n)[i] <= 1 by {
            let s: u32 = (31 - i) as u32;
            assert((n >> s) & 1u32 <= 1u32) by (bit_vector);
        }
    }
    lemma_bits_fold_u32(u32_bits(n));
}

/// Converting a `u32` to bits and back gives it back: `from_u32` gives 32 bits, most
/// significant first, and `to_u32` folds such bits into the number.
pub proof fn lemma_u32_conversion(n: u32, b: BitVec)
    requires
        b@ == u32_bits(n),
    ensures
        b@.len() == 32,
        forall|i: int| 0 <= i < 32 ==> #[trigger] b@[i] == ((n >> ((31 - i) as u32)) & 1u32) as u8,
        bits_fold_u32(b@) == n,
{
    lemma_u32_bits_roundtrip(n);
}

} // verus!
