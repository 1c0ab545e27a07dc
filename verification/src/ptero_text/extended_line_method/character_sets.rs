//! Unicode character sets whose characters stand for small numbers: the character at
//! position `i` of a set stands for `i + 1`, and no character for 0.
use vstd::prelude::*;

verus! {

/// Position plus one of the first occurrence of `c` in `set`, or 0 when it does not occur.
pub open spec fn char_number(set: Seq<char>, c: char) -> nat
    decreases set.len(),
{
    if set.len() == 0 {
        0
    } else if set.last() == c && !set.drop_last().contains(c) {
        set.len()
    } else if set.drop_last().contains(c) {
        char_number(set.drop_last(), c)
    } else {
        0
    }
}

/// Access to a set of Unicode characters.
///
/// Implementations provide `get_set`; the size of the set should be a power of 2 minus
/// one, so that every number of `bitrate` bits names a character or none.
pub trait GetCharacterSet {
    /// The characters of the set, in order.
    spec fn charset(&self) -> Seq<char>;

    /// Returns the characters of the set.
    fn get_set(&self) -> (res: &[char])
        ensures
            res@ == self.charset(),
    ;

    /// Number of characters in the set.
    fn size(&self) -> (res: usize)
        ensures
            res == self.charset().len(),
    {
        self.get_set().len()
    }

    /// Maps a number to the character that stands for it: `None` for 0, the character
    /// at position `index - 1` otherwise. Numbers above the size of the set are not accepted.
    fn get_character(&self, index: usize) -> (res: Option<char>)
        requires
            index <= self.charset().len(),
        ensures
            index == 0 ==> res is None,
            index > 0 ==> res == Some(self.charset()[index - 1]),
    {
        if index == 0 {
            None
        } else {
            let set = self.get_set();
            Some(set[index - 1])
        }
    }

    /// Returns the number the character stands for: its position plus one, or 0 if it
    /// is not in the set.
    fn character_to_bits(&self, chr: &char) -> (res: usize)
        ensures
            res == char_number(self.charset(), *chr),
    {
        let set = self.get_set();
        let mut i: usize = 0;
        while i < set.len()
            invariant
                i <= set@.len(),
                set@ == self.charset(),
                !set@.take(i as int).contains(*chr),
            decreases set.len() - i,
        {
            if set[i] == *chr {
                proof {
                    lemma_char_number_first(set@, *chr, i as int);
                }
                return i + 1;
            }
            assert(set@.take(i as int + 1) =~= set@.take(i as int).push(set@[i as int]));
            i += 1;
        }
        proof {
            assert(set@.take(set@.len() as int) =~= set@);
            lemma_char_number_absent(set@, *chr);
        }
        0
    }
}

/// Whether the characters of `set` are pairwise distinct.
pub open spec fn distinct_chars(set: Seq<char>) -> bool {
    forall|i: int, j: int| 0 <= i < j < set.len() ==> #[trigger] set[i] != #[trigger] set[j]
}

/// In a set of distinct characters, the character at position `i` stands for `i + 1`.
pub proof fn lemma_char_number_of_member(set: Seq<char>, i: int)
    requires
        distinct_chars(set),
        0 <= i < set.len(),
    ensures
        char_number(set, set[i]) == i + 1,
{
    assert(!set.take(i).contains(set[i])) by {
        if set.take(i).contains(set[i]) {
            let j = choose|j: int| 0 <= j < set.take(i).len() && set.take(i)[j] == set[i];
            assert(set[j] == set[i]);
        }
    }
    lemma_char_number_first(set, set[i], i);
}

/// The number of a character whose first occurrence is at `i` is `i + 1`.
pub proof fn lemma_char_number_first(set: Seq<char>, c: char, i: int)
    requires
        0 <= i < set.len(),
        set[i] == c,
        !set.take(i).contains(c),
    ensures
        char_number(set, c) == i + 1,
    decreases set.len(),
{
    if i == set.len() - 1 {
        assert(set.drop_last() =~= set.take(i));
    } else {
        assert(set.drop_last()[i] == c);
        assert(set.drop_last().take(i) =~= set.take(i));
        lemma_char_number_first(set.drop_last(), c, i);
    }
}

/// A character that does not occur has number 0.
pub proof fn lemma_char_number_absent(set: Seq<char>, c: char)
    requires
        !set.contains(c),
    ensures
        char_number(set, c) == 0,
    decreases set.len(),
{
    if set.len() > 0 {
        assert(!set.drop_last().contains(c)) by {
            if set.drop_last().contains(c) {
                let j = choose|j: int| 0 <= j < set.drop_last().len() && set.drop_last()[j] == c;
                assert(set[j] == c);
            }
        }
        assert(set.last() != c) by {
            assert(set[set.len() - 1] == set.last());
        }
    }
}

/// Full set of used Unicode whitespace and invisible special chars - from different width spaces
/// to formatting chars and zero-width spaces.
pub const FULL_UNICODE_CHARACTER_SET: [char; 31] = [
    '\u{0020}', '\u{2000}', '\u{2001}', '\u{2002}', '\u{2003}', '\u{2004}', '\u{2005}', '\u{2006}',
    '\u{2007}', '\u{2009}', '\u{200A}', '\u{200B}', '\u{200C}', '\u{200D}', '\u{200E}', '\u{2028}',
    '\u{202A}', '\u{202C}', '\u{202D}', '\u{202F}', '\u{205F}', '\u{2060}', '\u{2061}', '\u{2062}',
    '\u{2063}', '\u{2064}', '\u{2066}', '\u{2068}', '\u{2069}', '\u{3000}', '\u{FEFF}',
];

/// Set of characters used to encode messages on Twitter
pub const TWITTER_UNICODE_CHARACTER_SET: [char; 15] = [
    '\u{0020}', '\u{2000}', '\u{2001}', '\u{2002}', '\u{2003}', '\u{2004}', '\u{2005}', '\u{2006}',
    '\u{2007}', '\u{2009}', '\u{200A}', '\u{200B}', '\u{200C}', '\u{200D}', '\u{FEFF}',
];

/// Set providing pre-defined characters for 4-bit encoding capacity.
pub const FOUR_BIT_CHARACTER_SET: [char; 15] = [
    '\u{0020}', '\u{2000}', '\u{2001}', '\u{2002}', '\u{2003}', '\u{2004}', '\u{2005}', '\u{2006}',
    '\u{2007}', '\u{2009}', '\u{200A}', '\u{200B}', '\u{200C}', '\u{200D}', '\u{200E}',
];

/// Set providing pre-defined characters for 3-bit encoding capacity.
pub const THREE_BIT_CHARACTER_SET: [char; 7] = [
    '\u{0020}', '\u{2000}', '\u{2001}', '\u{2002}', '\u{2003}', '\u{2004}', '\u{2005}',
];

/// Set providing pre-defined characters for 2-bit encoding capacity.
pub const TWO_BIT_CHARACTER_SET: [char; 3] = ['\u{0020}', '\u{2000}', '\u{2001}'];

/// Set providing pre-defined characters for 1-bit encoding capacity.
///
/// This is the base Extended Line algorithm behaviour.
pub const ONE_BIT_CHARACTER_SET: [char; 1] = ['\u{0020}'];

/// Enum representing possible character sets e.g. [FULL_UNICODE_CHARACTER_SET].
#[derive(Debug, Clone, Copy, PartialEq, Eq, Structural)]
pub enum CharacterSetType {
    Full,
    FourBit,
    ThreeBit,
    TwoBit,
    OneBit,
    Twitter,
}

impl GetCharacterSet for CharacterSetType {
    open spec fn charset(&self) -> Seq<char> {
        match *self {
            CharacterSetType::Full => FULL_UNICODE_CHARACTER_SET@,
            CharacterSetType::FourBit => FOUR_BIT_CHARACTER_SET@,
            CharacterSetType::ThreeBit => THREE_BIT_CHARACTER_SET@,
            CharacterSetType::TwoBit => TWO_BIT_CHARACTER_SET@,
            CharacterSetType::OneBit => ONE_BIT_CHARACTER_SET@,
            CharacterSetType::Twitter => TWITTER_UNICODE_CHARACTER_SET@,
        }
    }

    /// Returns pre-defined character sets based on enum value.
    fn get_set(&self) -> (res: &[char]) {
        match *self {
            CharacterSetType::Full => &FULL_UNICODE_CHARACTER_SET,
            CharacterSetType::FourBit => &FOUR_BIT_CHARACTER_SET,
            CharacterSetType::ThreeBit => &THREE_BIT_CHARACTER_SET,
            CharacterSetType::TwoBit => &TWO_BIT_CHARACTER_SET,
            CharacterSetType::OneBit => &ONE_BIT_CHARACTER_SET,
            CharacterSetType::Twitter => &TWITTER_UNICODE_CHARACTER_SET,
        }
    }
}

/// Each type of set gives its own table: `Full` the full Unicode set, `FourBit`,
/// `ThreeBit`, `TwoBit` and `OneBit` the sets of that many bits, `Twitter` the set used
/// on Twitter.
pub proof fn lemma_charset_tables()
    ensures
        CharacterSetType::Full.charset() == FULL_UNICODE_CHARACTER_SET@,
        CharacterSetType::FourBit.charset() == FOUR_BIT_CHARACTER_SET@,
        CharacterSetType::ThreeBit.charset() == THREE_BIT_CHARACTER_SET@,
        CharacterSetType::TwoBit.charset() == TWO_BIT_CHARACTER_SET@,
        CharacterSetType::OneBit.charset() == ONE_BIT_CHARACTER_SET@,
        CharacterSetType::Twitter.charset() == TWITTER_UNICODE_CHARACTER_SET@,
{
}

/// The sets of one to four bits are the first 1, 3, 7 and 15 characters of the full set
/// of 31; the Twitter set has the same first 14 characters as the four-bit set, and ends
/// with U+FEFF where the four-bit set ends with U+200E (so U+200E stands for 15 in the
/// four-bit set and for nothing in the Twitter set).
pub proof fn lemma_charset_prefixes()
    ensures
        CharacterSetType::Full.charset().len() == 31,
        CharacterSetType::OneBit.charset() == CharacterSetType::Full.charset().take(1),
        CharacterSetType::TwoBit.charset() == CharacterSetType::Full.charset().take(3),
        CharacterSetType::ThreeBit.charset() == CharacterSetType::Full.charset().take(7),
        CharacterSetType::FourBit.charset() == CharacterSetType::Full.charset().take(15),
        CharacterSetType::Twitter.charset().len() == 15,
        CharacterSetType::Twitter.charset().take(14) == CharacterSetType::FourBit.charset().take(14),
        CharacterSetType::FourBit.charset()[14] == '\u{200E}',
        CharacterSetType::Twitter.charset()[14] == '\u{FEFF}',
        char_number(CharacterSetType::FourBit.charset(), '\u{200E}') == 15,
        char_number(CharacterSetType::Twitter.charset(), '\u{200E}') == 0,
{
    let full = CharacterSetType::Full.charset();
    let four = CharacterSetType::FourBit.charset();
    let tw = CharacterSetType::Twitter.charset();
    assert(CharacterSetType::OneBit.charset() =~= full.take(1));
    assert(CharacterSetType::TwoBit.charset() =~= full.take(3));
    assert(CharacterSetType::ThreeBit.charset() =~= full.take(7));
    assert(four =~= full.take(15));
    assert(tw.take(14) =~= four.take(14));
    crate::ptero_text::extended_line_method::roundtrip::lemma_charset_chars(CharacterSetType::FourBit);
    lemma_char_number_of_member(four, 14);
    assert(!tw.contains('\u{200E}')) by {
        if tw.contains('\u{200E}') {
            let j = choose|j: int| 0 <= j < tw.len() && tw[j] == '\u{200E}';
            assert(tw[j] != '\u{200E}');
        }
    }
    lemma_char_number_absent(tw, '\u{200E}');
}

} // verus!
