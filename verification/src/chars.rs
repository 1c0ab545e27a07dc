//! Character-level text utilities: Unicode whitespace, UTF-8 widths, splitting into words
//! and lines, trimming and whitespace collapsing, and conversions between strings and
//! character vectors.
use vstd::prelude::*;

verus! {

/// The Unicode `White_Space` property (the property that `char::is_whitespace` tests).
pub open spec fn is_white_space(c: char) -> bool {
    let v = c as u32;
    ||| 0x9 <= v <= 0xd
    ||| v == 0x20
    ||| v == 0x85
    ||| v == 0xa0
    ||| v == 0x1680
    ||| 0x2000 <= v <= 0x200a
    ||| v == 0x2028
    ||| v == 0x2029
    ||| v == 0x202f
    ||| v == 0x205f
    ||| v == 0x3000
}

/// Whether `c` has the Unicode `White_Space` property.
pub fn is_whitespace(c: char) -> (res: bool)
    ensures
        res == is_white_space(c),
{
    let v = c as u32;
    (0x9 <= v && v <= 0xd) || v == 0x20 || v == 0x85 || v == 0xa0 || v == 0x1680 || (0x2000
        <= v && v <= 0x200a) || v == 0x2028 || v == 0x2029 || v == 0x202f || v == 0x205f || v
        == 0x3000
}

/// Number of bytes of the UTF-8 encoding of `c`.
pub open spec fn utf8_width(c: char) -> nat {
    let v = c as u32;
    if v < 0x80 {
        1
    } else if v < 0x800 {
        2
    } else if v < 0x10000 {
        3
    } else {
        4
    }
}

/// Number of bytes of the UTF-8 encoding of `s` (what `str::len` returns).
pub open spec fn byte_len(s: Seq<char>) -> nat
    decreases s.len(),
{
    if s.len() == 0 {
        0
    } else {
        byte_len(s.drop_last()) + utf8_width(s.last())
    }
}

/// `byte_len` capped at `usize::MAX`.
pub open spec fn capped_byte_len(s: Seq<char>) -> nat {
    if byte_len(s) <= usize::MAX {
        byte_len(s)
    } else {
        usize::MAX as nat
    }
}

/// Byte length is additive over concatenation.
pub proof fn lemma_byte_len_concat(a: Seq<char>, b: Seq<char>)
    ensures
        byte_len(a + b) == byte_len(a) + byte_len(b),
    decreases b.len(),
{
    if b.len() == 0 {
        assert(a + b == a);
    } else {
        lemma_byte_len_concat(a, b.drop_last());
        assert((a + b).drop_last() == a + b.drop_last());
    }
}

/// A text is never shorter in bytes than in characters.
pub proof fn lemma_byte_len_ge_len(s: Seq<char>)
    ensures
        byte_len(s) >= s.len(),
    decreases s.len(),
{
    if s.len() > 0 {
        lemma_byte_len_ge_len(s.drop_last());
    }
}

/// Number of UTF-8 bytes of `c` (`char::len_utf8`).
pub fn char_width(c: char) -> (res: usize)
    ensures
        res == utf8_width(c),
{
    let v = c as u32;
    if v < 0x80 {
        1
    } else if v < 0x800 {
        2
    } else if v < 0x10000 {
        3
    } else {
        4
    }
}

/// Byte length of `s`, saturating at `usize::MAX`.
pub fn byte_len_of(s: &Vec<char>) -> (res: usize)
    ensures
        res == capped_byte_len(s@),
{
    let mut total: usize = 0;
    let mut i: usize = 0;
    while i < s.len()
        invariant
            i <= s.len(),
            total == capped_byte_len(s@.take(i as int)),
        decreases s.len() - i,
    {
        let w = char_width(s[i]);
        assert(s@.take(i as int + 1).drop_last() == s@.take(i as int));
        if total <= usize::MAX - w {
            total = total + w;
        } else {
            total = usize::MAX;
        }
        i += 1;
    }
    assert(s@.take(s.len() as int) == s@);
    total
}

/// Byte length of `s`, computed exactly.
pub fn byte_len_exact(s: &Vec<char>) -> (res: u128)
    ensures
        res == byte_len(s@),
{
    let mut total: u128 = 0;
    let mut i: usize = 0;
    while i < s.len()
        invariant
            i <= s.len(),
            total == byte_len(s@.take(i as int)),
            total <= 4 * i,
        decreases s.len() - i,
    {
        let w = char_width(s[i]);
        assert(s@.take(i as int + 1).drop_last() == s@.take(i as int));
        total = total + w as u128;
        i += 1;
    }
    assert(s@.take(s.len() as int) == s@);
    total
}

/// Byte length of a string, computed exactly.
pub fn str_byte_len_exact(s: &str) -> (res: u128)
    ensures
        res == byte_len(s@),
{
    let v = chars_of(s);
    byte_len_exact(&v)
}

/// Byte length of a string, saturating at `usize::MAX`.
pub fn str_byte_len(s: &str) -> (res: usize)
    ensures
        res == capped_byte_len(s@),
{
    let v = chars_of(s);
    byte_len_of(&v)
}

/// Collects the characters of `text`, in order.
pub fn chars_of(text: &str) -> (res: Vec<char>)
    ensures
        res@ == text@,
{
    let mut res: Vec<char> = Vec::new();
    for c in it: text.chars()
        invariant
            res@ == it.seq().take(it.index()),
            it.seq() == text@,
    {
        res.push(c);
    }
    res
}

/// Appends `c` to `s` (`String::push`). A string never holds more than `isize::MAX`
/// bytes: the push panics (capacity overflow) rather than grow beyond that.
#[verifier::external_body]
pub(crate) fn push_char(s: &mut String, c: char)
    ensures
        final(s)@ == old(s)@.push(c),
        byte_len(final(s)@) <= isize::MAX,
{
    s.push(c);
}

/// Appends the characters of `chars` to `s`.
pub fn push_chars(s: &mut String, chars: &Vec<char>)
    ensures
        final(s)@ == old(s)@ + chars@,
        chars@.len() > 0 ==> byte_len(final(s)@) <= isize::MAX,
{
    let mut i: usize = 0;
    while i < chars.len()
        invariant
            i <= chars.len(),
            s@ == old(s)@ + chars@.take(i as int),
            i > 0 ==> byte_len(s@) <= isize::MAX,
        decreases chars.len() - i,
    {
        push_char(s, chars[i]);
        assert(chars@.take(i as int + 1) == chars@.take(i as int).push(chars@[i as int]));
        i += 1;
    }
    assert(chars@.take(chars.len() as int) == chars@);
}

/// Appends the characters of `text` to `s` (`String::push_str`).
pub fn push_str(s: &mut String, text: &str)
    ensures
        final(s)@ == old(s)@ + text@,
        text@.len() > 0 ==> byte_len(final(s)@) <= isize::MAX,
{
    let v = chars_of(text);
    push_chars(s, &v);
}

/// Builds a string holding the characters of `chars`, in order.
pub fn string_of(chars: &Vec<char>) -> (res: String)
    ensures
        res@ == chars@,
        byte_len(res@) <= isize::MAX,
{
    let mut res = String::new();
    push_chars(&mut res, chars);
    assert(Seq::<char>::empty() + chars@ == chars@);
    res
}

/// Copies a string.
pub fn copy_string(s: &String) -> (res: String)
    ensures
        res@ == s@,
{
    s.clone()
}

/// The views of a sequence of strings.
pub open spec fn views(v: Seq<String>) -> Seq<Seq<char>> {
    v.map_values(|w: String| w@)
}

/// The words of `s`: its maximal runs of non-whitespace characters, in order
/// (what `str::split_whitespace` yields).
pub open spec fn words_of(s: Seq<char>) -> Seq<Seq<char>>
    decreases s.len(),
{
    if s.len() == 0 {
        seq![]
    } else {
        let prev = words_of(s.drop_last());
        let c = s.last();
        if is_white_space(c) {
            prev
        } else if s.len() >= 2 && !is_white_space(s[s.len() - 2]) {
            prev.update(prev.len() - 1, prev.last().push(c))
        } else {
            prev.push(seq![c])
        }
    }
}

/// Whether `w` holds no whitespace character.
pub open spec fn no_white_space(w: Seq<char>) -> bool {
    forall|i: int| 0 <= i < w.len() ==> !is_white_space(#[trigger] w[i])
}

/// Every word is non-empty and holds no whitespace; a text that ends in a
/// non-whitespace character has at least one word.
pub proof fn lemma_words_of_shape(s: Seq<char>)
    ensures
        s.len() > 0 && !is_white_space(s.last()) ==> words_of(s).len() > 0,
        forall|k: int|
            0 <= k < words_of(s).len() ==> (#[trigger] words_of(s)[k]).len() > 0 && no_white_space(
                words_of(s)[k],
            ),
    decreases s.len(),
{
    if s.len() > 0 {
        lemma_words_of_shape(s.drop_last());
    }
}

/// Splits `text` into its whitespace-separated words (`str::split_whitespace`).
pub fn split_whitespace(text: &str) -> (res: Vec<String>)
    ensures
        views(res@) == words_of(text@),
{
    let chars = chars_of(text);
    let mut words: Vec<String> = Vec::new();
    let mut current: Vec<char> = Vec::new();
    let mut in_word = false;
    let mut i: usize = 0;
    while i < chars.len()
        invariant
            i <= chars.len(),
            chars@ == text@,
            in_word == (i > 0 && !is_white_space(chars@[i - 1])),
            in_word ==> words_of(chars@.take(i as int)) == views(words@).push(current@),
            !in_word ==> words_of(chars@.take(i as int)) == views(words@),
            in_word ==> current@.len() > 0,
        decreases chars.len() - i,
    {
        let c = chars[i];
        let ghost prefix = chars@.take(i as int + 1);
        assert(prefix.drop_last() == chars@.take(i as int));
        assert(prefix.last() == c);
        if is_whitespace(c) {
            if in_word {
                let w = string_of(&current);
                words.push(w);
                assert(views(words@) =~= views(words@.drop_last()).push(current@));
                current = Vec::new();
            }
            in_word = false;
        } else {
            if in_word {
                assert(prefix[prefix.len() - 2] == chars@[i - 1]);
                let ghost old_current = current@;
                current.push(c);
                assert(views(words@).push(current@) =~= views(words@).push(old_current).update(
                    views(words@).len() as int,
                    old_current.push(c),
                ));
            } else {
                current = Vec::new();
                current.push(c);
                assert(current@ =~= seq![c]);
            }
            in_word = true;
        }
        i += 1;
    }
    if in_word {
        let w = string_of(&current);
        words.push(w);
        assert(views(words@) =~= views(words@.drop_last()).push(current@));
    }
    assert(chars@.take(chars.len() as int) == chars@);
    words
}


/// `s` without one trailing carriage return, if it has one.
pub open spec fn strip_cr(s: Seq<char>) -> Seq<char> {
    if s.len() > 0 && s.last() == '\r' {
        s.drop_last()
    } else {
        s
    }
}

/// The lines of `s` completed by a line feed so far, and the text after the last line feed.
pub open spec fn line_parts(s: Seq<char>) -> (Seq<Seq<char>>, Seq<char>)
    decreases s.len(),
{
    if s.len() == 0 {
        (seq![], seq![])
    } else {
        let (done, cur) = line_parts(s.drop_last());
        if s.last() == '\n' {
            (done.push(strip_cr(cur)), seq![])
        } else {
            (done, cur.push(s.last()))
        }
    }
}

/// The lines of `s` (what `str::lines` yields): split at line feeds, a carriage return
/// before a line feed removed, and no empty line after a final line feed.
pub open spec fn lines_of(s: Seq<char>) -> Seq<Seq<char>> {
    let (done, cur) = line_parts(s);
    if cur.len() == 0 {
        done
    } else {
        done.push(cur)
    }
}

/// Drops one trailing carriage return, if present.
fn strip_trailing_cr(v: Vec<char>) -> (res: Vec<char>)
    ensures
        res@ == strip_cr(v@),
{
    let mut v = v;
    let n = v.len();
    if n > 0 && v[n - 1] == '\r' {
        v.pop();
    }
    v
}

/// Splits `text` into its lines (`str::lines`).
pub fn split_lines(text: &str) -> (res: Vec<String>)
    ensures
        views(res@) == lines_of(text@),
{
    let chars = chars_of(text);
    let mut lines: Vec<String> = Vec::new();
    let mut current: Vec<char> = Vec::new();
    let mut i: usize = 0;
    while i < chars.len()
        invariant
            i <= chars.len(),
            chars@ == text@,
            line_parts(chars@.take(i as int)) == (views(lines@), current@),
        decreases chars.len() - i,
    {
        let c = chars[i];
        assert(chars@.take(i as int + 1).drop_last() == chars@.take(i as int));
        if c == '\n' {
            let stripped = strip_trailing_cr(current);
            let line = string_of(&stripped);
            lines.push(line);
            assert(views(lines@) =~= views(lines@.drop_last()).push(stripped@));
            current = Vec::new();
            assert(current@ =~= Seq::<char>::empty());
        } else {
            current.push(c);
        }
        i += 1;
    }
    assert(chars@.take(chars.len() as int) == chars@);
    if current.len() > 0 {
        let line = string_of(&current);
        lines.push(line);
        assert(views(lines@) =~= views(lines@.drop_last()).push(current@));
    }
    lines
}

/// `s` without its trailing whitespace (`str::trim_end`).
pub open spec fn trim_end(s: Seq<char>) -> Seq<char>
    decreases s.len(),
{
    if s.len() > 0 && is_white_space(s.last()) {
        trim_end(s.drop_last())
    } else {
        s
    }
}

/// Removes the trailing whitespace of `s`.
pub fn trim_end_chars(s: Vec<char>) -> (res: Vec<char>)
    ensures
        res@ == trim_end(s@),
{
    let ghost orig = s@;
    let mut s = s;
    while s.len() > 0 && is_whitespace(s[s.len() - 1])
        invariant
            trim_end(s@) == trim_end(orig),
        decreases s.len(),
    {
        s.pop();
    }
    s
}

/// `s` without any trailing character that belongs to `set` (`str::trim_end_matches`).
pub open spec fn trim_end_in(s: Seq<char>, set: Seq<char>) -> Seq<char>
    decreases s.len(),
{
    if s.len() > 0 && set.contains(s.last()) {
        trim_end_in(s.drop_last(), set)
    } else {
        s
    }
}

/// Whether `c` occurs in `set`.
pub fn contains_char(set: &[char], c: char) -> (res: bool)
    ensures
        res == set@.contains(c),
{
    let mut i: usize = 0;
    while i < set.len()
        invariant
            i <= set.len(),
            forall|j: int| 0 <= j < i ==> set@[j] != c,
        decreases set.len() - i,
    {
        if set[i] == c {
            return true;
        }
        i += 1;
    }
    false
}

/// Removes every trailing character of `s` that belongs to `set`.
pub fn trim_end_matching(s: Vec<char>, set: &[char]) -> (res: Vec<char>)
    ensures
        res@ == trim_end_in(s@, set@),
{
    let ghost orig = s@;
    let mut s = s;
    while s.len() > 0 && contains_char(set, s[s.len() - 1])
        invariant
            trim_end_in(s@, set@) == trim_end_in(orig, set@),
        decreases s.len(),
    {
        s.pop();
    }
    s
}

/// `s` with every maximal run of whitespace replaced by a single ASCII space
/// (what replacing all matches of the regular expression `\s+` by `" "` gives;
/// `\s` is the Unicode `White_Space` class).
pub open spec fn collapse_white_space(s: Seq<char>) -> Seq<char>
    decreases s.len(),
{
    if s.len() == 0 {
        seq![]
    } else {
        let prev = collapse_white_space(s.drop_last());
        let c = s.last();
        if is_white_space(c) {
            if s.len() >= 2 && is_white_space(s[s.len() - 2]) {
                prev
            } else {
                prev.push(' ')
            }
        } else {
            prev.push(c)
        }
    }
}

/// Replaces every maximal run of whitespace in `s` by a single ASCII space.
pub fn collapse_whitespace(s: &Vec<char>) -> (res: Vec<char>)
    ensures
        res@ == collapse_white_space(s@),
{
    let mut res: Vec<char> = Vec::new();
    let mut i: usize = 0;
    while i < s.len()
        invariant
            i <= s.len(),
            res@ == collapse_white_space(s@.take(i as int)),
        decreases s.len() - i,
    {
        let c = s[i];
        let ghost prefix = s@.take(i as int + 1);
        assert(prefix.drop_last() == s@.take(i as int));
        if is_whitespace(c) {
            if !(i >= 1 && is_whitespace(s[i - 1])) {
                res.push(' ');
            }
        } else {
            res.push(c);
        }
        i += 1;
    }
    assert(s@.take(s.len() as int) == s@);
    res
}

} // verus!
