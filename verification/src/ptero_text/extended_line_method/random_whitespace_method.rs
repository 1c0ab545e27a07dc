//! Random Whitespace: a 1 bit doubles a space of the line, near a randomly drawn place.
use vstd::prelude::*;

use crate::binary::BitIterator;
use crate::chars::{byte_len, byte_len_exact, chars_of, is_white_space, is_whitespace, string_of, views};
use crate::method::random_whitespace::{find_char, first_index_of, lemma_first_index_bounds, rw_inserted};
use crate::ptero_common::config::{gen_range, CommonMethodConfig};
use crate::ptero_common::method::{MethodProgressStatus, MethodResult};
use crate::ptero_text::extended_line_method::{
    extended_graphemes, graphemes, joined, lemma_joined_part, ConcealError, ConcealErrorView,
    ElState,
};
use crate::ptero_text::line_separator::{separator_chars, LineSeparatorType, DEFAULT_LINE_SEPARATOR};

verus! {

/// Whether a grapheme cluster holds a whitespace character.
pub open spec fn has_white_space(c: Seq<char>) -> bool {
    exists|i: int| 0 <= i < c.len() && #[trigger] is_white_space(c[i])
}

/// Scans the clusters `cl` of a line from cluster `k`, while the byte offset of the
/// cluster in the text (`before` bytes precede the line) is at most `r`, remembering the
/// character offset of the last cluster holding whitespace (other than `sep`).
pub open spec fn cluster_scan(
    cl: Seq<Seq<char>>,
    sep: Seq<char>,
    before: nat,
    r: nat,
    k: int,
    pos: int,
) -> int
    decreases cl.len() - k,
{
    if k < 0 || k >= cl.len() || before + byte_len(joined(cl.take(k))) > r {
        pos
    } else {
        cluster_scan(
            cl,
            sep,
            before,
            r,
            k + 1,
            if has_white_space(cl[k]) && cl[k] != sep {
                joined(cl.take(k)).len() as int
            } else {
                pos
            },
        )
    }
}

/// Where the extra space goes in `line` for the drawn byte offset `r`: before the last
/// whitespace cluster at or before `r`; when there is none, before the first space; when
/// there is none either, at the end (and then no space can be doubled).
pub open spec fn rw_conceal_position(line: Seq<char>, sep: Seq<char>, before: nat, r: nat) -> int {
    cluster_scan(extended_graphemes(line), sep, before, r, 0, first_index_of(line, ' ', 0))
}

/// The outcome of doubling a space for the drawn offset `r`.
pub open spec fn rw_outcome(
    sep: Seq<char>,
    before: nat,
    r: nat,
    s: ElState,
    after: ElState,
    res: Result<MethodResult, ConcealErrorView>,
) -> bool {
    let p = rw_conceal_position(s.line, sep, before, r);
    if p == s.line.len() {
        res == Err::<MethodResult, ConcealErrorView>(
            ConcealErrorView::NotEnoughWordsOnPivotLine(s.line),
        )
    } else {
        res == Ok::<MethodResult, ConcealErrorView>(MethodResult::Success) && after == ElState {
            line: rw_inserted(s.line, p),
            words: s.words,
            bits: s.bits.drop_first(),
        }
    }
}

/// One Random Whitespace step on a line preceded by `before` bytes of text: no bit left
/// gives `NoDataLeft`; a 0 bit leaves the line; a 1 bit doubles a space near an offset
/// drawn at random among the bytes of the line.
pub open spec fn rw_step(
    sep: Seq<char>,
    before: nat,
    s: ElState,
    after: ElState,
    res: Result<MethodResult, ConcealErrorView>,
) -> bool {
    if s.bits.len() == 0 {
        res == Ok::<MethodResult, ConcealErrorView>(MethodResult::NoDataLeft) && after == s
    } else if s.bits[0] == 1 {
        exists|r: nat|
            before <= r < before + byte_len(s.line) && #[trigger] rw_outcome(
                sep,
                before,
                r,
                s,
                after,
                res,
            )
    } else {
        res == Ok::<MethodResult, ConcealErrorView>(MethodResult::Success) && after == ElState {
            bits: s.bits.drop_first(),
            ..s
        }
    }
}

/// The first cluster, from cluster `k` on, that is `" "` and follows a cluster holding
/// whitespace (`seen` tells whether the cluster before `k` held whitespace); the number
/// of clusters when there is none.
pub open spec fn double_index(cl: Seq<Seq<char>>, k: int, seen: bool) -> int
    decreases cl.len() - k,
{
    if k < 0 || k >= cl.len() {
        cl.len() as int
    } else if seen && cl[k] == seq![' '] {
        k
    } else {
        double_index(cl, k + 1, has_white_space(cl[k]))
    }
}

/// The bit read from a line and the line left for the next method: 1 when a space
/// follows whitespace, and then that space is removed.
pub open spec fn rw_revealed(line: Seq<char>) -> (u8, Seq<char>) {
    let cl = extended_graphemes(line);
    let k = double_index(cl, 0, false);
    if k < cl.len() {
        let o = joined(cl.take(k)).len() as int;
        (1, line.take(o) + line.skip(o + 1))
    } else {
        (0, line)
    }
}

/// Whether `s` holds a whitespace character.
pub(crate) fn contains_whitespace(s: &Vec<char>) -> (res: bool)
    ensures
        res == has_white_space(s@),
{
    let mut i: usize = 0;
    while i < s.len()
        invariant
            i <= s.len(),
            forall|j: int| 0 <= j < i ==> !is_white_space(#[trigger] s@[j]),
        decreases s.len() - i,
    {
        if is_whitespace(s[i]) {
            return true;
        }
        i += 1;
    }
    false
}

/// Whether two character vectors are equal.
fn same_chars(a: &Vec<char>, b: &Vec<char>) -> (res: bool)
    ensures
        res == (a@ == b@),
{
    if a.len() != b.len() {
        return false;
    }
    let mut i: usize = 0;
    while i < a.len()
        invariant
            i <= a.len(),
            a.len() == b.len(),
            forall|j: int| 0 <= j < i ==> a@[j] == b@[j],
        decreases a.len() - i,
    {
        if a[i] != b[i] {
            return false;
        }
        i += 1;
    }
    assert(a@ =~= b@);
    true
}

/// The Random Whitespace method.
pub struct RandomWhitespaceMethod {
    line_separator_type: LineSeparatorType,
}

impl RandomWhitespaceMethod {
    /// The line separator of the text.
    pub closed spec fn separator_of(&self) -> Seq<char> {
        separator_chars(self.line_separator_type)
    }

    /// The method for texts whose lines are separated by the default separator.
    pub fn new() -> (res: Self)
        ensures
            res.separator_of() == separator_chars(DEFAULT_LINE_SEPARATOR),
    {
        RandomWhitespaceMethod { line_separator_type: DEFAULT_LINE_SEPARATOR }
    }

    /// A random byte offset in `last_newline_index..cover_length`.
    fn generate_random_position(
        &self,
        last_newline_index: usize,
        cover_length: usize,
        config: &mut CommonMethodConfig,
    ) -> (res: usize)
        requires
            last_newline_index < cover_length,
        ensures
            last_newline_index <= res < cover_length,
            final(config).notifier == old(config).notifier,
    {
        gen_range(&mut config.rng, last_newline_index, cover_length)
    }

    /// Where to double a space in `line` (its characters `chars`), which `before` bytes
    /// of text precede: for some offset drawn in the bytes of the line.
    fn find_approx_whitespace_position(
        &self,
        line: &str,
        chars: &Vec<char>,
        before: usize,
        line_bytes: usize,
        config: &mut CommonMethodConfig,
    ) -> (res: usize)
        requires
            chars@ == line@,
            line_bytes == byte_len(line@),
            line_bytes > 0,
            before + line_bytes <= usize::MAX,
        ensures
            exists|r: nat|
                before <= r < before + byte_len(line@) && res == #[trigger] rw_conceal_position(
                    line@,
                    self.separator_of(),
                    before as nat,
                    r,
                ),
            res <= line@.len(),
            final(config).notifier == old(config).notifier,
    {
        let approx_position = self.generate_random_position(before, before + line_bytes, config);
        let ghost r = approx_position as nat;
        let separator = chars_of(self.line_separator_type.separator());
        let clusters = graphemes(line);
        let ghost cl = views(clusters@);
        let mut position = find_char(chars, ' ');
        proof {
            lemma_first_index_bounds(line@, ' ', 0);
        }
        let mut offset_bytes: usize = 0;
        let mut offset_chars: usize = 0;
        let chars_len = chars.len();
        let mut k: usize = 0;
        assert(cl.take(0) =~= Seq::<Seq<char>>::empty());
        loop
            invariant
                cl == extended_graphemes(line@),
                cl == views(clusters@),
                r == approx_position as nat,
                chars@ == line@,
                chars_len == chars@.len(),
                joined(cl) == line@,
                cl.len() == clusters@.len(),
                forall|i: int| 0 <= i < clusters@.len() ==> #[trigger] clusters@[i]@.len() > 0,
                separator@ == separator_chars(self.line_separator_type),
                k <= clusters.len(),
                offset_bytes == byte_len(joined(cl.take(k as int))),
                offset_chars == joined(cl.take(k as int)).len(),
                offset_chars <= line@.len(),
                offset_bytes <= line_bytes,
                line_bytes == byte_len(line@),
                before + line_bytes <= usize::MAX,
                position <= line@.len(),
                rw_conceal_position(line@, self.separator_of(), before as nat, r) == cluster_scan(
                    cl,
                    self.separator_of(),
                    before as nat,
                    r,
                    k as int,
                    position as int,
                ),
            ensures
                position <= line@.len(),
                rw_conceal_position(line@, self.separator_of(), before as nat, r) == position,
            decreases clusters.len() - k,
        {
            if k >= clusters.len() || before + offset_bytes > approx_position {
                assert(cluster_scan(cl, self.separator_of(), before as nat, r, k as int, position as int) == position);
                break ;
            }
            let cluster = chars_of(clusters[k].as_str());
            assert(cluster@ == cl[k as int]);
            proof {
                lemma_joined_part(cl, k as int);
                assert(cl.take(k as int + 1) =~= cl.take(k as int).push(cl[k as int]));
                assert(cl.take(k as int + 1).drop_last() =~= cl.take(k as int));
                crate::chars::lemma_byte_len_concat(joined(cl.take(k as int)), cl[k as int]);
                crate::chars::lemma_byte_len_concat(
                    joined(cl.take(k as int)) + cl[k as int],
                    joined(cl.skip(k as int + 1)),
                );
            }
            if contains_whitespace(&cluster) && !same_chars(&cluster, &separator) {
                position = offset_chars;
            }
            assert(offset_chars + cluster@.len() <= chars@.len());
            let cluster_bytes = byte_len_exact(&cluster);
            offset_bytes = offset_bytes + cluster_bytes as usize;
            offset_chars = offset_chars + cluster.len();
            k += 1;
        }
        position
    }

    /// Hides the next bit by doubling a space of `line`, which `before` bytes of text
    /// precede. A hidden bit is reported to the observers as one bit written.
    pub fn conceal_in_random_whitespace(
        &self,
        data: &mut BitIterator,
        line: &mut String,
        before: usize,
        config: &mut CommonMethodConfig,
    ) -> (res: Result<MethodResult, ConcealError>)
        requires
            old(line)@.len() > 0,
            byte_len(old(line)@) <= isize::MAX,
            before <= isize::MAX,
        ensures
            final(data).source() == old(data).source(),
            rw_step(
                self.separator_of(),
                before as nat,
                ElState { line: old(line)@, words: seq![], bits: old(data).remaining() },
                ElState { line: final(line)@, words: seq![], bits: final(data).remaining() },
                match res {
                    Ok(r) => Ok(r),
                    Err(e) => Err(e.view_of()),
                },
            ),
            res is Ok ==> final(line)@.len() >= old(line)@.len() && byte_len(final(line)@)
                <= isize::MAX,
            res == Ok::<MethodResult, ConcealError>(MethodResult::Success) ==> final(config).notifier.events_of()
                == old(config).notifier.events_of().push(MethodProgressStatus::DataWritten(1)),
            res != Ok::<MethodResult, ConcealError>(MethodResult::Success) ==> final(config).notifier.events_of()
                == old(config).notifier.events_of(),
            res == Ok::<MethodResult, ConcealError>(MethodResult::Success) ==> final(data).remaining().len()
                + 1 == old(data).remaining().len(),
            res == Ok::<MethodResult, ConcealError>(MethodResult::NoDataLeft) ==> final(data).remaining().len()
                == 0 && old(data).remaining().len() == 0,
            res is Err ==> final(data).remaining().len() < old(data).remaining().len(),
    {
        match data.next() {
            Some(bit) => {
                if bit.0 == 1 {
                    let mut chars = chars_of(line.as_str());
                    let line_bytes = byte_len_exact(&chars) as usize;
                    proof {
                        crate::chars::lemma_byte_len_ge_len(line@);
                    }
                    let position = self.find_approx_whitespace_position(
                        line.as_str(),
                        &chars,
                        before,
                        line_bytes,
                        config,
                    );
                    let ghost r = choose|r: nat|
                        before <= r < before + byte_len(line@) && position
                            == #[trigger] rw_conceal_position(line@, self.separator_of(), before as nat, r);
                    let ghost s0 = ElState { line: old(line)@, words: seq![], bits: old(data).remaining() };
                    if position == chars.len() {
                        let e = ConcealError::not_enough_words(line.as_str());
                        proof {
                            let after = ElState { line: line@, words: seq![], bits: data.remaining() };
                            assert(rw_outcome(self.separator_of(), before as nat, r, s0, after, Err(e.view_of())));
                        }
                        return Err(e);
                    }
                    chars.insert(position, ' ');
                    assert(chars@ =~= rw_inserted(old(line)@, position as int));
                    *line = string_of(&chars);
                    config.notifier.notify(&MethodProgressStatus::DataWritten(1));
                    proof {
                        let after = ElState { line: line@, words: seq![], bits: data.remaining() };
                        assert(after == ElState { line: rw_inserted(s0.line, position as int), words: s0.words, bits: s0.bits.drop_first() });
                        assert(rw_outcome(self.separator_of(), before as nat, r, s0, after, Ok(MethodResult::Success)));
                    }
                    Ok(MethodResult::Success)
                } else {
                    config.notifier.notify(&MethodProgressStatus::DataWritten(1));
                    Ok(MethodResult::Success)
                }
            },
            None => Ok(MethodResult::NoDataLeft),
        }
    }

    /// Reads a bit from `stego_text_line`: 1 when a space follows whitespace; then that
    /// space is removed.
    pub fn reveal_in_random_whitespace(&self, stego_text_line: &mut String) -> (res: u8)
        ensures
            (res, final(stego_text_line)@) == rw_revealed(old(stego_text_line)@),
    {
        let clusters = graphemes(stego_text_line.as_str());
        let ghost cl = views(clusters@);
        let ghost line = old(stego_text_line)@;
        let mut seen_whitespace = false;
        let mut chars = chars_of(stego_text_line.as_str());
        let mut offset_chars: usize = 0;
        let mut k: usize = 0;
        assert(cl.take(0) =~= Seq::<Seq<char>>::empty());
        while k < clusters.len()
            invariant
                chars@ == line,
                cl == views(clusters@),
                cl == extended_graphemes(line),
                joined(cl) == line,
                line == old(stego_text_line)@,
                *stego_text_line == *old(stego_text_line),
                k <= clusters.len(),
                offset_chars == joined(cl.take(k as int)).len(),
                offset_chars <= line.len(),
                double_index(cl, 0, false) == double_index(cl, k as int, seen_whitespace),
            decreases clusters.len() - k,
        {
            let cluster = chars_of(clusters[k].as_str());
            assert(cluster@ == cl[k as int]);
            proof {
                lemma_joined_part(cl, k as int);
                assert(cl.take(k as int + 1) =~= cl.take(k as int).push(cl[k as int]));
                assert(cl.take(k as int + 1).drop_last() =~= cl.take(k as int));
            }
            let is_methods_whitespace = cluster.len() == 1 && cluster[0] == ' ';
            assert(is_methods_whitespace <==> cl[k as int] == seq![' ']) by {
                if is_methods_whitespace {
                    assert(cluster@ =~= seq![' ']);
                }
            }
            if seen_whitespace && is_methods_whitespace {
                assert(line.subrange(offset_chars as int, offset_chars + 1) == cl[k as int]);
                chars.remove(offset_chars);
                assert(chars@ =~= line.take(offset_chars as int) + line.skip(offset_chars + 1));
                *stego_text_line = string_of(&chars);
                return 1;
            }
            seen_whitespace = contains_whitespace(&cluster);
            assert(joined(cl.take(k as int)).len() + cl[k as int].len() <= line.len());
            assert(offset_chars + cluster.len() <= chars.len());
            offset_chars = offset_chars + cluster.len();
            k += 1;
        }
        0
    }
}

} // verus!
