//! Revealing gives back what hiding put in a text: the shapes of the lines the Extended
//! Line method builds, how each submethod reads them back, and the law that ties
//! `conceal_rel` to `reveal_text`.
use vstd::prelude::*;

use crate::binary::{is_bit_seq, pow2_nat, u32_bits};
use crate::chars::{is_white_space, no_white_space, words_of};
use crate::method::random_whitespace::{first_index_of, rw_inserted};
use crate::method::trailing_unicode::{lemma_charset_shape, tu_rate};
use crate::ptero_common::method::MethodResult;
use crate::ptero_text::extended_line_method::character_sets::{
    char_number, distinct_chars, lemma_char_number_absent, CharacterSetType, GetCharacterSet,
};
use crate::ptero_text::extended_line_method::line_extend_method::{
    appendix, clusters_of_words, le_revealed, le_step, line_count, pivot_line, pivot_line_from,
};
use crate::ptero_text::extended_line_method::random_whitespace_method::{
    cluster_scan, double_index, has_white_space, rw_conceal_position, rw_outcome, rw_revealed,
    rw_step,
};
use crate::ptero_text::extended_line_method::trailing_whitespace_method::{
    lemma_lsb_value_bound, lemma_trailing_roundtrip, lsb_value, tw_index, tw_revealed,
    tw_step,
};
use crate::ptero_text::extended_line_method::{
    before_combining_without_cr, conceal_line, conceal_rel, el_chain, el_reveal_from, el_step, extended_graphemes, glen,
    single_chars,
    joined, lemma_segments_len, prepend_text, reveal_line, reveal_text, segments,
    trailing_lines, variant_actions, ConcealErrorView, ElSetup, ElState, MethodActions, Variant,
};

verus! {

/// Every character of `t` is in `alpha`.
pub open spec fn plain_in(t: Seq<char>, alpha: Set<char>) -> bool {
    forall|i: int| 0 <= i < t.len() ==> alpha.contains(#[trigger] t[i])
}

/// Each character of `t` as a cluster of its own.
pub open spec fn singles(t: Seq<char>) -> Seq<Seq<char>> {
    single_chars(t)
}

/// Whether the segmentation splits every text over `alpha` into single characters; it
/// does for the characters before U+0300 but the carriage return
/// (`lemma_latin_clusters`).
pub open spec fn clusters_are_chars(alpha: Set<char>) -> bool {
    forall|t: Seq<char>| plain_in(t, alpha) ==> #[trigger] extended_graphemes(t) == singles(t)
}

/// The characters before U+0300 (Latin letters with their accents, and the other
/// characters before the combining marks) but the carriage return.
pub open spec fn latin_chars() -> Set<char> {
    Set::new(|c: char| (c as u32) < 0x300 && c != '\r')
}

/// Text of characters before U+0300 without a carriage return splits into single
/// characters.
pub proof fn lemma_latin_clusters()
    ensures
        clusters_are_chars(latin_chars()),
{
    reveal(extended_graphemes);
    assert forall|t: Seq<char>| plain_in(t, latin_chars()) implies #[trigger] extended_graphemes(t)
        == singles(t) by {
        assert forall|i: int| 0 <= i < t.len() implies (#[trigger] t[i] as u32) < 0x300 && t[i] != '\r' by {
            assert(latin_chars().contains(t[i]));
        }
        assert(before_combining_without_cr(t));
    }
}

/// The characters before U+0300 but the carriage return make an alphabet the law can
/// speak of, for every character set.
pub proof fn lemma_latin_alphabet(cs: CharacterSetType)
    ensures
        alphabet_ok(latin_chars(), cs),
{
    assert((' ' as u32) == 0x20);
    assert forall|c: char| latin_chars().contains(c) && c != ' ' implies #[trigger] char_number(
        cs.charset(),
        c,
    ) == 0 by {
        lemma_charset_chars(cs);
        assert(!cs.charset().contains(c)) by {
            if cs.charset().contains(c) {
                let i = choose|i: int| 0 <= i < cs.charset().len() && cs.charset()[i] == c;
                assert(cs.charset()[i] == ' ' || (cs.charset()[i] as u32) >= 0x2000);
            }
        }
        lemma_char_number_absent(cs.charset(), c);
    }
}

/// An alphabet the law can speak of, for the character set `cs`: it holds the space, no
/// carriage return, and no character of the set but the space.
pub open spec fn alphabet_ok(alpha: Set<char>, cs: CharacterSetType) -> bool {
    &&& alpha.contains(' ')
    &&& !alpha.contains('\r')
    &&& forall|c: char| alpha.contains(c) && c != ' ' ==> #[trigger] char_number(cs.charset(), c) == 0
}

/// A cover word over `alpha`: non-empty, without whitespace.
pub open spec fn word_in(w: Seq<char>, alpha: Set<char>) -> bool {
    w.len() > 0 && plain_in(w, alpha) && no_white_space(w)
}

/// Number of non-whitespace characters of `s`.
pub open spec fn solid_count(s: Seq<char>) -> nat
    decreases s.len(),
{
    if s.len() == 0 {
        0
    } else {
        solid_count(s.drop_last()) + if is_white_space(s.last()) {
            0nat
        } else {
            1nat
        }
    }
}

/// Number of words of `s`: the non-whitespace characters at the start of `s` or after
/// whitespace.
pub open spec fn word_starts(s: Seq<char>) -> nat
    decreases s.len(),
{
    if s.len() == 0 {
        0
    } else {
        word_starts(s.drop_last()) + if !is_white_space(s.last()) && (s.len() == 1
            || is_white_space(s[s.len() - 2])) {
            1nat
        } else {
            0nat
        }
    }
}

/// What Line Extension compares with the pivot: the clusters of the words plus one
/// space between each two.
pub open spec fn le_total(s: Seq<char>) -> int {
    clusters_of_words(words_of(s)) + (words_of(s).len() - 1)
}

/// A text over the alphabet splits into single characters.
pub proof fn lemma_plain_clusters(alpha: Set<char>, t: Seq<char>)
    requires
        clusters_are_chars(alpha),
        plain_in(t, alpha),
    ensures
        extended_graphemes(t) == singles(t),
        extended_graphemes(t).len() == t.len(),
{
    assert(extended_graphemes(t) == singles(t));
}

/// Parts of a text over the alphabet are over the alphabet.
pub proof fn lemma_plain_parts(alpha: Set<char>, t: Seq<char>)
    requires
        plain_in(t, alpha),
    ensures
        forall|i: int, j: int| 0 <= i <= j <= t.len() ==> #[trigger] plain_in(t.subrange(i, j), alpha),
        t.len() > 0 ==> plain_in(t.drop_last(), alpha),
{
    assert forall|i: int, j: int| 0 <= i <= j <= t.len() implies #[trigger] plain_in(t.subrange(i, j), alpha) by {
        assert forall|k: int| 0 <= k < t.subrange(i, j).len() implies alpha.contains(#[trigger] t.subrange(i, j)[k]) by {
            assert(t.subrange(i, j)[k] == t[i + k]);
        }
    }
    if t.len() > 0 {
        assert(t.drop_last() == t.subrange(0, t.len() - 1));
    }
}

/// The words of a text over the alphabet are words over it, and Line Extension counts its
/// non-whitespace characters and its word starts.
pub proof fn lemma_words_counts(alpha: Set<char>, s: Seq<char>)
    requires
        clusters_are_chars(alpha),
        plain_in(s, alpha),
    ensures
        words_of(s).len() == word_starts(s),
        clusters_of_words(words_of(s)) == solid_count(s),
        forall|k: int| 0 <= k < words_of(s).len() ==> word_in(#[trigger] words_of(s)[k], alpha),
    decreases s.len(),
{
    if s.len() > 0 {
        let p = s.drop_last();
        lemma_plain_parts(alpha, s);
        lemma_words_counts(alpha, p);
        let prev = words_of(p);
        let c = s.last();
        assert(alpha.contains(c)) by {
            assert(s[s.len() - 1] == c);
        }
        if is_white_space(c) {
        } else if s.len() >= 2 && !is_white_space(s[s.len() - 2]) {
            assert(p.len() >= 1 && p.last() == s[s.len() - 2]);
            crate::chars::lemma_words_of_shape(p);
            assert(prev.len() > 0);
            let lw = prev.last();
            assert(lw == prev[prev.len() - 1]);
            let nw = lw.push(c);
            let cur = prev.update(prev.len() - 1, nw);
            assert(cur.drop_last() =~= prev.drop_last());
            assert(cur.last() == nw);
            assert(plain_in(nw, alpha)) by {
                assert forall|k: int| 0 <= k < nw.len() implies alpha.contains(#[trigger] nw[k]) by {
                    if k < lw.len() {
                        assert(nw[k] == lw[k]);
                    }
                }
            }
            assert(no_white_space(nw)) by {
                assert forall|k: int| 0 <= k < nw.len() implies !is_white_space(#[trigger] nw[k]) by {
                    if k < lw.len() {
                        assert(nw[k] == lw[k]);
                    }
                }
            }
            lemma_plain_clusters(alpha, nw);
            lemma_plain_clusters(alpha, lw);
            assert(word_starts(s) == word_starts(p));
            assert(forall|k: int| 0 <= k < cur.len() - 1 ==> cur[k] == prev[k]);
        } else {
            let nw = seq![c];
            let cur = prev.push(nw);
            assert(cur.drop_last() =~= prev);
            assert(plain_in(nw, alpha));
            assert(no_white_space(nw));
            lemma_plain_clusters(alpha, nw);
            assert(forall|k: int| 0 <= k < cur.len() - 1 ==> cur[k] == prev[k]);
        }
    }
}

/// Non-whitespace characters add up over concatenation.
pub proof fn lemma_solid_concat(a: Seq<char>, b: Seq<char>)
    ensures
        solid_count(a + b) == solid_count(a) + solid_count(b),
    decreases b.len(),
{
    if b.len() == 0 {
        assert(a + b =~= a);
    } else {
        lemma_solid_concat(a, b.drop_last());
        assert((a + b).drop_last() =~= a + b.drop_last());
        assert((a + b).last() == b.last());
    }
}

/// Whether the last character of `a` and the first of `b` are both non-whitespace, so
/// that a word runs across the two.
pub open spec fn glued(a: Seq<char>, b: Seq<char>) -> bool {
    a.len() > 0 && b.len() > 0 && !is_white_space(a.last()) && !is_white_space(b[0])
}

/// Word starts add up over concatenation, but for a word running across the two.
pub proof fn lemma_starts_concat(a: Seq<char>, b: Seq<char>)
    ensures
        word_starts(a + b) + (if glued(a, b) { 1int } else { 0int }) == word_starts(a) + word_starts(b),
    decreases b.len(),
{
    if b.len() == 0 {
        assert(a + b =~= a);
    } else {
        let b1 = b.drop_last();
        lemma_starts_concat(a, b1);
        assert((a + b).drop_last() =~= a + b1);
        assert((a + b).last() == b.last());
        if b1.len() == 0 {
            if a.len() > 0 {
                assert((a + b)[(a + b).len() - 2] == a.last());
            }
            assert(b[0] == b.last());
        } else {
            assert((a + b)[(a + b).len() - 2] == b[b.len() - 2]);
            assert(b1[0] == b[0]);
            assert(glued(a, b) == glued(a, b1));
        }
    }
}

/// A plain word has no whitespace: all its characters count, and it starts one word.
pub proof fn lemma_word_counts(w: Seq<char>)
    requires
        no_white_space(w),
    ensures
        solid_count(w) == w.len(),
        word_starts(w) == if w.len() > 0 { 1nat } else { 0nat },
    decreases w.len(),
{
    if w.len() > 0 {
        let p = w.drop_last();
        assert(no_white_space(p)) by {
            assert forall|k: int| 0 <= k < p.len() implies !is_white_space(#[trigger] p[k]) by {
                assert(p[k] == w[k]);
            }
        }
        lemma_word_counts(p);
        assert(!is_white_space(w[w.len() - 1]));
        if w.len() >= 2 {
            assert(!is_white_space(w[w.len() - 2]));
        }
    }
}

/// What Line Extension compares with the pivot, for a text over the alphabet.
pub proof fn lemma_le_total(alpha: Set<char>, s: Seq<char>)
    requires
        clusters_are_chars(alpha),
        plain_in(s, alpha),
    ensures
        le_total(s) == solid_count(s) + word_starts(s) - 1,
{
    lemma_words_counts(alpha, s);
}

/// The words `ws` with one space between each two.
pub open spec fn spaced(ws: Seq<Seq<char>>) -> Seq<char>
    decreases ws.len(),
{
    if ws.len() == 0 {
        seq![]
    } else if ws.len() == 1 {
        ws[0]
    } else {
        spaced(ws.drop_last()) + seq![' '] + ws.last()
    }
}

/// Whether the whitespace of `s` is single spaces between non-whitespace characters.
pub open spec fn single_spaced(s: Seq<char>) -> bool {
    forall|j: int|
        0 <= j < s.len() && is_white_space(#[trigger] s[j]) ==> s[j] == ' ' && 0 < j && j + 1 < s.len()
            && !is_white_space(s[j - 1]) && !is_white_space(s[j + 1])
}

/// The shape of words laid out with single spaces: over the alphabet, single spaced, starting
/// and ending with a word, and Line Extension counts its length.
pub proof fn lemma_spaced_shape(alpha: Set<char>, ws: Seq<Seq<char>>)
    requires
        alpha.contains(' '),
        ws.len() > 0,
        forall|k: int| 0 <= k < ws.len() ==> word_in(#[trigger] ws[k], alpha),
    ensures
        spaced(ws).len() > 0,
        plain_in(spaced(ws), alpha),
        single_spaced(spaced(ws)),
        !is_white_space(spaced(ws)[0]),
        !is_white_space(spaced(ws).last()),
        solid_count(spaced(ws)) + ws.len() - 1 == spaced(ws).len(),
        word_starts(spaced(ws)) == ws.len(),
    decreases ws.len(),
{
    let s = spaced(ws);
    if ws.len() == 1 {
        assert(word_in(ws[0], alpha));
        lemma_word_counts(ws[0]);
        assert(single_spaced(s));
    } else {
        let p = ws.drop_last();
        assert forall|k: int| 0 <= k < p.len() implies word_in(#[trigger] p[k], alpha) by {
            assert(p[k] == ws[k]);
        }
        lemma_spaced_shape(alpha, p);
        let a = spaced(p);
        let w = ws.last();
        assert(word_in(ws[ws.len() - 1], alpha));
        assert(w == ws[ws.len() - 1]);
        lemma_word_counts(w);
        let sp = seq![' '];
        assert(s == a + sp + w);
        lemma_solid_concat(a, sp);
        lemma_solid_concat(a + sp, w);
        lemma_starts_concat(a, sp);
        lemma_starts_concat(a + sp, w);
        assert(is_white_space(' ')) by {
            assert((' ' as u32) == 0x20);
        }
        assert(solid_count(sp) == 0) by {
            assert(sp.drop_last() =~= Seq::<char>::empty());
            assert(solid_count(Seq::<char>::empty()) == 0);
            assert(sp.last() == ' ');
        }
        assert(word_starts(sp) == 0) by {
            assert(sp.drop_last() =~= Seq::<char>::empty());
            assert(word_starts(Seq::<char>::empty()) == 0);
            assert(sp.last() == ' ');
        }
        assert((a + sp).last() == ' ');
        assert(plain_in(s, alpha)) by {
            assert forall|k: int| 0 <= k < s.len() implies alpha.contains(#[trigger] s[k]) by {
                if k < a.len() {
                    assert(s[k] == a[k]);
                } else if k == a.len() {
                    assert(s[k] == ' ');
                } else {
                    assert(s[k] == w[k - a.len() - 1]);
                }
            }
        }
        assert(single_spaced(s)) by {
            assert forall|j: int| 0 <= j < s.len() && is_white_space(#[trigger] s[j]) implies s[j] == ' ' && 0
                < j && j + 1 < s.len() && !is_white_space(s[j - 1]) && !is_white_space(s[j + 1]) by {
                if j < a.len() {
                    assert(s[j] == a[j]);
                    assert(s[j - 1] == a[j - 1]);
                    if j + 1 < a.len() {
                        assert(s[j + 1] == a[j + 1]);
                    }
                } else if j == a.len() {
                    assert(s[j - 1] == a.last());
                    assert(s[j + 1] == w[0]);
                } else {
                    assert(s[j] == w[j - a.len() - 1]);
                }
            }
        }
        assert(s[0] == a[0]);
        assert(s.last() == w.last());
        assert(w.last() == w[w.len() - 1]);
    }
}

/// Building a line from plain words lays the words it takes out with single spaces,
/// within the pivot.
pub proof fn lemma_pivot_line_from_spaced(alpha: Set<char>, ws: Seq<Seq<char>>, pivot: nat, i: int, cur: nat)
    requires
        alpha.contains(' '),
        clusters_are_chars(alpha),
        forall|k: int| 0 <= k < ws.len() ==> word_in(#[trigger] ws[k], alpha),
        0 <= i <= ws.len(),
        cur == spaced(ws.take(i)).len(),
        cur <= pivot,
    ensures
        ({
            let r = pivot_line_from(ws, pivot, i, cur);
            &&& i <= r.0 <= ws.len()
            &&& spaced(ws.take(i)) + r.1 == spaced(ws.take(r.0))
            &&& spaced(ws.take(r.0)).len() <= pivot
        }),
    decreases ws.len() - i,
{
    if i < ws.len() && cur + glen(appendix(ws[i], cur)) <= pivot {
        let w = ws[i];
        let app = appendix(w, cur);
        let t1 = ws.take(i + 1);
        assert(t1.drop_last() =~= ws.take(i));
        assert(t1.last() == w);
        assert(word_in(w, alpha));
        if i == 0 {
            assert(t1 =~= seq![w]);
            assert(spaced(ws.take(0)) =~= Seq::<char>::empty()) by {
                assert(ws.take(0) =~= Seq::<Seq<char>>::empty());
            }
            assert(spaced(t1) == app);
        } else {
            assert forall|k: int| 0 <= k < ws.take(i).len() implies word_in(#[trigger] ws.take(i)[k], alpha) by {
                assert(ws.take(i)[k] == ws[k]);
            }
            lemma_spaced_shape(alpha, ws.take(i));
            assert(spaced(t1) == spaced(ws.take(i)) + seq![' '] + w);
            assert(app == seq![' '] + w);
            assert(spaced(t1) =~= spaced(ws.take(i)) + app);
        }
        assert(plain_in(app, alpha)) by {
            assert forall|k: int| 0 <= k < app.len() implies alpha.contains(#[trigger] app[k]) by {
                if cur > 0 {
                    if k > 0 {
                        assert(app[k] == w[k - 1]);
                    }
                } else {
                    assert(app[k] == w[k]);
                }
            }
        }
        lemma_plain_clusters(alpha, app);
        assert(spaced(t1).len() == cur + app.len());
        lemma_pivot_line_from_spaced(alpha, ws, pivot, i + 1, cur + glen(app));
        let next = pivot_line_from(ws, pivot, i + 1, cur + glen(app));
        assert(spaced(ws.take(i)) + (app + next.1) =~= spaced(ws.take(i)) + app + next.1);
    } else {
        assert(spaced(ws.take(i)) + Seq::<char>::empty() =~= spaced(ws.take(i)));
    }
}

/// The line built from plain words: the first `line_count` words with single spaces,
/// within the pivot.
pub proof fn lemma_pivot_line_spaced(alpha: Set<char>, ws: Seq<Seq<char>>, pivot: nat)
    requires
        alpha.contains(' '),
        clusters_are_chars(alpha),
        forall|k: int| 0 <= k < ws.len() ==> word_in(#[trigger] ws[k], alpha),
    ensures
        0 <= line_count(ws, pivot) <= ws.len(),
        pivot_line(ws, pivot) == spaced(ws.take(line_count(ws, pivot))),
        pivot_line(ws, pivot).len() <= pivot,
        pivot_line(ws, pivot).len() > 0 ==> line_count(ws, pivot) > 0,
{
    assert(ws.take(0) =~= Seq::<Seq<char>>::empty());
    assert(spaced(ws.take(0)) =~= Seq::<char>::empty());
    lemma_pivot_line_from_spaced(alpha, ws, pivot, 0, 0);
    let r = pivot_line_from(ws, pivot, 0, 0);
    assert(Seq::<char>::empty() + r.1 =~= r.1);
    if r.0 == 0 {
        assert(ws.take(r.0) =~= Seq::<Seq<char>>::empty());
    }
}

/// The first `c` of `s` from `i` on: where it is, and that none comes before it.
pub proof fn lemma_first_index(s: Seq<char>, c: char, i: int)
    requires
        0 <= i <= s.len(),
    ensures
        i <= first_index_of(s, c, i) <= s.len(),
        first_index_of(s, c, i) < s.len() ==> s[first_index_of(s, c, i)] == c,
        forall|j: int| i <= j < first_index_of(s, c, i) ==> s[j] != c,
    decreases s.len() - i,
{
    if i < s.len() && s[i] != c {
        lemma_first_index(s, c, i + 1);
    }
}

/// A space at `j` right after whitespace.
pub open spec fn double_at(s: Seq<char>, j: int) -> bool {
    0 < j < s.len() && s[j] == ' ' && is_white_space(s[j - 1])
}

/// On single-character clusters, Random Whitespace stops at `k` when a space follows
/// whitespace there, else at the first space after whitespace beyond `k`, else at the end.
pub proof fn lemma_double_index_singles(s: Seq<char>, k: int, seen: bool)
    requires
        0 <= k,
    ensures
        k < s.len() && seen && s[k] == ' ' ==> double_index(singles(s), k, seen) == k,
        !(k < s.len() && seen && s[k] == ' ') ==> forall|j: int|
            k < j && #[trigger] double_at(s, j) && (forall|i: int| k < i < j ==> !double_at(s, i))
                ==> double_index(singles(s), k, seen) == j,
        !(k < s.len() && seen && s[k] == ' ') && (forall|j: int| k < j ==> !#[trigger] double_at(s, j))
            ==> double_index(singles(s), k, seen) == s.len(),
    decreases s.len() - k,
{
    let cl = singles(s);
    if k < s.len() {
        assert(cl[k] == seq![s[k]]);
        assert(cl[k] == seq![' '] <==> s[k] == ' ') by {
            if cl[k] == seq![' '] {
                assert(cl[k][0] == ' ');
            }
        }
        assert(has_white_space(cl[k]) <==> is_white_space(s[k])) by {
            if has_white_space(cl[k]) {
                let i = choose|i: int| 0 <= i < cl[k].len() && #[trigger] is_white_space(cl[k][i]);
                assert(cl[k][i] == s[k]);
            }
            if is_white_space(s[k]) {
                assert(is_white_space(cl[k][0]));
            }
        }
        lemma_double_index_singles(s, k + 1, is_white_space(s[k]));
        if !(seen && s[k] == ' ') {
            assert forall|j: int|
                k < j && #[trigger] double_at(s, j) && (forall|i: int| k < i < j ==> !double_at(s, i))
                    implies double_index(cl, k, seen) == j by {
                if j > k + 1 {
                    assert(!double_at(s, k + 1));
                }
            }
            if forall|j: int| k < j ==> !#[trigger] double_at(s, j) {
                assert(!double_at(s, k + 1));
            }
        }
    }
}

/// What Random Whitespace reads from a line over the alphabet: 1 when a space follows
/// whitespace, and then the line without the first such space.
pub proof fn lemma_rw_revealed_plain(alpha: Set<char>, s: Seq<char>)
    requires
        alpha.contains(' '),
        clusters_are_chars(alpha),
        plain_in(s, alpha),
    ensures
        (exists|j: int| #[trigger] double_at(s, j)) ==> rw_revealed(s).0 == 1,
        forall|j: int|
            #[trigger] double_at(s, j) && (forall|i: int| 0 <= i < j ==> !double_at(s, i))
                ==> rw_revealed(s) == (1u8, s.take(j) + s.skip(j + 1)),
        !(exists|j: int| #[trigger] double_at(s, j)) ==> rw_revealed(s) == (0u8, s),
{
    lemma_plain_clusters(alpha, s);
    lemma_double_index_singles(s, 0, false);
    assert forall|j: int|
        #[trigger] double_at(s, j) && (forall|i: int| 0 <= i < j ==> !double_at(s, i))
            implies rw_revealed(s) == (1u8, s.take(j) + s.skip(j + 1)) by {
        assert(0 < j);
        lemma_joined_singles(s, j);
        assert(s.take(j).len() == j);
    }
    if exists|j: int| #[trigger] double_at(s, j) {
        let j0 = choose|j: int| #[trigger] double_at(s, j);
        lemma_first_double(s, j0);
    } else {
        assert(forall|j: int| 0 < j ==> !#[trigger] double_at(s, j));
    }
}

/// Among the spaces after whitespace, one comes first.
proof fn lemma_first_double(s: Seq<char>, j0: int)
    requires
        double_at(s, j0),
    ensures
        exists|j: int| #[trigger] double_at(s, j) && (forall|i: int| 0 <= i < j ==> !double_at(s, i)),
    decreases j0,
{
    if exists|i: int| 0 <= i < j0 && #[trigger] double_at(s, i) {
        let i = choose|i: int| 0 <= i < j0 && #[trigger] double_at(s, i);
        lemma_first_double(s, i);
    } else {
        assert(double_at(s, j0) && (forall|i: int| 0 <= i < j0 ==> !double_at(s, i)));
    }
}

/// Inserting a space into a text over an alphabet holding the space keeps it over the
/// alphabet.
pub proof fn lemma_inserted_in(alpha: Set<char>, s: Seq<char>, p: int)
    requires
        alpha.contains(' '),
        plain_in(s, alpha),
        0 <= p <= s.len(),
    ensures
        plain_in(rw_inserted(s, p), alpha),
{
    let t = rw_inserted(s, p);
    assert forall|k: int| 0 <= k < t.len() implies alpha.contains(#[trigger] t[k]) by {
        if k < p {
            assert(t[k] == s[k]);
        } else if k > p {
            assert(t[k] == s[k - 1]);
        }
    }
}

/// In a line without a space after whitespace, doubling the space at `p` makes `p + 1` the
/// first space after whitespace, and removing it gives the line back.
pub proof fn lemma_inserted_double(s: Seq<char>, p: int)
    requires
        0 <= p < s.len(),
        s[p] == ' ',
        !(exists|j: int| #[trigger] double_at(s, j)),
    ensures
        double_at(rw_inserted(s, p), p + 1),
        forall|i: int| 0 <= i < p + 1 ==> !double_at(rw_inserted(s, p), i),
        rw_inserted(s, p).take(p + 1) + rw_inserted(s, p).skip(p + 2) == s,
{
    let t = rw_inserted(s, p);
    assert(t.len() == s.len() + 1);
    assert(forall|j: int| 0 <= j < p ==> t[j] == s[j]);
    assert(t[p] == ' ');
    assert(forall|j: int| p < j < t.len() ==> t[j] == s[j - 1]);
    assert(is_white_space(' ')) by {
        assert((' ' as u32) == 0x20);
    }
    assert(double_at(t, p + 1));
    assert forall|i: int| 0 <= i < p + 1 implies !double_at(t, i) by {
        if i < p {
            if double_at(t, i) {
                assert(double_at(s, i));
            }
        } else if double_at(t, i) {
            assert(double_at(s, p));
        }
    }
    assert(t.take(p + 1) + t.skip(p + 2) =~= s);
}

/// Doubling a space of a line without a space after whitespace is read back as a 1,
/// leaving the line itself.
pub proof fn lemma_rw_roundtrip(alpha: Set<char>, s: Seq<char>, p: int)
    requires
        alpha.contains(' '),
        clusters_are_chars(alpha),
        plain_in(s, alpha),
        0 <= p < s.len(),
        s[p] == ' ',
        !(exists|j: int| #[trigger] double_at(s, j)),
    ensures
        plain_in(rw_inserted(s, p), alpha),
        rw_revealed(rw_inserted(s, p)) == (1u8, s),
{
    let t = rw_inserted(s, p);
    lemma_inserted_in(alpha, s, p);
    lemma_inserted_double(s, p);
    lemma_rw_revealed_plain(alpha, t);
    assert(double_at(t, p + 1) && (forall|i: int| 0 <= i < p + 1 ==> !double_at(t, i)));
}

/// The first `k` single-character clusters make up the first `k` characters.
pub proof fn lemma_joined_singles(s: Seq<char>, k: int)
    requires
        0 <= k <= s.len(),
    ensures
        joined(singles(s).take(k)) == s.take(k),
    decreases k,
{
    if k == 0 {
        assert(singles(s).take(0) =~= Seq::<Seq<char>>::empty());
        assert(s.take(0) =~= Seq::<char>::empty());
    } else {
        lemma_joined_singles(s, k - 1);
        assert(singles(s).take(k).drop_last() =~= singles(s).take(k - 1));
        assert(singles(s).take(k).last() == seq![s[k - 1]]);
        assert(s.take(k) =~= s.take(k - 1) + seq![s[k - 1]]);
    }
}

/// Scanning single-character clusters keeps a position that is the end of the line or
/// holds whitespace.
pub proof fn lemma_cluster_scan_singles(s: Seq<char>, sep: Seq<char>, before: nat, r: nat, k: int, pos: int)
    requires
        0 <= k,
        pos == s.len() || (0 <= pos < s.len() && is_white_space(s[pos])),
    ensures
        ({
            let q = cluster_scan(singles(s), sep, before, r, k, pos);
            q == s.len() || (0 <= q < s.len() && is_white_space(s[q]))
        }),
    decreases s.len() - k,
{
    let cl = singles(s);
    if k < cl.len() && before + crate::chars::byte_len(joined(cl.take(k))) <= r {
        lemma_joined_singles(s, k);
        assert(cl[k] == seq![s[k]]);
        if has_white_space(cl[k]) {
            let i = choose|i: int| 0 <= i < cl[k].len() && #[trigger] is_white_space(cl[k][i]);
            assert(cl[k][i] == s[k]);
        }
        lemma_cluster_scan_singles(
            s,
            sep,
            before,
            r,
            k + 1,
            if has_white_space(cl[k]) && cl[k] != sep {
                joined(cl.take(k)).len() as int
            } else {
                pos
            },
        );
    }
}

/// Where Random Whitespace doubles a space in a plain line: the end of the line (no space
/// to double) or a whitespace character.
pub proof fn lemma_rw_position_plain(alpha: Set<char>, s: Seq<char>, sep: Seq<char>, before: nat, r: nat)
    requires
        alpha.contains(' '),
        clusters_are_chars(alpha),
        plain_in(s, alpha),
    ensures
        ({
            let q = rw_conceal_position(s, sep, before, r);
            q == s.len() || (0 <= q < s.len() && is_white_space(s[q]))
        }),
{
    lemma_plain_clusters(alpha, s);
    lemma_first_index(s, ' ', 0);
    assert(is_white_space(' ')) by {
        assert((' ' as u32) == 0x20);
    }
    lemma_cluster_scan_singles(s, sep, before, r, 0, first_index_of(s, ' ', 0));
}

/// A single space counts for nothing.
pub proof fn lemma_space_counts()
    ensures
        solid_count(seq![' ']) == 0,
        word_starts(seq![' ']) == 0,
        is_white_space(' '),
{
    assert((' ' as u32) == 0x20);
    let sp = seq![' '];
    assert(sp.drop_last() =~= Seq::<char>::empty());
    assert(solid_count(Seq::<char>::empty()) == 0);
    assert(word_starts(Seq::<char>::empty()) == 0);
    assert(sp.last() == ' ');
}

/// Concatenations of texts over the alphabet are over the alphabet.
pub proof fn lemma_plain_concat(alpha: Set<char>, a: Seq<char>, b: Seq<char>)
    requires
        plain_in(a, alpha),
        plain_in(b, alpha),
    ensures
        plain_in(a + b, alpha),
{
    assert forall|k: int| 0 <= k < (a + b).len() implies alpha.contains(#[trigger] (a + b)[k]) by {
        if k < a.len() {
            assert((a + b)[k] == a[k]);
        } else {
            assert((a + b)[k] == b[k - a.len()]);
        }
    }
}

/// Line Extension counts a line of plain words as its length.
pub proof fn lemma_le_total_spaced(alpha: Set<char>, ws: Seq<Seq<char>>)
    requires
        alpha.contains(' '),
        clusters_are_chars(alpha),
        ws.len() > 0,
        forall|k: int| 0 <= k < ws.len() ==> word_in(#[trigger] ws[k], alpha),
    ensures
        le_total(spaced(ws)) == spaced(ws).len(),
{
    lemma_spaced_shape(alpha, ws);
    lemma_le_total(alpha, spaced(ws));
}

/// Doubling whitespace does not change what Line Extension counts.
pub proof fn lemma_le_total_inserted(alpha: Set<char>, x: Seq<char>, q: int)
    requires
        alpha.contains(' '),
        clusters_are_chars(alpha),
        plain_in(x, alpha),
        0 <= q < x.len(),
        is_white_space(x[q]),
    ensures
        plain_in(rw_inserted(x, q), alpha),
        le_total(rw_inserted(x, q)) == le_total(x),
{
    let a = x.take(q);
    let b = x.skip(q);
    let sp = seq![' '];
    lemma_space_counts();
    lemma_plain_parts(alpha, x);
    assert(a == x.subrange(0, q));
    assert(b == x.subrange(q, x.len() as int));
    assert(x =~= a + b);
    lemma_plain_concat(alpha, a, sp);
    lemma_plain_concat(alpha, a + sp, b);
    assert(rw_inserted(x, q) == a + sp + b);
    assert(b[0] == x[q]);
    lemma_solid_concat(a, b);
    lemma_starts_concat(a, b);
    lemma_solid_concat(a, sp);
    lemma_starts_concat(a, sp);
    lemma_solid_concat(a + sp, b);
    lemma_starts_concat(a + sp, b);
    assert((a + sp).last() == ' ');
    lemma_le_total(alpha, x);
    lemma_le_total(alpha, a + sp + b);
}

/// One more word after a space adds its length and the space to what Line Extension
/// counts.
pub proof fn lemma_le_total_extended(alpha: Set<char>, x: Seq<char>, w: Seq<char>)
    requires
        alpha.contains(' '),
        clusters_are_chars(alpha),
        plain_in(x, alpha),
        word_in(w, alpha),
    ensures
        plain_in(x + seq![' '] + w, alpha),
        le_total(x + seq![' '] + w) == le_total(x) + 1 + w.len(),
{
    let sp = seq![' '];
    lemma_space_counts();
    lemma_word_counts(w);
    lemma_plain_concat(alpha, x, sp);
    lemma_plain_concat(alpha, x + sp, w);
    lemma_solid_concat(x, sp);
    lemma_starts_concat(x, sp);
    lemma_solid_concat(x + sp, w);
    lemma_starts_concat(x + sp, w);
    assert((x + sp).last() == ' ');
    lemma_le_total(alpha, x);
    lemma_le_total(alpha, x + sp + w);
}

/// Every character set holds distinct characters, each a space or beyond ASCII.
pub proof fn lemma_charset_chars(cs: CharacterSetType)
    ensures
        distinct_chars(cs.charset()),
        forall|i: int| 0 <= i < cs.charset().len() ==> cs.charset()[i] == ' ' || (#[trigger] cs.charset()[i] as u32) >= 0x80,
        forall|i: int| 0 <= i < cs.charset().len() ==> cs.charset()[i] == ' ' || (#[trigger] cs.charset()[i] as u32) >= 0x2000,
{
}

/// Bit `j` of the number whose binary digits, least significant first, are `s` is `s[j]`.
pub proof fn lemma_lsb_bit(s: Seq<u8>, j: int)
    requires
        is_bit_seq(s),
        s.len() <= 5,
        0 <= j < s.len(),
    ensures
        ((lsb_value(s) as u32) >> (j as u32)) & 1u32 == s[j] as u32,
    decreases j,
{
    let rest = s.drop_first();
    assert(is_bit_seq(rest)) by {
        assert forall|i: int| 0 <= i < rest.len() implies #[trigger] rest[i] <= 1 by {
            assert(rest[i] == s[i + 1]);
        }
    }
    lemma_lsb_value_bound(rest);
    lemma_lsb_value_bound(s);
    crate::binary::lemma_pow2_mono(rest.len(), 5);
    crate::binary::lemma_pow2_mono(s.len(), 5);
    reveal_with_fuel(pow2_nat, 6);
    let n = lsb_value(s) as u32;
    let m = lsb_value(rest) as u32;
    let b = s[0] as u32;
    assert(s[0] <= 1);
    assert(lsb_value(s) == s[0] + 2 * lsb_value(rest));
    assert(n == b + 2 * m);
    assert(m < 32);
    if j == 0 {
        assert(((n >> 0u32) & 1u32) == b) by (bit_vector)
            requires
                n == b + 2 * m,
                b <= 1,
                m < 32,
        ;
        assert((j as u32) == 0u32);
    } else {
        lemma_lsb_bit(rest, j - 1);
        assert(rest[j - 1] == s[j]);
        let jj = j as u32;
        assert((n >> jj) == (m >> ((jj - 1) as u32))) by (bit_vector)
            requires
                n == b + 2 * m,
                b <= 1,
                m < 32,
                1 <= jj < 5,
        ;
        assert(((j - 1) as u32) == ((jj - 1) as u32));
        assert(((m >> ((jj - 1) as u32)) & 1u32) == rest[j - 1] as u32);
    }
}

/// Trailing Whitespace reads the bits it hid, most significant first, so reversed they
/// come back in their order.
pub proof fn lemma_tw_bits_order(b: Seq<u8>, r: nat)
    requires
        is_bit_seq(b),
        1 <= r <= 5,
        b.len() >= r,
    ensures
        tw_index(b, r) == lsb_value(b.take(r as int)),
        tw_index(b, r) < pow2_nat(r),
        u32_bits(tw_index(b, r) as u32).skip(32 - r).reverse() == b.take(r as int),
{
    let t = b.take(r as int);
    assert(is_bit_seq(t)) by {
        assert forall|i: int| 0 <= i < t.len() implies #[trigger] t[i] <= 1 by {
            assert(t[i] == b[i]);
        }
    }
    assert(pow2_nat(0) == 1);
    assert(tw_index(b, r) == lsb_value(t) * pow2_nat(0));
    lemma_lsb_value_bound(t);
    let n = lsb_value(t);
    let v = u32_bits(n as u32).skip(32 - r).reverse();
    assert forall|j: int| 0 <= j < r implies #[trigger] v[j] == t[j] by {
        lemma_lsb_bit(t, j);
        assert(v[j] == u32_bits(n as u32)[31 - j]);
        assert(((31 - (31 - j)) as u32) == (j as u32));
        let x = ((n as u32) >> (j as u32)) & 1u32;
        assert(x == t[j] as u32);
        assert(t[j] <= 1);
    }
    assert(v =~= t);
}

/// A character of the alphabet that is not whitespace is in no character set.
pub proof fn lemma_word_char_not_in_set(alpha: Set<char>, cs: CharacterSetType, c: char)
    requires
        alphabet_ok(alpha, cs),
        alpha.contains(c),
        !is_white_space(c),
    ensures
        char_number(cs.charset(), c) == 0,
{
    lemma_space_counts();
}

/// A single-spaced text holds no space after whitespace, and no line feed.
pub proof fn lemma_single_spaced_no_double(l: Seq<char>)
    requires
        single_spaced(l),
    ensures
        !(exists|j: int| #[trigger] double_at(l, j)),
        !l.contains('\n'),
{
    lemma_space_counts();
    if exists|j: int| #[trigger] double_at(l, j) {
        let j = choose|j: int| #[trigger] double_at(l, j);
        assert(is_white_space(l[j]));
    }
    if l.contains('\n') {
        let j = choose|j: int| 0 <= j < l.len() && l[j] == '\n';
        assert(('\n' as u32) == 0xa);
        assert(is_white_space(l[j]));
    }
}

/// What the submethods find in a line of plain words laid out with single spaces.
pub proof fn lemma_spaced_line(alpha: Set<char>, ws: Seq<Seq<char>>, cs: CharacterSetType)
    requires
        clusters_are_chars(alpha),
        alphabet_ok(alpha, cs),
        ws.len() > 0,
        forall|k: int| 0 <= k < ws.len() ==> word_in(#[trigger] ws[k], alpha),
    ensures
        plain_in(spaced(ws), alpha),
        single_spaced(spaced(ws)),
        spaced(ws).len() > 0,
        !is_white_space(spaced(ws).last()),
        alpha.contains(spaced(ws).last()),
        char_number(cs.charset(), spaced(ws).last()) == 0,
        !(exists|j: int| #[trigger] double_at(spaced(ws), j)),
        !spaced(ws).contains('\n'),
        le_total(spaced(ws)) == spaced(ws).len(),
{
    let l = spaced(ws);
    lemma_spaced_shape(alpha, ws);
    lemma_le_total_spaced(alpha, ws);
    lemma_single_spaced_no_double(l);
    assert(l.last() == l[l.len() - 1]);
    lemma_word_char_not_in_set(alpha, cs, l.last());
}

/// Reading a line of the first variant: Trailing Whitespace first, then Random
/// Whitespace on what it leaves, then Line Extension; in the order of hiding.
pub proof fn lemma_reveal_v1(m: ElSetup, l: Seq<char>)
    requires
        m.acts == variant_actions(Variant::V1),
    ensures
        ({
            let t = tw_revealed(m.set, l);
            let q = rw_revealed(t.1);
            reveal_line(m, l) == seq![le_revealed(q.1, m.pivot), q.0] + t.0.reverse()
        }),
{
    let t = tw_revealed(m.set, l);
    let q = rw_revealed(t.1);
    assert(m.acts[0] == MethodActions::LineExtend);
    assert(m.acts[1] == MethodActions::RandomASCIIWhitespace);
    assert(m.acts[2] == MethodActions::TrailingASCIIWhitespace);
    assert(el_reveal_from(m, 0, q.1) == Seq::<u8>::empty());
    assert(el_reveal_from(m, 1, q.1) == seq![le_revealed(q.1, m.pivot)] + el_reveal_from(m, 0, q.1));
    assert(el_reveal_from(m, 2, t.1) == seq![q.0] + el_reveal_from(m, 1, q.1));
    assert(el_reveal_from(m, 3, l) == t.0 + el_reveal_from(m, 2, t.1));
    let all = t.0 + (seq![q.0] + (seq![le_revealed(q.1, m.pivot)] + Seq::<u8>::empty()));
    assert(all.reverse() =~= seq![le_revealed(q.1, m.pivot), q.0] + t.0.reverse());
}

/// Reading a line of the second variant: Random Whitespace first, then Trailing
/// Whitespace on what it leaves, then Line Extension; in the order of hiding.
pub proof fn lemma_reveal_v2(m: ElSetup, l: Seq<char>)
    requires
        m.acts == variant_actions(Variant::V2),
    ensures
        ({
            let q = rw_revealed(l);
            let t = tw_revealed(m.set, q.1);
            reveal_line(m, l) == seq![le_revealed(t.1, m.pivot)] + t.0.reverse() + seq![q.0]
        }),
{
    let q = rw_revealed(l);
    let t = tw_revealed(m.set, q.1);
    assert(m.acts[0] == MethodActions::LineExtend);
    assert(m.acts[1] == MethodActions::TrailingASCIIWhitespace);
    assert(m.acts[2] == MethodActions::RandomASCIIWhitespace);
    assert(el_reveal_from(m, 0, t.1) == Seq::<u8>::empty());
    assert(el_reveal_from(m, 1, t.1) == seq![le_revealed(t.1, m.pivot)] + el_reveal_from(m, 0, t.1));
    assert(el_reveal_from(m, 2, q.1) == t.0 + el_reveal_from(m, 1, t.1));
    assert(el_reveal_from(m, 3, l) == seq![q.0] + el_reveal_from(m, 2, q.1));
    let all = seq![q.0] + (t.0 + (seq![le_revealed(t.1, m.pivot)] + Seq::<u8>::empty()));
    assert(all.reverse() =~= seq![le_revealed(t.1, m.pivot)] + t.0.reverse() + seq![q.0]);
}

/// Reading a line of the third variant: Trailing Whitespace first, then Line Extension
/// and Random Whitespace on what it leaves; in the order of hiding.
pub proof fn lemma_reveal_v3(m: ElSetup, l: Seq<char>)
    requires
        m.acts == variant_actions(Variant::V3),
    ensures
        ({
            let t = tw_revealed(m.set, l);
            reveal_line(m, l) == seq![rw_revealed(t.1).0, le_revealed(t.1, m.pivot)] + t.0.reverse()
        }),
{
    let t = tw_revealed(m.set, l);
    let q = rw_revealed(t.1);
    assert(m.acts[0] == MethodActions::RandomASCIIWhitespace);
    assert(m.acts[1] == MethodActions::LineExtend);
    assert(m.acts[2] == MethodActions::TrailingASCIIWhitespace);
    assert(el_reveal_from(m, 0, q.1) == Seq::<u8>::empty());
    assert(el_reveal_from(m, 1, t.1) == seq![q.0] + el_reveal_from(m, 0, q.1));
    assert(el_reveal_from(m, 2, t.1) == seq![le_revealed(t.1, m.pivot)] + el_reveal_from(m, 1, t.1));
    assert(el_reveal_from(m, 3, l) == t.0 + el_reveal_from(m, 2, t.1));
    let all = t.0 + (seq![le_revealed(t.1, m.pivot)] + (seq![q.0] + Seq::<u8>::empty()));
    assert(all.reverse() =~= seq![q.0, le_revealed(t.1, m.pivot)] + t.0.reverse());
}

/// Where Trailing Whitespace stands among the submethods of a variant.
pub open spec fn tw_place(v: Variant) -> nat {
    match v {
        Variant::V2 => 1,
        _ => 2,
    }
}

/// Whether `n` bits run out inside the Trailing Whitespace part of a line at rate `r`:
/// the last character then stands for fewer bits than the rate, shifted up, and revealing
/// reads zeros in front of them.
pub open spec fn splits_chunk(v: Variant, r: nat, n: nat) -> bool {
    tw_place(v) < n < tw_place(v) + r
}

/// What one line gives back: the bits hiding took from `bits` come first in what
/// revealing the line reads, and nothing else when the line was completed.
pub open spec fn line_read_back(
    m: ElSetup,
    ws: Seq<Seq<char>>,
    bits: Seq<u8>,
    after: ElState,
    res: Result<MethodResult, ConcealErrorView>,
) -> bool {
    let c = bits.len() - after.bits.len();
    let k = line_count(ws, m.pivot);
    let got = reveal_line(m, after.line);
    &&& 0 <= c <= bits.len()
    &&& after.bits == bits.skip(c)
    &&& got.len() >= c
    &&& got.take(c) == bits.take(c)
    &&& (res == Ok::<MethodResult, ConcealErrorView>(MethodResult::Success) ==> got.len() == c && c == 2
        + tu_rate(m.set.len()))
    &&& (res == Ok::<MethodResult, ConcealErrorView>(MethodResult::NoDataLeft) ==> after.bits.len() == 0)
    &&& !after.line.contains('\n')
    &&& (after.words == ws.skip(k) || (k < ws.len() && after.words == ws.skip(k + 1)))
}

/// The state Line Extension leaves on a line of plain words: either the line as it was
/// (a 0 bit) or the line with the next word (a 1 bit, beyond the pivot); as Line
/// Extension reads it, more than the pivot exactly for a 1.
pub proof fn lemma_le_outcome(
    alpha: Set<char>,
    m: ElSetup,
    cs: CharacterSetType,
    ws: Seq<Seq<char>>,
    ls: ElState,
    s1: ElState,
    r1: Result<MethodResult, ConcealErrorView>,
)
    requires
        clusters_are_chars(alpha),
        alphabet_ok(alpha, cs),
        m.set == cs.charset(),
        forall|k: int| 0 <= k < ws.len() ==> word_in(#[trigger] ws[k], alpha),
        pivot_line(ws, m.pivot).len() > 0,
        ls.bits.len() > 0,
        is_bit_seq(ls.bits),
        ls.words == ws.skip(line_count(ws, m.pivot)),
        ls.line.len() > 0,
        plain_in(ls.line, alpha),
        le_step(m.pivot, glen(pivot_line(ws, m.pivot)), ls, s1, r1),
        r1 is Ok,
    ensures
        r1 == Ok::<MethodResult, ConcealErrorView>(MethodResult::Success),
        s1.bits == ls.bits.drop_first(),
        ls.bits[0] == 0 ==> s1.line == ls.line && s1.words == ls.words,
        ls.bits[0] == 1 ==> ({
            let k = line_count(ws, m.pivot);
            &&& k < ws.len()
            &&& s1.line == ls.line + seq![' '] + ws[k]
            &&& s1.words == ws.skip(k + 1)
            &&& pivot_line(ws, m.pivot).len() + 1 + ws[k].len() > m.pivot
            &&& word_in(ws[k], alpha)
        }),
{
    let k = line_count(ws, m.pivot);
    let pl = pivot_line(ws, m.pivot);
    lemma_pivot_line_spaced(alpha, ws, m.pivot);
    assert(ls.bits[0] <= 1);
    if ls.bits[0] == 1 {
        assert(ls.words.len() > 0);
        assert(ls.words[0] == ws[k]);
        assert(ls.words.drop_first() =~= ws.skip(k + 1));
        assert(word_in(ws[k], alpha));
        lemma_plain_clusters(alpha, ws[k]);
        lemma_space_counts();
        lemma_plain_clusters(alpha, seq![' ']);
        lemma_spaced_shape(alpha, ws.take(k));
        lemma_plain_clusters(alpha, pl);
    }
}

/// Whether every whitespace character of `s` is a space.
pub open spec fn spaces_only(s: Seq<char>) -> bool {
    forall|j: int| 0 <= j < s.len() && is_white_space(#[trigger] s[j]) ==> s[j] == ' '
}

/// The state Random Whitespace leaves on a plain line whose whitespace is spaces: the line
/// as it was (a 0 bit) or the line with one of its spaces doubled (a 1 bit).
pub proof fn lemma_rw_outcome(
    alpha: Set<char>,
    m: ElSetup,
    before: nat,
    s1: ElState,
    s2: ElState,
    r2: Result<MethodResult, ConcealErrorView>,
) -> (p: int)
    requires
        alpha.contains(' '),
        clusters_are_chars(alpha),
        plain_in(s1.line, alpha),
        spaces_only(s1.line),
        s1.bits.len() > 0,
        is_bit_seq(s1.bits),
        rw_step(m.sep, before, s1, s2, r2),
        r2 is Ok,
    ensures
        r2 == Ok::<MethodResult, ConcealErrorView>(MethodResult::Success),
        s2.bits == s1.bits.drop_first(),
        s2.words == s1.words,
        s1.bits[0] == 0 ==> s2.line == s1.line,
        s1.bits[0] == 1 ==> 0 <= p < s1.line.len() && s1.line[p] == ' ' && s2.line == rw_inserted(s1.line, p),
{
    assert(s1.bits[0] <= 1);
    if s1.bits[0] == 1 {
        let d = choose|d: nat|
            before <= d < before + crate::chars::byte_len(s1.line) && #[trigger] rw_outcome(
                m.sep,
                before,
                d,
                s1,
                s2,
                r2,
            );
        let q = rw_conceal_position(s1.line, m.sep, before, d);
        lemma_rw_position_plain(alpha, s1.line, m.sep, before, d);
        q
    } else {
        0
    }
}

/// The state Trailing Whitespace leaves on a non-empty line whose last character is in
/// no set, when no bit or a whole chunk of bits is left, and what revealing reads back.
pub proof fn lemma_tw_outcome(
    m: ElSetup,
    cs: CharacterSetType,
    s2: ElState,
    s3: ElState,
    r3: Result<MethodResult, ConcealErrorView>,
)
    requires
        m.set == cs.charset(),
        s2.line.len() > 0,
        char_number(m.set, s2.line.last()) == 0,
        !s2.line.contains('\n'),
        is_bit_seq(s2.bits),
        s2.bits.len() == 0 || s2.bits.len() >= tu_rate(m.set.len()),
        tw_step(m.set, s2, s3, r3),
    ensures
        1 <= tu_rate(m.set.len()) <= 5,
        tw_revealed(m.set, s2.line).0.len() == tu_rate(m.set.len()),
        tw_revealed(m.set, s2.line).1 == s2.line,
        s2.bits.len() == 0 ==> s3 == s2 && r3 == Ok::<MethodResult, ConcealErrorView>(MethodResult::NoDataLeft),
        s2.bits.len() > 0 ==> ({
            let r = tu_rate(m.set.len());
            &&& r3 == Ok::<MethodResult, ConcealErrorView>(MethodResult::Success)
            &&& s3.bits == s2.bits.skip(r as int)
            &&& s3.words == s2.words
            &&& tw_revealed(m.set, s3.line).1 == s2.line
            &&& tw_revealed(m.set, s3.line).0.reverse() == s2.bits.take(r as int)
            &&& !s3.line.contains('\n')
            &&& s3.line.len() > 0
        }),
{
    let r = tu_rate(m.set.len());
    lemma_charset_shape(cs);
    lemma_charset_chars(cs);
    if s2.bits.len() > 0 {
        lemma_tw_bits_order(s2.bits, r);
        let idx = tw_index(s2.bits, r);
        lemma_trailing_roundtrip(m.set, s2.line, s2.bits);
        if idx > 0 {
            let c = m.set[idx - 1];
            assert(c == ' ' || (c as u32) >= 0x80);
            assert(('\n' as u32) == 0xa);
            assert(!s3.line.contains('\n')) by {
                if s3.line.contains('\n') {
                    let j = choose|j: int| 0 <= j < s3.line.len() && s3.line[j] == '\n';
                    if j < s2.line.len() {
                        assert(s3.line[j] == s2.line[j]);
                    } else {
                        assert(s3.line[j] == c);
                    }
                }
            }
        }
    }
}

/// The first step of a chain of submethods and what follows it.
pub proof fn lemma_chain_step(
    m: ElSetup,
    pll: nat,
    before: nat,
    i: int,
    s: ElState,
    after: ElState,
    res: Result<MethodResult, ConcealErrorView>,
) -> (mid: (ElState, Result<MethodResult, ConcealErrorView>))
    requires
        0 <= i < m.acts.len(),
        el_chain(m, pll, before, i, s, after, res),
    ensures
        el_step(m, pll, before, m.acts[i], s, mid.0, mid.1),
        mid.1 == Ok::<MethodResult, ConcealErrorView>(MethodResult::Success) ==> el_chain(
            m,
            pll,
            before,
            i + 1,
            mid.0,
            after,
            res,
        ),
        mid.1 != Ok::<MethodResult, ConcealErrorView>(MethodResult::Success) ==> after == mid.0 && res
            == mid.1,
{
    choose|x: ElState, r: Result<MethodResult, ConcealErrorView>|
        #[trigger] el_step(m, pll, before, m.acts[i], s, x, r) && if r == Ok::<
            MethodResult,
            ConcealErrorView,
        >(MethodResult::Success) {
            el_chain(m, pll, before, i + 1, x, after, res)
        } else {
            after == x && res == r
        }
}

/// A chain past its last submethod leaves the state and succeeds.
pub proof fn lemma_chain_end(
    m: ElSetup,
    pll: nat,
    before: nat,
    s: ElState,
    after: ElState,
    res: Result<MethodResult, ConcealErrorView>,
)
    requires
        el_chain(m, pll, before, m.acts.len() as int, s, after, res),
    ensures
        after == s,
        res == Ok::<MethodResult, ConcealErrorView>(MethodResult::Success),
{
}

/// The line Line Extension leaves when it goes first: a line of plain words, read back as
/// the bit it hid.
pub proof fn lemma_first_le_line(
    alpha: Set<char>,
    m: ElSetup,
    cs: CharacterSetType,
    ws: Seq<Seq<char>>,
    ls: ElState,
    s1: ElState,
    r1: Result<MethodResult, ConcealErrorView>,
)
    requires
        clusters_are_chars(alpha),
        alphabet_ok(alpha, cs),
        m.set == cs.charset(),
        forall|k: int| 0 <= k < ws.len() ==> word_in(#[trigger] ws[k], alpha),
        pivot_line(ws, m.pivot).len() > 0,
        ls.line == pivot_line(ws, m.pivot),
        ls.bits.len() > 0,
        is_bit_seq(ls.bits),
        ls.words == ws.skip(line_count(ws, m.pivot)),
        le_step(m.pivot, glen(pivot_line(ws, m.pivot)), ls, s1, r1),
        r1 is Ok,
    ensures
        r1 == Ok::<MethodResult, ConcealErrorView>(MethodResult::Success),
        s1.bits == ls.bits.drop_first(),
        s1.words == ws.skip(line_count(ws, m.pivot)) || (line_count(ws, m.pivot) < ws.len()
            && s1.words == ws.skip(line_count(ws, m.pivot) + 1)),
        plain_in(s1.line, alpha),
        single_spaced(s1.line),
        spaces_only(s1.line),
        s1.line.len() > 0,
        char_number(m.set, s1.line.last()) == 0,
        !(exists|j: int| #[trigger] double_at(s1.line, j)),
        !s1.line.contains('\n'),
        le_total(s1.line) == s1.line.len(),
        le_revealed(s1.line, m.pivot) == ls.bits[0],
{
    let k = line_count(ws, m.pivot);
    let pl = pivot_line(ws, m.pivot);
    lemma_pivot_line_spaced(alpha, ws, m.pivot);
    lemma_spaced_shape(alpha, ws.take(k));
    lemma_le_outcome(alpha, m, cs, ws, ls, s1, r1);
    let w1 = if ls.bits[0] == 1 {
        ws.take(k + 1)
    } else {
        ws.take(k)
    };
    if ls.bits[0] == 1 {
        assert(w1.drop_last() =~= ws.take(k));
        assert(w1.last() == ws[k]);
        assert(spaced(w1) == spaced(ws.take(k)) + seq![' '] + ws[k]);
    }
    assert forall|i: int| 0 <= i < w1.len() implies word_in(#[trigger] w1[i], alpha) by {
        assert(w1[i] == ws[i]);
    }
    lemma_spaced_line(alpha, w1, cs);
    assert(s1.line == spaced(w1));
    assert(spaces_only(s1.line));
    assert(s1.line.last() == s1.line[s1.line.len() - 1]);
    assert(ls.bits[0] <= 1);
}

/// Random Whitespace on a single-spaced plain line: read back as the bit it hid, leaving
/// the line as it was before.
pub proof fn lemma_rw_line(
    alpha: Set<char>,
    m: ElSetup,
    before: nat,
    s1: ElState,
    s2: ElState,
    r2: Result<MethodResult, ConcealErrorView>,
)
    requires
        alpha.contains(' '),
        clusters_are_chars(alpha),
        plain_in(s1.line, alpha),
        single_spaced(s1.line),
        s1.line.len() > 0,
        s1.bits.len() > 0,
        is_bit_seq(s1.bits),
        rw_step(m.sep, before, s1, s2, r2),
        r2 is Ok,
    ensures
        r2 == Ok::<MethodResult, ConcealErrorView>(MethodResult::Success),
        s2.bits == s1.bits.drop_first(),
        s2.words == s1.words,
        plain_in(s2.line, alpha),
        s2.line.len() > 0,
        s2.line.last() == s1.line.last(),
        !s1.line.contains('\n') ==> !s2.line.contains('\n'),
        rw_revealed(s2.line) == (s1.bits[0], s1.line),
{
    let l1 = s1.line;
    assert(spaces_only(l1));
    let p = lemma_rw_outcome(alpha, m, before, s1, s2, r2);
    lemma_single_spaced_no_double(l1);
    if s1.bits[0] == 1 {
        let l2 = s2.line;
        lemma_rw_roundtrip(alpha, l1, p);
        assert(l2.last() == l1.last()) by {
            assert(l2[l2.len() - 1] == l1[l1.len() - 1]);
        }
        assert(!l1.contains('\n') ==> !l2.contains('\n')) by {
            if !l1.contains('\n') && l2.contains('\n') {
                let j = choose|j: int| 0 <= j < l2.len() && l2[j] == '\n';
                if j < p {
                    assert(l2[j] == l1[j]);
                } else if j > p {
                    assert(l2[j] == l1[j - 1]);
                }
            }
        }
    } else {
        lemma_rw_revealed_plain(alpha, l1);
    }
}

/// One line hidden with the first variant is read back.
pub proof fn lemma_line_v1(
    alpha: Set<char>,
    m: ElSetup,
    cs: CharacterSetType,
    ws: Seq<Seq<char>>,
    bits: Seq<u8>,
    before: nat,
    after: ElState,
    res: Result<MethodResult, ConcealErrorView>,
)
    requires
        clusters_are_chars(alpha),
        alphabet_ok(alpha, cs),
        m.acts == variant_actions(Variant::V1),
        m.set == cs.charset(),
        forall|k: int| 0 <= k < ws.len() ==> word_in(#[trigger] ws[k], alpha),
        is_bit_seq(bits),
        !splits_chunk(Variant::V1, tu_rate(m.set.len()), bits.len()),
        pivot_line(ws, m.pivot).len() > 0,
        el_chain(
            m,
            glen(pivot_line(ws, m.pivot)),
            before,
            0,
            ElState { line: pivot_line(ws, m.pivot), words: ws.skip(line_count(ws, m.pivot)), bits },
            after,
            res,
        ),
        res is Ok,
    ensures
        line_read_back(m, ws, bits, after, res),
{
    let pivot = m.pivot;
    let r = tu_rate(m.set.len());
    let k = line_count(ws, pivot);
    let pl = pivot_line(ws, pivot);
    let pll = glen(pl);
    lemma_pivot_line_spaced(alpha, ws, pivot);
    lemma_charset_shape(cs);
    let w0 = ws.take(k);
    assert forall|i: int| 0 <= i < w0.len() implies word_in(#[trigger] w0[i], alpha) by {
        assert(w0[i] == ws[i]);
    }
    lemma_spaced_line(alpha, w0, cs);
    let s0 = ElState { line: pl, words: ws.skip(k), bits };
    let (s1, r1) = lemma_chain_step(m, pll, before, 0, s0, after, res);
    assert(m.acts[0] == MethodActions::LineExtend);
    assert(m.acts[1] == MethodActions::RandomASCIIWhitespace);
    assert(m.acts[2] == MethodActions::TrailingASCIIWhitespace);
    if bits.len() == 0 {
        assert(after == s0);
        assert(bits.skip(0) =~= bits);
        assert(reveal_line(m, pl).take(0) =~= bits.take(0));
        return;
    }
    lemma_first_le_line(alpha, m, cs, ws, s0, s1, r1);
    let l1 = s1.line;
    let (s2, r2) = lemma_chain_step(m, pll, before, 1, s1, after, res);
    if bits.len() == 1 {
        assert(after == s1);
        lemma_reveal_v1(m, l1);
        lemma_rw_revealed_plain(alpha, l1);
        assert(s1.bits.len() == 0);
        assert(bits.skip(1) =~= s1.bits);
        assert(reveal_line(m, l1).take(1) =~= bits.take(1));
        return;
    }
    lemma_rw_line(alpha, m, before, s1, s2, r2);
    let l2 = s2.line;
    let (s3, r3) = lemma_chain_step(m, pll, before, 2, s2, after, res);
    assert(s2.bits =~= bits.skip(2));
    assert(is_bit_seq(s2.bits)) by {
        assert forall|i: int| 0 <= i < s2.bits.len() implies #[trigger] s2.bits[i] <= 1 by {
            assert(s2.bits[i] == bits[i + 2]);
        }
    }
    lemma_tw_outcome(m, cs, s2, s3, r3);
    lemma_reveal_v1(m, s3.line);
    if bits.len() == 2 {
        assert(after == s2);
        assert(bits.skip(2) =~= s2.bits);
        assert(reveal_line(m, l2).take(2) =~= bits.take(2));
    } else {
        lemma_chain_end(m, pll, before, s3, after, res);
        assert(s3.bits =~= bits.skip(2 + r as int));
        assert(reveal_line(m, s3.line) =~= bits.take(2 + r as int));
        assert(reveal_line(m, s3.line).take(2 + r as int) =~= bits.take(2 + r as int));
    }
}

/// Random Whitespace going first, on the line built from plain words: the line it leaves
/// and what revealing reads from it.
pub proof fn lemma_first_rw_line(
    alpha: Set<char>,
    m: ElSetup,
    cs: CharacterSetType,
    ws: Seq<Seq<char>>,
    before: nat,
    s0: ElState,
    s1: ElState,
    r1: Result<MethodResult, ConcealErrorView>,
) -> (p: int)
    requires
        clusters_are_chars(alpha),
        alphabet_ok(alpha, cs),
        m.set == cs.charset(),
        forall|k: int| 0 <= k < ws.len() ==> word_in(#[trigger] ws[k], alpha),
        pivot_line(ws, m.pivot).len() > 0,
        s0.line == pivot_line(ws, m.pivot),
        s0.bits.len() > 0,
        is_bit_seq(s0.bits),
        rw_step(m.sep, before, s0, s1, r1),
        r1 is Ok,
    ensures
        r1 == Ok::<MethodResult, ConcealErrorView>(MethodResult::Success),
        s1.bits == s0.bits.drop_first(),
        s1.words == s0.words,
        plain_in(s1.line, alpha),
        s1.line.len() > 0,
        !s1.line.contains('\n'),
        le_total(s1.line) == pivot_line(ws, m.pivot).len(),
        char_number(m.set, s1.line.last()) == 0,
        rw_revealed(s1.line).0 == s0.bits[0],
        s0.bits[0] == 1 ==> double_at(s1.line, p + 1),
        s0.bits[0] == 0 ==> s1.line == s0.line,
{
    let pl = s0.line;
    let k = line_count(ws, m.pivot);
    lemma_pivot_line_spaced(alpha, ws, m.pivot);
    let w0 = ws.take(k);
    assert forall|i: int| 0 <= i < w0.len() implies word_in(#[trigger] w0[i], alpha) by {
        assert(w0[i] == ws[i]);
    }
    lemma_spaced_line(alpha, w0, cs);
    lemma_space_counts();
    assert(spaces_only(pl));
    let p = lemma_rw_outcome(alpha, m, before, s0, s1, r1);
    let l1 = s1.line;
    assert(s0.bits[0] <= 1);
    if s0.bits[0] == 1 {
        lemma_rw_roundtrip(alpha, pl, p);
        lemma_le_total_inserted(alpha, pl, p);
        assert(double_at(l1, p + 1));
        assert(l1.last() == pl.last()) by {
            assert(l1[l1.len() - 1] == pl[pl.len() - 1]);
        }
        assert(!l1.contains('\n')) by {
            if l1.contains('\n') {
                let j = choose|j: int| 0 <= j < l1.len() && l1[j] == '\n';
                if j < p {
                    assert(l1[j] == pl[j]);
                } else if j > p {
                    assert(l1[j] == pl[j - 1]);
                }
            }
        }
    } else {
        lemma_rw_revealed_plain(alpha, l1);
    }
    p
}

/// Line Extension after Random Whitespace: the line it leaves and what revealing reads
/// from it, both bits in place.
pub proof fn lemma_second_le_line(
    alpha: Set<char>,
    m: ElSetup,
    cs: CharacterSetType,
    ws: Seq<Seq<char>>,
    b0: u8,
    p: int,
    s1: ElState,
    s2: ElState,
    r2: Result<MethodResult, ConcealErrorView>,
)
    requires
        clusters_are_chars(alpha),
        alphabet_ok(alpha, cs),
        m.set == cs.charset(),
        forall|k: int| 0 <= k < ws.len() ==> word_in(#[trigger] ws[k], alpha),
        pivot_line(ws, m.pivot).len() > 0,
        s1.words == ws.skip(line_count(ws, m.pivot)),
        s1.bits.len() > 0,
        is_bit_seq(s1.bits),
        plain_in(s1.line, alpha),
        s1.line.len() > 0,
        !s1.line.contains('\n'),
        le_total(s1.line) == pivot_line(ws, m.pivot).len(),
        char_number(m.set, s1.line.last()) == 0,
        b0 <= 1,
        b0 == 1 ==> double_at(s1.line, p + 1),
        b0 == 0 ==> s1.line == pivot_line(ws, m.pivot),
        le_step(m.pivot, glen(pivot_line(ws, m.pivot)), s1, s2, r2),
        r2 is Ok,
    ensures
        r2 == Ok::<MethodResult, ConcealErrorView>(MethodResult::Success),
        s2.bits == s1.bits.drop_first(),
        s2.words == ws.skip(line_count(ws, m.pivot)) || (line_count(ws, m.pivot) < ws.len()
            && s2.words == ws.skip(line_count(ws, m.pivot) + 1)),
        plain_in(s2.line, alpha),
        s2.line.len() > 0,
        !s2.line.contains('\n'),
        char_number(m.set, s2.line.last()) == 0,
        rw_revealed(s2.line).0 == b0,
        le_revealed(s2.line, m.pivot) == s1.bits[0],
{
    let k = line_count(ws, m.pivot);
    let pl = pivot_line(ws, m.pivot);
    let l1 = s1.line;
    lemma_pivot_line_spaced(alpha, ws, m.pivot);
    lemma_space_counts();
    let w0 = ws.take(k);
    assert forall|i: int| 0 <= i < w0.len() implies word_in(#[trigger] w0[i], alpha) by {
        assert(w0[i] == ws[i]);
    }
    lemma_spaced_line(alpha, w0, cs);
    lemma_le_outcome(alpha, m, cs, ws, s1, s2, r2);
    let l2 = s2.line;
    assert(s1.bits[0] <= 1);
    if s1.bits[0] == 1 {
        let w = ws[k];
        lemma_le_total_extended(alpha, l1, w);
        assert(l2 == l1 + seq![' '] + w);
        assert(w.last() == w[w.len() - 1]);
        assert(l2.last() == w.last());
        assert(!l2.contains('\n')) by {
            assert(('\n' as u32) == 0xa);
            if l2.contains('\n') {
                let j = choose|j: int| 0 <= j < l2.len() && l2[j] == '\n';
                if j < l1.len() {
                    assert(l2[j] == l1[j]);
                } else if j > l1.len() {
                    assert(l2[j] == w[j - l1.len() - 1]);
                }
            }
        }
        if b0 == 1 {
            assert(double_at(l2, p + 1));
        } else {
            let w1 = ws.take(k + 1);
            assert(w1.drop_last() =~= ws.take(k));
            assert(w1.last() == ws[k]);
            assert forall|i: int| 0 <= i < w1.len() implies word_in(#[trigger] w1[i], alpha) by {
                assert(w1[i] == ws[i]);
            }
            lemma_spaced_line(alpha, w1, cs);
            assert(l2 == spaced(w1));
        }
        lemma_word_char_not_in_set(alpha, cs, l2.last());
    }
    lemma_rw_revealed_plain(alpha, l2);
    lemma_plain_clusters(alpha, pl);
}

/// One line hidden with the third variant is read back.
pub proof fn lemma_line_v3(
    alpha: Set<char>,
    m: ElSetup,
    cs: CharacterSetType,
    ws: Seq<Seq<char>>,
    bits: Seq<u8>,
    before: nat,
    after: ElState,
    res: Result<MethodResult, ConcealErrorView>,
)
    requires
        clusters_are_chars(alpha),
        alphabet_ok(alpha, cs),
        m.acts == variant_actions(Variant::V3),
        m.set == cs.charset(),
        forall|k: int| 0 <= k < ws.len() ==> word_in(#[trigger] ws[k], alpha),
        is_bit_seq(bits),
        !splits_chunk(Variant::V3, tu_rate(m.set.len()), bits.len()),
        pivot_line(ws, m.pivot).len() > 0,
        el_chain(
            m,
            glen(pivot_line(ws, m.pivot)),
            before,
            0,
            ElState { line: pivot_line(ws, m.pivot), words: ws.skip(line_count(ws, m.pivot)), bits },
            after,
            res,
        ),
        res is Ok,
    ensures
        line_read_back(m, ws, bits, after, res),
{
    let pivot = m.pivot;
    let r = tu_rate(m.set.len());
    let k = line_count(ws, pivot);
    let pl = pivot_line(ws, pivot);
    let pll = glen(pl);
    lemma_pivot_line_spaced(alpha, ws, pivot);
    lemma_charset_shape(cs);
    let w0 = ws.take(k);
    assert forall|i: int| 0 <= i < w0.len() implies word_in(#[trigger] w0[i], alpha) by {
        assert(w0[i] == ws[i]);
    }
    lemma_spaced_line(alpha, w0, cs);
    let s0 = ElState { line: pl, words: ws.skip(k), bits };
    let (s1, r1) = lemma_chain_step(m, pll, before, 0, s0, after, res);
    assert(m.acts[0] == MethodActions::RandomASCIIWhitespace);
    assert(m.acts[1] == MethodActions::LineExtend);
    assert(m.acts[2] == MethodActions::TrailingASCIIWhitespace);
    if bits.len() == 0 {
        assert(after == s0);
        assert(bits.skip(0) =~= bits);
        assert(reveal_line(m, pl).take(0) =~= bits.take(0));
        return;
    }
    let p = lemma_first_rw_line(alpha, m, cs, ws, before, s0, s1, r1);
    let l1 = s1.line;
    let (s2, r2) = lemma_chain_step(m, pll, before, 1, s1, after, res);
    if bits.len() == 1 {
        assert(after == s1);
        lemma_reveal_v3(m, l1);
        assert(s1.bits.len() == 0);
        assert(bits.skip(1) =~= s1.bits);
        assert(reveal_line(m, l1).take(1) =~= bits.take(1));
        return;
    }
    assert(is_bit_seq(s1.bits)) by {
        assert forall|i: int| 0 <= i < s1.bits.len() implies #[trigger] s1.bits[i] <= 1 by {
            assert(s1.bits[i] == bits[i + 1]);
        }
    }
    assert(bits[0] <= 1);
    lemma_second_le_line(alpha, m, cs, ws, bits[0], p, s1, s2, r2);
    let l2 = s2.line;
    let (s3, r3) = lemma_chain_step(m, pll, before, 2, s2, after, res);
    assert(s2.bits =~= bits.skip(2));
    assert(is_bit_seq(s2.bits)) by {
        assert forall|i: int| 0 <= i < s2.bits.len() implies #[trigger] s2.bits[i] <= 1 by {
            assert(s2.bits[i] == bits[i + 2]);
        }
    }
    lemma_tw_outcome(m, cs, s2, s3, r3);
    lemma_reveal_v3(m, s3.line);
    if bits.len() == 2 {
        assert(after == s2);
        assert(bits.skip(2) =~= s2.bits);
        assert(reveal_line(m, l2).take(2) =~= bits.take(2));
    } else {
        lemma_chain_end(m, pll, before, s3, after, res);
        assert(s3.bits =~= bits.skip(2 + r as int));
        assert(reveal_line(m, s3.line) =~= bits.take(2 + r as int));
        assert(reveal_line(m, s3.line).take(2 + r as int) =~= bits.take(2 + r as int));
    }
}

/// The one-character set: a single space, one bit per line.
pub proof fn lemma_one_bit_set()
    ensures
        CharacterSetType::OneBit.charset() == seq![' '],
        tu_rate(CharacterSetType::OneBit.charset().len()) == 1,
        char_number(seq![' '], ' ') == 1,
{
    assert(CharacterSetType::OneBit.charset() =~= seq![' ']);
    reveal_with_fuel(crate::binary::bit_length, 3);
    assert(seq![' '].drop_last() =~= Seq::<char>::empty());
}

/// One line hidden with the second variant and the one-character set is read back.
pub proof fn lemma_line_v2(
    alpha: Set<char>,
    m: ElSetup,
    ws: Seq<Seq<char>>,
    bits: Seq<u8>,
    before: nat,
    after: ElState,
    res: Result<MethodResult, ConcealErrorView>,
)
    requires
        clusters_are_chars(alpha),
        alphabet_ok(alpha, CharacterSetType::OneBit),
        m.acts == variant_actions(Variant::V2),
        m.set == CharacterSetType::OneBit.charset(),
        forall|k: int| 0 <= k < ws.len() ==> word_in(#[trigger] ws[k], alpha),
        is_bit_seq(bits),
        pivot_line(ws, m.pivot).len() > 0,
        el_chain(
            m,
            glen(pivot_line(ws, m.pivot)),
            before,
            0,
            ElState { line: pivot_line(ws, m.pivot), words: ws.skip(line_count(ws, m.pivot)), bits },
            after,
            res,
        ),
        res is Ok,
    ensures
        line_read_back(m, ws, bits, after, res),
{
    let cs = CharacterSetType::OneBit;
    let pivot = m.pivot;
    let k = line_count(ws, pivot);
    let pl = pivot_line(ws, pivot);
    let pll = glen(pl);
    lemma_one_bit_set();
    lemma_space_counts();
    lemma_pivot_line_spaced(alpha, ws, pivot);
    let w0 = ws.take(k);
    assert forall|i: int| 0 <= i < w0.len() implies word_in(#[trigger] w0[i], alpha) by {
        assert(w0[i] == ws[i]);
    }
    lemma_spaced_line(alpha, w0, cs);
    let s0 = ElState { line: pl, words: ws.skip(k), bits };
    let (s1, r1) = lemma_chain_step(m, pll, before, 0, s0, after, res);
    assert(m.acts[0] == MethodActions::LineExtend);
    assert(m.acts[1] == MethodActions::TrailingASCIIWhitespace);
    assert(m.acts[2] == MethodActions::RandomASCIIWhitespace);
    if bits.len() == 0 {
        assert(after == s0);
        assert(bits.skip(0) =~= bits);
        assert(reveal_line(m, pl).take(0) =~= bits.take(0));
        return;
    }
    lemma_first_le_line(alpha, m, cs, ws, s0, s1, r1);
    let l1 = s1.line;
    assert(l1.last() == l1[l1.len() - 1]);
    let (s2, r2) = lemma_chain_step(m, pll, before, 1, s1, after, res);
    assert(is_bit_seq(s1.bits)) by {
        assert forall|i: int| 0 <= i < s1.bits.len() implies #[trigger] s1.bits[i] <= 1 by {
            assert(s1.bits[i] == bits[i + 1]);
        }
    }
    lemma_tw_outcome(m, cs, s1, s2, r2);
    if bits.len() == 1 {
        assert(after == s1);
        lemma_reveal_v2(m, l1);
        lemma_rw_revealed_plain(alpha, l1);
        assert(bits.skip(1) =~= s1.bits);
        assert(reveal_line(m, l1).take(1) =~= bits.take(1));
        return;
    }
    let l2 = s2.line;
    let idx = tw_index(s1.bits, 1);
    assert(l2 == l1 || l2 == l1.push(' ')) by {
        lemma_tw_bits_order(s1.bits, 1);
        assert(pow2_nat(1) == 2) by {
            reveal_with_fuel(pow2_nat, 2);
        }
    }
    assert(plain_in(l2, alpha) && spaces_only(l2) && !(exists|j: int| #[trigger] double_at(l2, j))) by {
        lemma_plain_concat(alpha, l1, seq![' ']);
        assert(l1.push(' ') == l1 + seq![' ']);
        lemma_single_spaced_no_double(l1);
        if exists|j: int| #[trigger] double_at(l2, j) {
            let j = choose|j: int| #[trigger] double_at(l2, j);
            if j < l1.len() {
                assert(double_at(l1, j));
            }
        }
    }
    lemma_rw_revealed_plain(alpha, l2);
    let (s3, r3) = lemma_chain_step(m, pll, before, 2, s2, after, res);
    assert(s2.bits =~= bits.skip(2));
    assert(s1.bits.take(1) =~= seq![bits[1]]);
    if bits.len() == 2 {
        assert(after == s2);
        lemma_reveal_v2(m, l2);
        assert(bits.skip(2) =~= s2.bits);
        assert(reveal_line(m, l2).take(2) =~= bits.take(2));
        return;
    }
    assert(is_bit_seq(s2.bits)) by {
        assert forall|i: int| 0 <= i < s2.bits.len() implies #[trigger] s2.bits[i] <= 1 by {
            assert(s2.bits[i] == bits[i + 2]);
        }
    }
    let p = lemma_rw_outcome(alpha, m, before, s2, s3, r3);
    lemma_chain_end(m, pll, before, s3, after, res);
    lemma_reveal_v2(m, s3.line);
    assert(s2.bits[0] == bits[2]);
    if bits[2] == 1 {
        lemma_rw_roundtrip(alpha, l2, p);
    }
    assert(s3.bits =~= bits.skip(3));
    assert(reveal_line(m, s3.line) =~= bits.take(3));
    assert(reveal_line(m, s3.line).take(3) =~= bits.take(3));
}

/// A text without line feeds is one piece.
pub proof fn lemma_segments_single(a: Seq<char>)
    requires
        !a.contains('\n'),
    ensures
        segments(a) == seq![a],
    decreases a.len(),
{
    if a.len() > 0 {
        let p = a.drop_last();
        assert(!p.contains('\n')) by {
            if p.contains('\n') {
                let j = choose|j: int| 0 <= j < p.len() && p[j] == '\n';
                assert(a[j] == '\n');
            }
        }
        lemma_segments_single(p);
        assert(a.last() != '\n') by {
            assert(a[a.len() - 1] == a.last());
        }
        assert(p.push(a.last()) =~= a);
        assert(seq![p].update(0, p.push(a.last())) =~= seq![a]);
    } else {
        assert(a =~= Seq::<char>::empty());
    }
}

/// The pieces of a text split at a line feed are the pieces before it and the pieces after.
pub proof fn lemma_segments_split(a: Seq<char>, b: Seq<char>)
    ensures
        segments(a + seq!['\n'] + b) == segments(a) + segments(b),
    decreases b.len(),
{
    let t = a + seq!['\n'] + b;
    if b.len() == 0 {
        assert(t =~= a + seq!['\n']);
        assert((a + seq!['\n']).drop_last() =~= a);
        assert(segments(Seq::<char>::empty()) == seq![Seq::<char>::empty()]);
        assert(segments(a).push(Seq::<char>::empty()) =~= segments(a) + seq![Seq::<char>::empty()]);
    } else {
        let b1 = b.drop_last();
        lemma_segments_split(a, b1);
        assert(t.drop_last() =~= a + seq!['\n'] + b1);
        assert(t.last() == b.last());
        lemma_segments_len(b1);
        lemma_segments_len(a);
        let pa = segments(a);
        let pb = segments(b1);
        if b.last() == '\n' {
            assert((pa + pb).push(Seq::<char>::empty()) =~= pa + pb.push(Seq::<char>::empty()));
        } else {
            let prev = pa + pb;
            assert(prev.last() == pb.last());
            assert(prev.update(prev.len() - 1, prev.last().push(b.last())) =~= pa + pb.update(
                pb.len() - 1,
                pb.last().push(b.last()),
            ));
        }
    }
}

/// Reading lines one after another: what two runs of lines give, one after the other.
pub proof fn lemma_reveal_text_concat(m: ElSetup, a: Seq<Seq<char>>, b: Seq<Seq<char>>)
    ensures
        reveal_text(m, a + b) == reveal_text(m, a) + reveal_text(m, b),
    decreases b.len(),
{
    if b.len() == 0 {
        assert(a + b =~= a);
        assert(reveal_text(m, a) + Seq::<u8>::empty() =~= reveal_text(m, a));
    } else {
        lemma_reveal_text_concat(m, a, b.drop_last());
        assert((a + b).drop_last() =~= a + b.drop_last());
        assert((a + b).last() == b.last());
        assert(reveal_text(m, a) + reveal_text(m, b.drop_last()) + reveal_line(m, b.last()) =~= reveal_text(
            m,
            a,
        ) + (reveal_text(m, b.drop_last()) + reveal_line(m, b.last())));
    }
}

/// Reading the line first and then the lines of the text after a line feed.
pub proof fn lemma_reveal_first_line(m: ElSetup, l: Seq<char>, rest: Seq<char>)
    requires
        !l.contains('\n'),
    ensures
        reveal_text(m, segments(l + seq!['\n'] + rest)) == reveal_line(m, l) + reveal_text(
            m,
            segments(rest),
        ),
        reveal_text(m, segments(l)) == reveal_line(m, l),
{
    lemma_segments_single(l);
    lemma_segments_split(l, rest);
    lemma_reveal_text_concat(m, seq![l], segments(rest));
    assert(seq![l].drop_last() =~= Seq::<Seq<char>>::empty());
    assert(reveal_text(m, Seq::<Seq<char>>::empty()) == Seq::<u8>::empty());
    assert(reveal_text(m, seq![l]) =~= reveal_line(m, l));
}

/// The configurations the law speaks of: the submethods of a variant, a character set
/// and, for the second variant (Random Whitespace after Trailing Whitespace), the
/// one-character set.
pub open spec fn law_setup(m: ElSetup, v: Variant, cs: CharacterSetType) -> bool {
    &&& m.acts == variant_actions(v)
    &&& m.set == cs.charset()
    &&& (v == Variant::V2 ==> cs == CharacterSetType::OneBit)
}

/// One line of any variant the law speaks of is read back.
pub proof fn lemma_line_read_back(
    alpha: Set<char>,
    m: ElSetup,
    v: Variant,
    cs: CharacterSetType,
    ws: Seq<Seq<char>>,
    bits: Seq<u8>,
    before: nat,
    after: ElState,
    res: Result<MethodResult, ConcealErrorView>,
)
    requires
        clusters_are_chars(alpha),
        alphabet_ok(alpha, cs),
        law_setup(m, v, cs),
        forall|k: int| 0 <= k < ws.len() ==> word_in(#[trigger] ws[k], alpha),
        is_bit_seq(bits),
        !splits_chunk(v, tu_rate(m.set.len()), bits.len()),
        pivot_line(ws, m.pivot).len() > 0,
        el_chain(
            m,
            glen(pivot_line(ws, m.pivot)),
            before,
            0,
            ElState { line: pivot_line(ws, m.pivot), words: ws.skip(line_count(ws, m.pivot)), bits },
            after,
            res,
        ),
        res is Ok,
    ensures
        line_read_back(m, ws, bits, after, res),
{
    match v {
        Variant::V1 => lemma_line_v1(alpha, m, cs, ws, bits, before, after, res),
        Variant::V2 => lemma_line_v2(alpha, m, ws, bits, before, after, res),
        Variant::V3 => lemma_line_v3(alpha, m, cs, ws, bits, before, after, res),
    }
}

/// The first line of a hiding and how the rest goes on.
pub proof fn lemma_conceal_rel_unfold(
    m: ElSetup,
    ws: Seq<Seq<char>>,
    bits: Seq<u8>,
    before: nat,
    out: Result<Seq<char>, ConcealErrorView>,
) -> (line: (ElState, Result<MethodResult, ConcealErrorView>))
    requires
        conceal_rel(m, ws, bits, before, out),
    ensures
        conceal_line(m, ws, bits, before, line.0, line.1),
        match line.1 {
            Err(e) => out == Err::<Seq<char>, ConcealErrorView>(e),
            Ok(MethodResult::NoDataLeft) => out == Ok::<Seq<char>, ConcealErrorView>(
                line.0.line + trailing_lines(line.0.words, m.pivot),
            ),
            Ok(MethodResult::Success) => line.0.words.len() < ws.len() && exists|
                o: Result<Seq<char>, ConcealErrorView>,
            |
                conceal_rel(m, line.0.words, line.0.bits, before + crate::chars::byte_len(line.0.line) + 1, o)
                    && out == #[trigger] prepend_text(line.0.line + seq!['\n'], o),
        },
{
    choose|after: ElState, r: Result<MethodResult, ConcealErrorView>|
        #[trigger] conceal_line(m, ws, bits, before, after, r) && match r {
            Err(e) => out == Err::<Seq<char>, ConcealErrorView>(e),
            Ok(MethodResult::NoDataLeft) => out == Ok::<Seq<char>, ConcealErrorView>(
                after.line + trailing_lines(after.words, m.pivot),
            ),
            Ok(MethodResult::Success) => after.words.len() < ws.len() && exists|
                o: Result<Seq<char>, ConcealErrorView>,
            |
                conceal_rel(m, after.words, after.bits, before + crate::chars::byte_len(after.line) + 1, o)
                    && out == #[trigger] prepend_text(after.line + seq!['\n'], o),
        }
}

/// Revealing gives back what hiding put in a text: when hiding `bits` in the cover words
/// `ws` succeeds with `text`, reading the lines of `text` gives `bits` first.
///
/// It is stated for covers whose words are written in an alphabet `alpha` that the
/// segmentation splits into single characters, holding the space and no character of
/// the set but the space; `lemma_conceal_reveal_latin` applies it to the characters
/// before U+0300. It leaves out two kinds of input on which revealing does not give the
/// bits back: with the second variant, a character set other than the one-character set (Random Whitespace may then double the
/// space before a trailing set character, where revealing does not look); and a number of
/// bits that runs out inside the Trailing Whitespace part of a line (the last character
/// then holds fewer bits than the rate, which revealing reads after zeros).
pub proof fn lemma_conceal_reveal(
    alpha: Set<char>,
    m: ElSetup,
    v: Variant,
    cs: CharacterSetType,
    ws: Seq<Seq<char>>,
    bits: Seq<u8>,
    before: nat,
    text: Seq<char>,
)
    requires
        clusters_are_chars(alpha),
        alphabet_ok(alpha, cs),
        law_setup(m, v, cs),
        forall|k: int| 0 <= k < ws.len() ==> word_in(#[trigger] ws[k], alpha),
        is_bit_seq(bits),
        !splits_chunk(v, tu_rate(m.set.len()), bits.len() % (2 + tu_rate(m.set.len()))),
        conceal_rel(m, ws, bits, before, Ok::<Seq<char>, ConcealErrorView>(text)),
    ensures
        reveal_text(m, segments(text)).len() >= bits.len(),
        reveal_text(m, segments(text)).take(bits.len() as int) == bits,
    decreases ws.len(),
{
    let r = tu_rate(m.set.len());
    let d = 2 + r;
    lemma_charset_shape(cs);
    let (after, res) = lemma_conceal_rel_unfold(m, ws, bits, before, Ok::<Seq<char>, ConcealErrorView>(text));
    let pl = pivot_line(ws, m.pivot);
    let k = line_count(ws, m.pivot);
    lemma_pivot_line_spaced(alpha, ws, m.pivot);
    assert(res is Ok);
    assert(pl.len() > 0);
    assert(!splits_chunk(v, r, bits.len())) by {
        if bits.len() < d {
            assert(bits.len() % d == bits.len()) by (nonlinear_arith)
                requires
                    bits.len() < d,
            ;
        }
    }
    lemma_line_read_back(alpha, m, v, cs, ws, bits, before, after, res);
    let c = bits.len() - after.bits.len();
    let got = reveal_line(m, after.line);
    if res == Ok::<MethodResult, ConcealErrorView>(MethodResult::NoDataLeft) {
        let tl = trailing_lines(after.words, m.pivot);
        assert(text == after.line + tl);
        lemma_reveal_first_line(m, after.line, tl.skip(1));
        if tl.len() == 0 {
            assert(text =~= after.line);
        } else {
            assert(tl =~= seq!['\n'] + tl.skip(1));
            assert(text =~= after.line + seq!['\n'] + tl.skip(1));
        }
        let all = reveal_text(m, segments(text));
        assert(all.take(bits.len() as int) =~= got.take(c));
        assert(bits.take(c) =~= bits);
    } else {
        assert(res == Ok::<MethodResult, ConcealErrorView>(MethodResult::Success));
        let b2 = before + crate::chars::byte_len(after.line) + 1;
        let o = choose|o: Result<Seq<char>, ConcealErrorView>|
            conceal_rel(m, after.words, after.bits, b2, o) && Ok::<Seq<char>, ConcealErrorView>(text)
                == #[trigger] prepend_text(after.line + seq!['\n'], o);
        assert(o is Ok);
        let t2 = o->Ok_0;
        assert(text == after.line + seq!['\n'] + t2);
        // the rest of the words and bits meet the law's conditions
        let j = if after.words == ws.skip(k) {
            k
        } else {
            k + 1
        };
        assert(after.words == ws.skip(j));
        assert(0 <= j <= ws.len());
        assert forall|i: int| 0 <= i < after.words.len() implies word_in(#[trigger] after.words[i], alpha) by {
            assert(after.words[i] == ws[j + i]);
        }
        assert(is_bit_seq(after.bits)) by {
            assert forall|i: int| 0 <= i < after.bits.len() implies #[trigger] after.bits[i] <= 1 by {
                assert(after.bits[i] == bits[c + i]);
            }
        }
        assert(c == d);
        assert(after.bits.len() % d == bits.len() % d) by (nonlinear_arith)
            requires
                after.bits.len() + d == bits.len(),
                d > 0,
        ;
        lemma_conceal_reveal(alpha, m, v, cs, after.words, after.bits, b2, t2);
        lemma_reveal_first_line(m, after.line, t2);
        let rest = reveal_text(m, segments(t2));
        let all = reveal_text(m, segments(text));
        assert(all == got + rest);
        assert(got =~= bits.take(c));
        assert(all.take(bits.len() as int) =~= got + rest.take(after.bits.len() as int));
        assert(bits =~= bits.take(c) + after.bits);
    }
}

/// Revealing gives back what hiding put in a text, for every cover whose words are
/// written in characters before U+0300 (Latin letters with their accents among them)
/// without a carriage return.
pub proof fn lemma_conceal_reveal_latin(
    m: ElSetup,
    v: Variant,
    cs: CharacterSetType,
    ws: Seq<Seq<char>>,
    bits: Seq<u8>,
    text: Seq<char>,
)
    requires
        law_setup(m, v, cs),
        forall|k: int| 0 <= k < ws.len() ==> word_in(#[trigger] ws[k], latin_chars()),
        is_bit_seq(bits),
        !splits_chunk(v, tu_rate(m.set.len()), bits.len() % (2 + tu_rate(m.set.len()))),
        conceal_rel(m, ws, bits, 0, Ok::<Seq<char>, ConcealErrorView>(text)),
    ensures
        reveal_text(m, segments(text)).len() >= bits.len(),
        reveal_text(m, segments(text)).take(bits.len() as int) == bits,
{
    lemma_latin_clusters();
    lemma_latin_alphabet(cs);
    lemma_conceal_reveal(latin_chars(), m, v, cs, ws, bits, 0, text);
}

} // verus!
