//! Decoding gives back what encoding put in a text, for the complex methods: the shape
//! of the lines they build, what each simple method reads from them, and the law that
//! ties `encode_rel` to `decode_lines`.
use vstd::prelude::*;

use crate::chars::{
    byte_len, collapse_white_space, is_white_space, lemma_byte_len_concat, lemma_byte_len_ge_len,
    line_parts, lines_of, strip_cr, trim_end, trim_end_in,
};
use crate::method::line_extend::{le_measured, POSSIBLE_LINE_ENDINGS_SET};
use crate::encoder::{EncState, EncoderResult, ErrorKind};
use crate::method::complex::eluv::{eluv_methods, ELUVMethodVariant};
use crate::method::complex::extended_line::{extended_line_methods, ExtendedLineMethodVariant};
use crate::method::complex::{
    chain_from, decode_line, decode_lines, encode_rel, padded, prepend, rest_lines, sub_decoded,
    sub_rate, sub_step, total_rate, Submethod,
};
use crate::method::line_extend::le_step;
use crate::method::random_whitespace::{
    has_double_space, rw_decoded, rw_inserted, rw_position, rw_step, scan_whitespace,
};
use crate::method::random_whitespace::first_index_of;
use crate::binary::{
    bits_of_bytes, bits_value, bytes_of_bits, is_bit_seq, lemma_bits_value_bound, pow2_nat, u32_bits,
};
use crate::method::line_extend::le_decoded;
use crate::method::trailing_unicode::{tu_decoded, tu_number, tu_rate, tu_step, tu_taken};
use crate::method::trailing_whitespace::{tw_decoded, tw_step};
use crate::ptero_text::extended_line_method::character_sets::char_number;
use crate::ptero_text::extended_line_method::character_sets::{CharacterSetType, GetCharacterSet};
use crate::context::{
    fit_count, fit_count_from, fits_next, lemma_fit_count_from_bounds, lemma_fit_count_from_fits,
    lemma_spaced_step, line_outcome, spaced_words,
};
use crate::ptero_text::extended_line_method::roundtrip::{
    lemma_charset_chars, lemma_first_index, lemma_space_counts, lemma_spaced_shape, plain_in,
    single_spaced, spaced, word_in,
};

verus! {

/// The characters a line of cover words may hold: the space, and every character that
/// is no possible line ending (so in no character set) and no carriage return.
pub open spec fn line_alphabet() -> Set<char> {
    Set::new(|c: char| c == ' ' || (c != '\r' && !POSSIBLE_LINE_ENDINGS_SET@.contains(c)))
}

/// A cover word the law speaks of: non-empty, without whitespace, and holding no
/// possible line ending (so no character of any set).
pub open spec fn line_word(w: Seq<char>) -> bool {
    word_in(w, line_alphabet())
}

/// A character of a word is in no character set.
pub proof fn lemma_word_char_not_in_set(cs: CharacterSetType, c: char)
    requires
        line_alphabet().contains(c),
        c != ' ',
    ensures
        char_number(cs.charset(), c) == 0,
{
    lemma_endings(cs);
    assert(!cs.charset().contains(c)) by {
        if cs.charset().contains(c) {
            let i = choose|i: int| 0 <= i < cs.charset().len() && cs.charset()[i] == c;
            assert(POSSIBLE_LINE_ENDINGS_SET@.contains(cs.charset()[i]));
        }
    }
    crate::ptero_text::extended_line_method::character_sets::lemma_char_number_absent(cs.charset(), c);
}

/// Words laid out with a space after each are the words with single spaces and one
/// more space.
pub proof fn lemma_spaced_words(ws: Seq<Seq<char>>, j: int)
    requires
        1 <= j <= ws.len(),
    ensures
        spaced_words(ws.take(j)) == spaced(ws.take(j)) + seq![' '],
    decreases j,
{
    lemma_spaced_step(ws, j - 1);
    let t = ws.take(j);
    assert(t.drop_last() =~= ws.take(j - 1));
    assert(t.last() == ws[j - 1]);
    if j == 1 {
        assert(ws.take(0) =~= Seq::<Seq<char>>::empty());
        assert(spaced_words(ws.take(0)) =~= Seq::<char>::empty());
        assert(t =~= seq![ws[0]]);
        assert(spaced_words(t) =~= spaced(t) + seq![' ']);
    } else {
        lemma_spaced_words(ws, j - 1);
        assert(spaced(t) == spaced(ws.take(j - 1)) + seq![' '] + ws[j - 1]);
        assert(spaced_words(t) =~= spaced(t) + seq![' ']);
    }
}

/// A fitting count below the number of words stops at a word that does not fit.
pub proof fn lemma_fit_count_stops(ws: Seq<Seq<char>>, pivot: int, i: int)
    requires
        0 <= i <= ws.len(),
    ensures
        fit_count_from(ws, pivot, i) < ws.len() ==> !fits_next(ws, pivot, fit_count_from(ws, pivot, i)),
    decreases ws.len() - i,
{
    if i < ws.len() && fits_next(ws, pivot, i) {
        lemma_fit_count_stops(ws, pivot, i + 1);
    }
}

/// Cover words laid out with single spaces take at least two bytes per word, less one.
pub proof fn lemma_spaced_min_len(ws: Seq<Seq<char>>)
    requires
        ws.len() > 0,
        forall|k: int| 0 <= k < ws.len() ==> line_word(#[trigger] ws[k]),
    ensures
        byte_len(spaced(ws)) >= 2 * ws.len() - 1,
    decreases ws.len(),
{
    lemma_byte_len_ge_len(spaced(ws));
    if ws.len() > 1 {
        let p = ws.drop_last();
        assert forall|k: int| 0 <= k < p.len() implies line_word(#[trigger] p[k]) by {
            assert(p[k] == ws[k]);
        }
        lemma_spaced_min_len(p);
        lemma_byte_len_ge_len(ws.last());
        assert(line_word(ws[ws.len() - 1]));
        lemma_byte_len_concat(spaced(p), seq![' ']);
        lemma_byte_len_concat(spaced(p) + seq![' '], ws.last());
        lemma_byte_len_ge_len(seq![' ']);
    } else {
        assert(line_word(ws[0]));
    }
}

/// The line loaded from cover words when words are left after it: the words that fit
/// with single spaces, within the pivot, too short for the next word, and with at most
/// half the pivot (rounded up) words.
pub proof fn lemma_loaded_line(ws: Seq<Seq<char>>, pivot: int)
    requires
        forall|k: int| 0 <= k < ws.len() ==> line_word(#[trigger] ws[k]),
        line_outcome(ws, pivot) is Ok,
        fit_count(ws, pivot) < ws.len(),
    ensures
        ({
            let k = fit_count(ws, pivot);
            let l = line_outcome(ws, pivot)->Ok_0;
            &&& 1 <= k < ws.len()
            &&& l == spaced(ws.take(k))
            &&& byte_len(l) <= pivot
            &&& byte_len(l) + 1 + byte_len(ws[k]) > pivot
            &&& 2 * k - 1 <= pivot
        }),
{
    crate::context::lemma_line_outcome_count(ws, pivot);
    let k = fit_count(ws, pivot);
    let w0 = ws.take(k);
    assert forall|i: int| 0 <= i < w0.len() implies line_word(#[trigger] w0[i]) by {
        assert(w0[i] == ws[i]);
    }
    lemma_spaced_shape(line_alphabet(), w0);
    lemma_spaced_words(ws, k);
    let s = spaced(w0);
    assert((s + seq![' ']).drop_last() =~= s);
    assert(is_white_space(' ')) by {
        assert((' ' as u32) == 0x20);
    }
    assert(trim_end(s + seq![' ']) == trim_end(s));
    assert(trim_end(s) == s);
    crate::context::lemma_loaded_line_within_pivot(ws, pivot);
    lemma_fit_count_stops(ws, pivot, 0);
    lemma_byte_len_concat(s, seq![' ']);
    assert(byte_len(seq![' ']) == 1) by {
        reveal_with_fuel(byte_len, 2);
        assert(seq![' '].drop_last() =~= Seq::<char>::empty());
    }
    lemma_spaced_min_len(w0);
}

/// The possible line endings are spaces or beyond ASCII, and hold a space and every
/// character of every set.
pub proof fn lemma_endings(cs: CharacterSetType)
    ensures
        forall|i: int| 0 <= i < POSSIBLE_LINE_ENDINGS_SET@.len() ==> POSSIBLE_LINE_ENDINGS_SET@[i] == ' '
            || (#[trigger] POSSIBLE_LINE_ENDINGS_SET@[i] as u32) >= 0x80,
        POSSIBLE_LINE_ENDINGS_SET@.contains(' '),
        forall|i: int| 0 <= i < cs.charset().len() ==> POSSIBLE_LINE_ENDINGS_SET@.contains(
            #[trigger] cs.charset()[i],
        ),
{
    let e = POSSIBLE_LINE_ENDINGS_SET@;
    assert(e[0] == ' ');
    assert forall|i: int| 0 <= i < cs.charset().len() implies e.contains(#[trigger] cs.charset()[i]) by {
        let set = cs.charset();
        if i < 15 && set[i] == e[i] {
            assert(e[i] == set[i]);
        } else if set[i] == e[30] {
            assert(e[30] == set[i]);
        } else {
            assert(cs == CharacterSetType::Full);
            assert(e[i] == set[i]);
        }
    }
}

/// Whether the whitespace of `s` is spaces, never two in a row.
pub open spec fn lone_spaces(s: Seq<char>) -> bool {
    &&& forall|j: int| 0 <= j < s.len() && is_white_space(#[trigger] s[j]) ==> s[j] == ' '
    &&& forall|j: int| 0 < j < s.len() ==> !(is_white_space(s[j - 1]) && is_white_space(#[trigger] s[j]))
}

/// Collapsing whitespace leaves a text of lone spaces as it is.
pub proof fn lemma_collapse_lone(s: Seq<char>)
    requires
        lone_spaces(s),
    ensures
        collapse_white_space(s) == s,
    decreases s.len(),
{
    if s.len() > 0 {
        let p = s.drop_last();
        assert(lone_spaces(p)) by {
            assert forall|j: int| 0 <= j < p.len() && is_white_space(#[trigger] p[j]) implies p[j] == ' ' by {
                assert(p[j] == s[j]);
            }
            assert forall|j: int| 0 < j < p.len() implies !(is_white_space(p[j - 1]) && is_white_space(
                #[trigger] p[j],
            )) by {
                assert(p[j] == s[j] && p[j - 1] == s[j - 1]);
            }
        }
        lemma_collapse_lone(p);
        assert(s.last() == s[s.len() - 1]);
        assert(p.push(s.last()) =~= s);
    }
}

/// A space put right before whitespace disappears when collapsing.
pub proof fn lemma_collapse_inserted(a: Seq<char>, b: Seq<char>)
    requires
        b.len() > 0,
        is_white_space(b[0]),
    ensures
        collapse_white_space(a + seq![' '] + b) == collapse_white_space(a + b),
    decreases b.len(),
{
    lemma_space_counts();
    let x = a + seq![' '] + b;
    let y = a + b;
    if b.len() == 1 {
        let a1 = a + seq![' '];
        assert(x.drop_last() =~= a1);
        assert(y.drop_last() =~= a);
        assert(x.last() == b[0] && y.last() == b[0]);
        assert(x[x.len() - 2] == ' ');
        assert(a1.drop_last() =~= a);
        assert(a1.last() == ' ');
        assert(collapse_white_space(x) == collapse_white_space(a1));
        if a.len() > 0 {
            assert(a1[a1.len() - 2] == a.last());
            assert(y[y.len() - 2] == a.last());
            assert(a.last() == a[a.len() - 1]);
        } else {
            assert(a1 =~= seq![' ']);
            assert(y =~= b);
            assert(collapse_white_space(a) == Seq::<char>::empty());
        }
    } else {
        let b1 = b.drop_last();
        lemma_collapse_inserted(a, b1);
        assert(x.drop_last() =~= a + seq![' '] + b1);
        assert(y.drop_last() =~= a + b1);
        assert(x.last() == b.last() && y.last() == b.last());
        assert(x[x.len() - 2] == b[b.len() - 2]);
        assert(y[y.len() - 2] == b[b.len() - 2]);
    }
}

/// Trimming line endings stops at a character of a word.
pub proof fn lemma_trim_endings(c: Seq<char>, tail: Seq<char>, cs: CharacterSetType)
    requires
        c.len() > 0,
        line_alphabet().contains(c.last()),
        c.last() != ' ',
        tail.len() <= 1,
        forall|i: int| 0 <= i < tail.len() ==> POSSIBLE_LINE_ENDINGS_SET@.contains(#[trigger] tail[i]),
    ensures
        trim_end_in(c + tail, POSSIBLE_LINE_ENDINGS_SET@) == c,
{
    lemma_endings(cs);
    let e = POSSIBLE_LINE_ENDINGS_SET@;
    assert(!e.contains(c.last()));
    assert(trim_end_in(c, e) == c);
    if tail.len() == 1 {
        assert(e.contains(tail[0]));
        assert((c + tail).last() == tail[0]);
        assert((c + tail).drop_last() =~= c);
    } else {
        assert(c + tail =~= c);
    }
}

/// What Random Whitespace and Line Extension read from a line of cover words laid out
/// with single spaces, followed by at most one line ending, in which a space may have been
/// doubled; and that the line holds no line feed or carriage return.
pub proof fn lemma_decoded_shape(c: Seq<char>, tail: Seq<char>, ins: bool, p: int, cs: CharacterSetType)
    requires
        c.len() > 0,
        plain_in(c, line_alphabet()),
        single_spaced(c),
        !is_white_space(c.last()),
        tail.len() <= 1,
        forall|i: int| 0 <= i < tail.len() ==> POSSIBLE_LINE_ENDINGS_SET@.contains(#[trigger] tail[i]),
        ins ==> 0 <= p < (c + tail).len() && (c + tail)[p] == ' ',
    ensures
        ({
            let x = c + tail;
            let l = if ins {
                rw_inserted(x, p)
            } else {
                x
            };
            &&& rw_decoded(l) == if ins {
                1u8
            } else {
                0u8
            }
            &&& le_measured(l) == c
            &&& l.len() > 0
            &&& l.last() == x.last()
            &&& !l.contains('\n')
            &&& !l.contains('\r')
        }),
{
    let x = c + tail;
    let e = POSSIBLE_LINE_ENDINGS_SET@;
    lemma_space_counts();
    lemma_endings(cs);
    assert(c.last() == c[c.len() - 1]);
    assert(line_alphabet().contains(c.last()));
    assert(lone_spaces(c));
    lemma_collapse_lone(c);
    // collapsing the line ending
    let t2 = if tail.len() == 1 {
        if is_white_space(tail[0]) {
            seq![' ']
        } else {
            tail
        }
    } else {
        tail
    };
    assert(collapse_white_space(x) == c + t2) by {
        if tail.len() == 1 {
            assert(x.drop_last() =~= c);
            assert(x.last() == tail[0]);
            assert(x[x.len() - 2] == c.last());
        } else {
            assert(x =~= c);
            assert(c + t2 =~= c);
        }
    }
    assert(forall|i: int| 0 <= i < t2.len() ==> e.contains(#[trigger] t2[i])) by {
        if tail.len() == 1 {
            assert(e.contains(tail[0]));
        }
    }
    lemma_trim_endings(c, t2, cs);
    assert(!has_double_space(x)) by {
        if has_double_space(x) {
            let i = choose|i: int| 0 <= i && i + 1 < x.len() && x[i] == ' ' && #[trigger] x[i + 1] == ' ';
            if i + 1 < c.len() {
                assert(x[i] == c[i] && x[i + 1] == c[i + 1]);
                assert(is_white_space(c[i]));
            } else {
                assert(x[i] == c.last());
            }
        }
    }
    assert(x.last() != '\n' && x.last() != '\r') by {
        assert(('\n' as u32) == 0xa && ('\r' as u32) == 0xd);
        if tail.len() == 1 {
            assert(x.last() == tail[0]);
        } else {
            assert(x.last() == c.last());
        }
    }
    assert(!x.contains('\n') && !x.contains('\r')) by {
        assert(('\n' as u32) == 0xa && ('\r' as u32) == 0xd);
        if x.contains('\n') || x.contains('\r') {
            let j = choose|j: int| 0 <= j < x.len() && (x[j] == '\n' || x[j] == '\r');
            if j < c.len() {
                assert(x[j] == c[j]);
                assert(is_white_space(c[j]));
            } else {
                assert(x[j] == tail[j - c.len()]);
            }
        }
    }
    if ins {
        let l = rw_inserted(x, p);
        assert(l[p] == ' ' && l[p + 1] == x[p]);
        assert(has_double_space(l));
        lemma_collapse_inserted(x.take(p), x.skip(p));
        assert(x.take(p) + x.skip(p) =~= x);
        assert(x.skip(p)[0] == x[p]);
        assert(l.last() == x.last()) by {
            assert(l[l.len() - 1] == x[x.len() - 1]);
        }
        assert(!l.contains('\n') && !l.contains('\r')) by {
            if l.contains('\n') || l.contains('\r') {
                let j = choose|j: int| 0 <= j < l.len() && (l[j] == '\n' || l[j] == '\r');
                if j < p {
                    assert(l[j] == x[j]);
                } else if j > p {
                    assert(l[j] == x[j - 1]);
                }
            }
        }
    }
}

/// `2^a` as a shift of one, for small `a`.
pub proof fn lemma_pow2_shift(a: nat)
    requires
        a < 5,
    ensures
        pow2_nat(a) == (1u32 << (a as u32)) as nat,
{
    reveal_with_fuel(pow2_nat, 6);
    if a == 0 {
        assert((1u32 << 0u32) == 1u32) by (bit_vector);
    } else if a == 1 {
        assert((1u32 << 1u32) == 2u32) by (bit_vector);
    } else if a == 2 {
        assert((1u32 << 2u32) == 4u32) by (bit_vector);
    } else if a == 3 {
        assert((1u32 << 3u32) == 8u32) by (bit_vector);
    } else {
        assert((1u32 << 4u32) == 16u32) by (bit_vector);
    }
}

/// Bit `j` (most significant first) of the number whose binary digits are `t`.
pub proof fn lemma_msb_bit(t: Seq<u8>, j: int)
    requires
        is_bit_seq(t),
        t.len() <= 5,
        0 <= j < t.len(),
    ensures
        ((bits_value(t) as u32) >> ((t.len() - 1 - j) as u32)) & 1u32 == t[j] as u32,
    decreases t.len(),
{
    let p = t.drop_last();
    assert(is_bit_seq(p)) by {
        assert forall|i: int| 0 <= i < p.len() implies #[trigger] p[i] <= 1 by {
            assert(p[i] == t[i]);
        }
    }
    lemma_bits_value_bound(p);
    crate::binary::lemma_pow2_mono(p.len(), 4);
    reveal_with_fuel(pow2_nat, 5);
    let m = bits_value(p) as u32;
    let b = t.last() as u32;
    assert(t.last() == t[t.len() - 1]);
    assert(t.last() <= 1);
    let n = bits_value(t) as u32;
    assert(bits_value(t) == 2 * bits_value(p) + t.last());
    assert(n == 2 * m + b);
    assert(m < 16);
    if j == t.len() - 1 {
        assert(((n >> 0u32) & 1u32) == b) by (bit_vector)
            requires
                n == 2 * m + b,
                b <= 1,
                m < 16,
        ;
        assert(((t.len() - 1 - j) as u32) == 0u32);
    } else {
        lemma_msb_bit(p, j);
        assert(p[j] == t[j]);
        let s = (p.len() - 1 - j) as u32;
        assert((n >> ((s + 1) as u32)) == (m >> s)) by (bit_vector)
            requires
                n == 2 * m + b,
                b <= 1,
                m < 16,
                s < 4,
        ;
        assert(((t.len() - 1 - j) as u32) == ((s + 1) as u32));
    }
}

/// Trailing Unicode reads back, most significant first, the bits it hid: the taken bits
/// come first, followed by zeros when fewer than the rate were left.
pub proof fn lemma_tu_bits(bits: Seq<u8>, r: nat)
    requires
        is_bit_seq(bits),
        1 <= r <= 5,
    ensures
        tu_number(bits, r) < pow2_nat(r),
        u32_bits(tu_number(bits, r) as u32).skip(32 - r).take(tu_taken(bits, r) as int) == bits.take(
            tu_taken(bits, r) as int,
        ),
{
    let k = tu_taken(bits, r);
    let t = bits.take(k as int);
    assert(is_bit_seq(t)) by {
        assert forall|i: int| 0 <= i < t.len() implies #[trigger] t[i] <= 1 by {
            assert(t[i] == bits[i]);
        }
    }
    let a = (r - k) as nat;
    lemma_bits_value_bound(t);
    crate::method::trailing_unicode::lemma_pow2_add(k, a);
    assert(k + a == r);
    let v = bits_value(t);
    let n = tu_number(bits, r);
    assert(n == v * pow2_nat(a));
    crate::binary::lemma_pow2_pos(a);
    assert(n < pow2_nat(r)) by (nonlinear_arith)
        requires
            n == v * pow2_nat(a),
            v < pow2_nat(k),
            pow2_nat(r) == pow2_nat(k) * pow2_nat(a),
            pow2_nat(a) >= 1,
    ;
    crate::binary::lemma_pow2_mono(r, 5);
    reveal_with_fuel(pow2_nat, 6);
    let d = u32_bits(n as u32).skip(32 - r).take(k as int);
    if k > 0 {
        crate::binary::lemma_pow2_mono(k, 5);
        lemma_pow2_shift(a);
        let pw = (1u32 << (a as u32));
        assert forall|j: int| 0 <= j < k implies #[trigger] d[j] == t[j] by {
            lemma_msb_bit(t, j);
            let vv = v as u32;
            let nn = n as u32;
            let aa = a as u32;
            let bb = (k - 1 - j) as u32;
            assert(nn == vv * pw) by (nonlinear_arith)
                requires
                    n == v * pow2_nat(a),
                    pow2_nat(a) == pw as nat,
                    n < 32,
                    nn == n,
                    vv == v,
            ;
            assert(((nn >> ((aa + bb) as u32)) & 1u32) == ((vv >> bb) & 1u32)) by (bit_vector)
                requires
                    nn == vv * pw,
                    pw == (1u32 << aa),
                    vv < 32,
                    aa < 5,
                    bb < 5,
            ;
            assert(d[j] == u32_bits(n as u32)[32 - r + j]);
            assert(((31 - (32 - r + j)) as u32) == ((aa + bb) as u32));
            assert(t[j] <= 1);
        }
    }
    assert(d =~= t);
}

/// The bits Trailing Unicode hides past those it took are zeros.
pub proof fn lemma_tu_zero_tail(bits: Seq<u8>, r: nat)
    requires
        is_bit_seq(bits),
        1 <= r <= 5,
    ensures
        forall|j: int|
            tu_taken(bits, r) <= j < r ==> #[trigger] u32_bits(tu_number(bits, r) as u32).skip(32 - r)[j] == 0,
{
    lemma_tu_bits(bits, r);
    crate::binary::lemma_pow2_mono(r, 5);
    reveal_with_fuel(pow2_nat, 6);
    let k = tu_taken(bits, r);
    let t = bits.take(k as int);
    let a = (r - k) as nat;
    let n = tu_number(bits, r);
    let v = bits_value(t);
    assert(n == v * pow2_nat(a));
    assert(n < 32);
    assert(is_bit_seq(t)) by {
        assert forall|i: int| 0 <= i < t.len() implies #[trigger] t[i] <= 1 by {
            assert(t[i] == bits[i]);
        }
    }
    lemma_bits_value_bound(t);
    crate::binary::lemma_pow2_mono(k, 5);
    assert(v < 32);
    if k == 0 {
        assert(t =~= Seq::<u8>::empty());
        assert(v == 0);
        assert(n == 0) by (nonlinear_arith)
            requires
                n == v * pow2_nat(a),
                v == 0,
        ;
        assert forall|j: int| 0 <= j < r implies #[trigger] u32_bits(n as u32).skip(32 - r)[j] == 0 by {
            let sh = (31 - (32 - r + j)) as u32;
            assert(u32_bits(n as u32).skip(32 - r)[j] == u32_bits(n as u32)[32 - r + j]);
            assert((0u32 >> sh) & 1u32 == 0u32) by (bit_vector);
        }
    } else {
        assert(a < 5);
        lemma_pow2_shift(a);
        let pw = (1u32 << (a as u32));
        assert forall|j: int| k <= j < r implies #[trigger] u32_bits(n as u32).skip(32 - r)[j] == 0 by {
            let nn = n as u32;
            let vv = v as u32;
            let aa = a as u32;
            let bb = (r - 1 - j) as u32;
            assert(bb < aa);
            assert(nn == vv * pw) by (nonlinear_arith)
                requires
                    n == v * pow2_nat(a),
                    pow2_nat(a) == pw as nat,
                    n < 32,
                    nn == n,
                    vv == v,
            ;
            assert(((nn >> bb) & 1u32) == 0u32) by (bit_vector)
                requires
                    nn == vv * pw,
                    pw == (1u32 << aa),
                    vv < 32,
                    aa < 5,
                    bb < aa,
            ;
            assert(u32_bits(n as u32).skip(32 - r)[j] == u32_bits(n as u32)[32 - r + j]);
            assert(((31 - (32 - r + j)) as u32) == bb);
        }
    }
}

/// One Trailing Unicode step on a line whose last character is in no set reads back,
/// most significant first, the bits it took followed by zeros up to the rate; and every
/// line reads as exactly the rate's number of bits.
pub proof fn lemma_trailing_unicode_line_law(
    cs: CharacterSetType,
    line: Seq<char>,
    before: EncState,
    after: EncState,
    res: Result<EncoderResult, ErrorKind>,
)
    requires
        tu_step(cs.charset(), before, after, res),
        res is Ok,
        before.current == Some(line),
        line.len() > 0,
        char_number(cs.charset(), line.last()) == 0,
        is_bit_seq(before.bits),
    ensures
        after.current is Some,
        ({
            let r = tu_rate(cs.charset().len());
            let k = tu_taken(before.bits, r);
            &&& before.bits.len() - after.bits.len() == k
            &&& tu_decoded(cs.charset(), after.current->0) == before.bits.take(k as int) + Seq::new(
                (r - k) as nat,
                |i: int| 0u8,
            )
        }),
        forall|l: Seq<char>| #[trigger] tu_decoded(cs.charset(), l).len() == tu_rate(cs.charset().len()),
{
    let set = cs.charset();
    let r = tu_rate(set.len());
    crate::method::trailing_unicode::lemma_charset_shape(cs);
    lemma_charset_chars(cs);
    let n = tu_number(before.bits, r);
    let k = tu_taken(before.bits, r);
    lemma_tu_bits(before.bits, r);
    lemma_tu_zero_tail(before.bits, r);
    crate::method::trailing_unicode::lemma_trailing_unicode_roundtrip(set, line, n);
    let d = u32_bits(n as u32).skip(32 - r);
    let e = before.bits.take(k as int) + Seq::new((r - k) as nat, |i: int| 0u8);
    assert forall|j: int| 0 <= j < r implies d[j] == e[j] by {
        if j < k {
            assert(d.take(k as int)[j] == d[j]);
        }
    }
    assert(d =~= e);
}

/// The scan for whitespace keeps a position that holds whitespace.
pub proof fn lemma_scan_keeps_white(s: Seq<char>, det: int, i: int, pos: int)
    requires
        0 <= i,
        0 <= pos < s.len(),
        is_white_space(s[pos]),
    ensures
        0 <= scan_whitespace(s, det, i, pos) < s.len(),
        is_white_space(s[scan_whitespace(s, det, i, pos)]),
    decreases s.len() - i,
{
    if i < s.len() && byte_len(s.take(i)) <= det {
        lemma_scan_keeps_white(s, det, i + 1, if is_white_space(s[i]) { i } else { pos });
    }
}

/// Where Random Whitespace doubles a space in a line holding a space: a whitespace
/// character of the line.
pub proof fn lemma_rw_position_white(s: Seq<char>, det: int)
    requires
        s.contains(' '),
    ensures
        0 <= rw_position(s, det) < s.len(),
        is_white_space(s[rw_position(s, det)]),
{
    lemma_first_index(s, ' ', 0);
    lemma_space_counts();
    let f = first_index_of(s, ' ', 0);
    if f == s.len() {
        let j = choose|j: int| 0 <= j < s.len() && s[j] == ' ';
        assert(s[j] != ' ');
    }
    lemma_scan_keeps_white(s, det, 0, f);
}

/// A line of the shape the complex methods build: words `c` laid out with single spaces,
/// then the line ending `tail`, and, when `ins`, a space doubled at `p`.
pub open spec fn shaped(l: Seq<char>, c: Seq<char>, tail: Seq<char>, ins: bool, p: int) -> bool {
    &&& l == if ins {
        rw_inserted(c + tail, p)
    } else {
        c + tail
    }
    &&& (ins ==> 0 <= p < (c + tail).len() && (c + tail)[p] == ' ')
}

/// Whether `c` is a line of cover words laid out with single spaces.
pub open spec fn word_line(c: Seq<char>) -> bool {
    &&& c.len() > 0
    &&& plain_in(c, line_alphabet())
    &&& single_spaced(c)
    &&& !is_white_space(c.last())
}

/// Line Extension on a shaped line without ending: the line as it was, or with the next
/// word after a space.
pub proof fn lemma_old_le(
    c: Seq<char>,
    ins: bool,
    p: int,
    before: EncState,
    after: EncState,
    res: Result<EncoderResult, ErrorKind>,
)
    requires
        word_line(c),
        before.current is Some,
        shaped(before.current->0, c, seq![], ins, p),
        before.bits.len() > 0,
        before.bits[0] <= 1,
        le_step(before, after, res),
        res is Ok,
    ensures
        res == Ok::<EncoderResult, ErrorKind>(EncoderResult::Success),
        after.bits == before.bits.drop_first(),
        before.bits[0] == 0 ==> after.current == before.current && after.words == before.words,
        before.bits[0] == 1 ==> before.words.len() > 0 && after.words == before.words.drop_first()
            && after.current is Some && shaped(after.current->0, c + seq![' '] + before.words[0], seq![], ins, p),
{
    if before.bits[0] == 1 {
        let l = before.current->0;
        let w = before.words[0];
        assert(c + seq![] =~= c);
        assert((c + seq![' '] + w) + seq![] =~= c + seq![' '] + w);
        if ins {
            assert(l + seq![' '] + w =~= rw_inserted(c + seq![' '] + w, p));
            assert((c + seq![' '] + w)[p] == c[p]);
        }
    }
}

/// Random Whitespace on a shaped line without a doubled space, whose ending is empty or
/// a space, and whose words hold a space: the line as it was, or with one of its spaces
/// doubled.
pub proof fn lemma_old_rw(
    c: Seq<char>,
    tail: Seq<char>,
    before: EncState,
    after: EncState,
    res: Result<EncoderResult, ErrorKind>,
) -> (p: int)
    requires
        word_line(c),
        c.contains(' '),
        tail == Seq::<char>::empty() || tail == seq![' '],
        before.current == Some(c + tail),
        before.bits.len() > 0,
        before.bits[0] <= 1,
        rw_step(before, after, res),
        res is Ok,
    ensures
        res == Ok::<EncoderResult, ErrorKind>(EncoderResult::Success),
        after.bits == before.bits.drop_first(),
        after.words == before.words,
        before.bits[0] == 0 ==> after.current == before.current,
        before.bits[0] == 1 ==> after.current is Some && shaped(after.current->0, c, tail, true, p),
{
    let x = c + tail;
    if before.bits[0] == 1 {
        assert(x.len() > 0);
        let det = choose|det: int|
            0 <= det < byte_len(x) && after.current == Some(#[trigger] rw_inserted(x, rw_position(x, det)));
        let j = choose|j: int| 0 <= j < c.len() && c[j] == ' ';
        assert(x[j] == ' ');
        lemma_rw_position_white(x, det);
        let q = rw_position(x, det);
        if q < c.len() {
            assert(x[q] == c[q]);
        } else {
            assert(x[q] == tail[q - c.len()]);
        }
        q
    } else {
        0
    }
}

/// Trailing Whitespace on a shaped line without ending: the line as it was, or ending
/// with a space.
pub proof fn lemma_old_tw(
    c: Seq<char>,
    ins: bool,
    p: int,
    before: EncState,
    after: EncState,
    res: Result<EncoderResult, ErrorKind>,
)
    requires
        word_line(c),
        before.current is Some,
        shaped(before.current->0, c, seq![], ins, p),
        before.bits.len() > 0,
        before.bits[0] <= 1,
        tw_step(before, after, res),
    ensures
        res == Ok::<EncoderResult, ErrorKind>(EncoderResult::Success),
        after.bits == before.bits.drop_first(),
        after.words == before.words,
        before.bits[0] == 0 ==> after.current == before.current,
        before.bits[0] == 1 ==> after.current is Some && shaped(after.current->0, c, seq![' '], ins, p),
{
    assert(c + seq![] =~= c);
    if before.bits[0] == 1 && ins {
        let l = before.current->0;
        assert(l.push(' ') =~= rw_inserted(c + seq![' '], p));
        assert((c + seq![' '])[p] == c[p]);
    }
}

/// Trailing Unicode on a shaped line without ending: the line as it was (the number 0),
/// or ending with the character of the set that stands for the number the bits form.
pub proof fn lemma_old_tu(
    set: Seq<char>,
    c: Seq<char>,
    ins: bool,
    p: int,
    before: EncState,
    after: EncState,
    res: Result<EncoderResult, ErrorKind>,
)
    requires
        word_line(c),
        before.current is Some,
        shaped(before.current->0, c, seq![], ins, p),
        tu_step(set, before, after, res),
    ensures
        res == Ok::<EncoderResult, ErrorKind>(EncoderResult::Success),
        after.bits == before.bits.skip(tu_taken(before.bits, tu_rate(set.len())) as int),
        after.words == before.words,
        tu_number(before.bits, tu_rate(set.len())) <= set.len(),
        tu_number(before.bits, tu_rate(set.len())) == 0 ==> after.current == before.current,
        tu_number(before.bits, tu_rate(set.len())) > 0 ==> after.current is Some && shaped(
            after.current->0,
            c,
            seq![set[tu_number(before.bits, tu_rate(set.len())) - 1]],
            ins,
            p,
        ),
{
    let n = tu_number(before.bits, tu_rate(set.len()));
    assert(c + seq![] =~= c);
    if n > 0 {
        let t = seq![set[n - 1]];
        let l = before.current->0;
        if ins {
            assert(l.push(set[n - 1]) =~= rw_inserted(c + t, p));
            assert((c + t)[p] == c[p]);
        } else {
            assert(l.push(set[n - 1]) =~= c + t);
        }
    }
}

/// What every simple method reads from a shaped line.
pub proof fn lemma_old_decoders(l: Seq<char>, c: Seq<char>, tail: Seq<char>, ins: bool, p: int, cs: CharacterSetType, pivot: int)
    requires
        word_line(c),
        shaped(l, c, tail, ins, p),
        tail == Seq::<char>::empty() || tail == seq![' '] || exists|i: int| 0 <= i < cs.charset().len() && tail == seq![#[trigger] cs.charset()[i]],
    ensures
        rw_decoded(l) == if ins { 1u8 } else { 0u8 },
        le_decoded(l, pivot) == if byte_len(c) > pivot { 1u8 } else { 0u8 },
        tw_decoded(l) == if tail == seq![' '] { 1u8 } else { 0u8 },
        tu_decoded(cs.charset(), l) == u32_bits(char_number(cs.charset(), (c + tail).last()) as u32).skip(
            32 - tu_rate(cs.charset().len()),
        ),
        tail.len() == 0 ==> char_number(cs.charset(), (c + tail).last()) == 0,
        !l.contains('\n'),
        !l.contains('\r'),
        l.len() > 0,
{
    lemma_endings(cs);
    lemma_charset_chars(cs);
    lemma_space_counts();
    if tail.len() == 1 && tail != seq![' '] {
        let i = choose|i: int| 0 <= i < cs.charset().len() && tail == seq![#[trigger] cs.charset()[i]];
        assert(tail[0] == cs.charset()[i]);
    }
    assert(forall|i: int| 0 <= i < tail.len() ==> POSSIBLE_LINE_ENDINGS_SET@.contains(#[trigger] tail[i]));
    lemma_decoded_shape(c, tail, ins, p, cs);
    let x = c + tail;
    assert(c.last() == c[c.len() - 1]);
    if tail.len() == 0 {
        assert(x =~= c);
        lemma_word_char_not_in_set(cs, c.last());
    } else {
        assert(x.last() == tail[0]);
    }
}

/// The first step of a chain of simple methods and what follows it.
pub proof fn lemma_chain_from_step(
    ms: Seq<Submethod>,
    i: int,
    before: EncState,
    after: EncState,
    res: Result<EncoderResult, ErrorKind>,
) -> (mid: (EncState, Result<EncoderResult, ErrorKind>))
    requires
        0 <= i < ms.len(),
        chain_from(ms, i, before, after, res),
    ensures
        sub_step(ms[i], before, mid.0, mid.1),
        mid.1 == Ok::<EncoderResult, ErrorKind>(EncoderResult::Success) ==> chain_from(ms, i + 1, mid.0, after, res),
        mid.1 != Ok::<EncoderResult, ErrorKind>(EncoderResult::Success) ==> after == mid.0 && res == mid.1,
{
    choose|x: EncState, r: Result<EncoderResult, ErrorKind>|
        #[trigger] sub_step(ms[i], before, x, r) && if r == Ok::<EncoderResult, ErrorKind>(
            EncoderResult::Success,
        ) {
            chain_from(ms, i + 1, x, after, res)
        } else {
            after == x && res == r
        }
}

/// What three simple methods read from a line, in order.
pub proof fn lemma_decode_three(a: Submethod, b: Submethod, c: Submethod, pivot: int, l: Seq<char>)
    ensures
        decode_line(seq![a, b, c], pivot, l) == sub_decoded(a, pivot, l) + sub_decoded(b, pivot, l)
            + sub_decoded(c, pivot, l),
        total_rate(seq![a, b, c]) == sub_rate(a) + sub_rate(b) + sub_rate(c),
{
    let ms = seq![a, b, c];
    let m2 = seq![a, b];
    let m1 = seq![a];
    let m0 = Seq::<Submethod>::empty();
    assert(ms.drop_last() =~= m2 && ms.last() == c);
    assert(m2.drop_last() =~= m1 && m2.last() == b);
    assert(m1.drop_last() =~= m0 && m1.last() == a);
    assert(decode_line(m0, pivot, l) == Seq::<u8>::empty());
    assert(decode_line(m1, pivot, l) == decode_line(m0, pivot, l) + sub_decoded(a, pivot, l));
    assert(decode_line(m1, pivot, l) =~= sub_decoded(a, pivot, l));
    assert(decode_line(m2, pivot, l) == decode_line(m1, pivot, l) + sub_decoded(b, pivot, l));
    assert(decode_line(ms, pivot, l) == decode_line(m2, pivot, l) + sub_decoded(c, pivot, l));
    assert(total_rate(m0) == 0);
    assert(total_rate(m1) == total_rate(m0) + sub_rate(a));
    assert(total_rate(m2) == total_rate(m1) + sub_rate(b));
    assert(total_rate(ms) == total_rate(m2) + sub_rate(c));
}

/// The words `ws[..j]` laid out with single spaces make a line of words, holding a space
/// from two words on, and one more word extends it.
pub proof fn lemma_word_line_of(ws: Seq<Seq<char>>, j: int)
    requires
        1 <= j <= ws.len(),
        forall|k: int| 0 <= k < ws.len() ==> line_word(#[trigger] ws[k]),
    ensures
        word_line(spaced(ws.take(j))),
        j >= 2 ==> spaced(ws.take(j)).contains(' '),
        j < ws.len() ==> spaced(ws.take(j + 1)) == spaced(ws.take(j)) + seq![' '] + ws[j],
        j < ws.len() ==> byte_len(spaced(ws.take(j + 1))) == byte_len(spaced(ws.take(j))) + 1 + byte_len(ws[j]),
{
    let w = ws.take(j);
    assert forall|i: int| 0 <= i < w.len() implies line_word(#[trigger] w[i]) by {
        assert(w[i] == ws[i]);
    }
    lemma_spaced_shape(line_alphabet(), w);
    assert(spaced(w).last() == spaced(w)[spaced(w).len() - 1]);
    if j >= 2 {
        assert(w.drop_last() =~= ws.take(j - 1));
        assert(spaced(w) == spaced(ws.take(j - 1)) + seq![' '] + w.last());
        let a = spaced(ws.take(j - 1));
        assert(spaced(w)[a.len() as int] == ' ');
    }
    if j < ws.len() {
        let w1 = ws.take(j + 1);
        assert(w1.drop_last() =~= w);
        assert(w1.last() == ws[j]);
        lemma_byte_len_concat(spaced(w), seq![' ']);
        lemma_byte_len_concat(spaced(w) + seq![' '], ws[j]);
        assert(byte_len(seq![' ']) == 1) by {
            reveal_with_fuel(byte_len, 2);
            assert(seq![' '].drop_last() =~= Seq::<char>::empty());
        }
    }
}

/// What one line hides and reads back: the bits the methods took come first in what
/// decoding the line reads, all of it when the line took a whole share of bits.
pub open spec fn old_line_read_back(
    ms: Seq<Submethod>,
    pivot: int,
    ws: Seq<Seq<char>>,
    bits: Seq<u8>,
    after: EncState,
    res: Result<EncoderResult, ErrorKind>,
) -> bool {
    let c = bits.len() - after.bits.len();
    let k = fit_count(ws, pivot);
    let got = decode_line(ms, pivot, after.current->0);
    &&& after.current is Some
    &&& (res == Ok::<EncoderResult, ErrorKind>(EncoderResult::NoDataLeft) ==> after.bits.len() == 0)
    &&& 0 <= c <= bits.len()
    &&& after.bits == bits.skip(c)
    &&& got.len() == total_rate(ms)
    &&& c <= got.len()
    &&& got.take(c) == bits.take(c)
    &&& (c < got.len() ==> after.bits.len() == 0)
    &&& !after.current->0.contains('\n')
    &&& !after.current->0.contains('\r')
    &&& (after.words == ws.skip(k) || (k < ws.len() && after.words == ws.skip(k + 1)))
}

/// Whether a simple method puts a character at the end of the line.
pub open spec fn is_trailer(x: Submethod) -> bool {
    x == Submethod::TrailingWhitespace || x is TrailingUnicode
}

/// The endings a trailing method may leave: none, a space, or a character of its set.
pub open spec fn trailer_tail(x: Submethod, tail: Seq<char>) -> bool {
    ||| tail == Seq::<char>::empty()
    ||| tail == seq![' ']
    ||| (x matches Submethod::TrailingUnicode(cs) && exists|i: int|
        0 <= i < cs.charset().len() && tail == seq![#[trigger] cs.charset()[i]])
}

/// What a trailing method reads from a line of words `c` with the ending `tail`.
pub open spec fn trailer_read(x: Submethod, c: Seq<char>, tail: Seq<char>) -> Seq<u8> {
    match x {
        Submethod::TrailingUnicode(cs) => u32_bits(char_number(cs.charset(), (c + tail).last()) as u32).skip(
            32 - tu_rate(cs.charset().len()),
        ),
        _ => seq![if tail == seq![' '] { 1u8 } else { 0u8 }],
    }
}

/// A trailing method on a shaped line without ending: the ending it leaves, and that it
/// reads back the bits it took.
pub proof fn lemma_old_trailer(
    x: Submethod,
    c: Seq<char>,
    ins: bool,
    p: int,
    before: EncState,
    after: EncState,
    res: Result<EncoderResult, ErrorKind>,
) -> (tail: Seq<char>)
    requires
        is_trailer(x),
        word_line(c),
        before.current is Some,
        shaped(before.current->0, c, seq![], ins, p),
        is_bit_seq(before.bits),
        sub_step(x, before, after, res),
        res is Ok,
    ensures
        after.current is Some,
        shaped(after.current->0, c, tail, ins, p),
        trailer_tail(x, tail),
        x == Submethod::TrailingWhitespace || x == Submethod::TrailingUnicode(CharacterSetType::OneBit)
            ==> tail == Seq::<char>::empty() || tail == seq![' '],
        after.words == before.words,
        ({
            let m = before.bits.len() - after.bits.len();
            let got = trailer_read(x, c, tail);
            &&& 0 <= m <= sub_rate(x)
            &&& after.bits == before.bits.skip(m)
            &&& got.len() == sub_rate(x)
            &&& got.take(m) == before.bits.take(m)
            &&& (m < sub_rate(x) ==> after.bits.len() == 0)
        }),
        res == Ok::<EncoderResult, ErrorKind>(EncoderResult::Success) || (res == Ok::<
            EncoderResult,
            ErrorKind,
        >(EncoderResult::NoDataLeft) && before.bits.len() == 0 && tail == Seq::<char>::empty()),
{
    assert(c + seq![] =~= c);
    if x == Submethod::TrailingWhitespace {
        if before.bits.len() == 0 {
            assert(before.bits.skip(0) =~= before.bits);
            assert(before.bits.take(0) =~= Seq::<u8>::empty());
            Seq::<char>::empty()
        } else {
            assert(before.bits[0] <= 1);
            lemma_old_tw(c, ins, p, before, after, res);
            assert(before.bits.take(1) =~= seq![before.bits[0]]);
            assert(before.bits.skip(1) =~= before.bits.drop_first());
            if before.bits[0] == 1 {
                seq![' ']
            } else {
                Seq::<char>::empty()
            }
        }
    } else {
        let cs = x->TrailingUnicode_0;
        let set = cs.charset();
        let r = tu_rate(set.len());
        crate::method::trailing_unicode::lemma_charset_shape(cs);
        lemma_charset_chars(cs);
        lemma_old_tu(set, c, ins, p, before, after, res);
        lemma_tu_bits(before.bits, r);
        let n = tu_number(before.bits, r);
        let k = tu_taken(before.bits, r);
        assert(before.bits.len() - after.bits.len() == k);
        assert(c.last() == c[c.len() - 1]);
        lemma_word_char_not_in_set(cs, c.last());
        if n == 0 {
            assert(c + Seq::<char>::empty() =~= c);
            assert(u32_bits(0u32) == u32_bits(n as u32));
            Seq::<char>::empty()
        } else {
            let t = seq![set[n - 1]];
            assert((c + t).last() == set[n - 1]);
            crate::ptero_text::extended_line_method::character_sets::lemma_char_number_of_member(set, n - 1);
            if cs == CharacterSetType::OneBit {
                crate::ptero_text::extended_line_method::roundtrip::lemma_one_bit_set();
                assert(t == seq![' ']);
            }
            t
        }
    }
}

/// The character set a trailing method reads with (any set for Trailing Whitespace).
pub open spec fn trailer_set(x: Submethod) -> CharacterSetType {
    match x {
        Submethod::TrailingUnicode(cs) => cs,
        _ => CharacterSetType::OneBit,
    }
}

/// What the methods read from a shaped line, with the trailing method last or in the
/// middle: Random Whitespace reads the doubled space, Line Extension the words, the
/// trailing method the ending.
pub proof fn lemma_old_reads(
    x: Submethod,
    l: Seq<char>,
    c: Seq<char>,
    tail: Seq<char>,
    ins: bool,
    p: int,
    pivot: int,
)
    requires
        is_trailer(x),
        word_line(c),
        shaped(l, c, tail, ins, p),
        trailer_tail(x, tail),
    ensures
        sub_decoded(Submethod::RandomWhitespace, pivot, l) == seq![if ins { 1u8 } else { 0u8 }],
        sub_decoded(Submethod::LineExtend, pivot, l) == seq![if byte_len(c) > pivot { 1u8 } else { 0u8 }],
        sub_decoded(x, pivot, l) == trailer_read(x, c, tail),
        trailer_read(x, c, tail).len() == sub_rate(x),
        !l.contains('\n'),
        !l.contains('\r'),
{
    let cs = trailer_set(x);
    if x == Submethod::TrailingWhitespace {
        assert(trailer_tail(x, tail) ==> tail == Seq::<char>::empty() || tail == seq![' ']);
    }
    lemma_old_decoders(l, c, tail, ins, p, cs, pivot);
    crate::method::trailing_unicode::lemma_charset_shape(cs);
}

/// One line encoded with Random Whitespace, Line Extension and a trailing method, in
/// this order, is decoded back.
#[verifier::rlimit(40)]
pub proof fn lemma_old_line_rw_first(
    x: Submethod,
    pivot: int,
    ws: Seq<Seq<char>>,
    bits: Seq<u8>,
    after: EncState,
    res: Result<EncoderResult, ErrorKind>,
)
    requires
        is_trailer(x),
        forall|k: int| 0 <= k < ws.len() ==> line_word(#[trigger] ws[k]),
        line_outcome(ws, pivot) is Ok,
        2 <= fit_count(ws, pivot) < ws.len(),
        is_bit_seq(bits),
        chain_from(
            seq![Submethod::RandomWhitespace, Submethod::LineExtend, x],
            0,
            EncState {
                current: Some(line_outcome(ws, pivot)->Ok_0),
                words: ws.skip(fit_count(ws, pivot)),
                bits,
            },
            after,
            res,
        ),
        res is Ok,
    ensures
        old_line_read_back(seq![Submethod::RandomWhitespace, Submethod::LineExtend, x], pivot, ws, bits, after, res),
{
    let ms = seq![Submethod::RandomWhitespace, Submethod::LineExtend, x];
    let k = fit_count(ws, pivot);
    lemma_loaded_line(ws, pivot);
    lemma_word_line_of(ws, k);
    let c0 = spaced(ws.take(k));
    let s0 = EncState { current: Some(c0), words: ws.skip(k), bits };
    assert(c0 + seq![] =~= c0);
    let (s1, r1) = lemma_chain_from_step(ms, 0, s0, after, res);
    if bits.len() == 0 {
        assert(after == s0);
        lemma_decode_three(ms[0], ms[1], ms[2], pivot, c0);
        lemma_old_reads(x, c0, c0, seq![], false, 0, pivot);
        assert(bits.skip(0) =~= bits);
        assert(decode_line(ms, pivot, c0).take(0) =~= bits.take(0));
        return;
    }
    assert(bits[0] <= 1);
    let p0 = lemma_old_rw(c0, seq![], s0, s1, r1);
    let ins = bits[0] == 1;
    assert(s1.current is Some && shaped(s1.current->0, c0, seq![], ins, p0));
    let (s2, r2) = lemma_chain_from_step(ms, 1, s1, after, res);
    if bits.len() == 1 {
        assert(after == s1);
        let l1 = s1.current->0;
        lemma_decode_three(ms[0], ms[1], ms[2], pivot, l1);
        lemma_old_reads(x, l1, c0, seq![], ins, p0, pivot);
        assert(bits.skip(1) =~= s1.bits);
        assert(decode_line(ms, pivot, l1).take(1) =~= bits.take(1));
        return;
    }
    assert(s1.bits[0] == bits[1] && bits[1] <= 1);
    lemma_old_le(c0, ins, p0, s1, s2, r2);
    let c1 = if bits[1] == 1 {
        c0 + seq![' '] + ws[k]
    } else {
        c0
    };
    assert(s1.words == ws.skip(k));
    if bits[1] == 1 {
        assert(s1.words[0] == ws[k]);
        assert(s1.words.drop_first() =~= ws.skip(k + 1));
        lemma_word_line_of(ws, k + 1);
    }
    assert(word_line(c1));
    assert(s2.current is Some && shaped(s2.current->0, c1, seq![], ins, p0));
    assert(is_bit_seq(s2.bits)) by {
        assert forall|i: int| 0 <= i < s2.bits.len() implies #[trigger] s2.bits[i] <= 1 by {
            assert(s2.bits[i] == bits[i + 2]);
        }
    }
    let (s3, r3) = lemma_chain_from_step(ms, 2, s2, after, res);
    let tail = lemma_old_trailer(x, c1, ins, p0, s2, s3, r3);
    if r3 == Ok::<EncoderResult, ErrorKind>(EncoderResult::Success) {
        assert(chain_from(ms, 3, s3, after, res));
    }
    assert(after == s3);
    let l3 = s3.current->0;
    lemma_decode_three(ms[0], ms[1], ms[2], pivot, l3);
    lemma_old_reads(x, l3, c1, tail, ins, p0, pivot);
    let m = s2.bits.len() - s3.bits.len();
    assert(s2.bits =~= bits.skip(2));
    assert(s3.bits =~= bits.skip(2 + m));
    let got = decode_line(ms, pivot, l3);
    assert(got.take(2 + m) =~= bits.take(2 + m)) by {
        assert(trailer_read(x, c1, tail).take(m) == s2.bits.take(m));
        assert forall|i: int| 0 <= i < 2 + m implies #[trigger] got.take(2 + m)[i] == bits.take(2 + m)[i] by {
            if i >= 2 {
                assert(got[i] == trailer_read(x, c1, tail)[i - 2]);
                assert(s2.bits.take(m)[i - 2] == bits[i]);
            }
        }
    }
}

/// The line Line Extension leaves when it goes first on a loaded line: the words, with
/// the next one for a 1 bit, laid out with single spaces, and read back as the bit.
pub proof fn lemma_old_first_le(
    pivot: int,
    ws: Seq<Seq<char>>,
    s0: EncState,
    s1: EncState,
    r1: Result<EncoderResult, ErrorKind>,
) -> (c1: Seq<char>)
    requires
        forall|k: int| 0 <= k < ws.len() ==> line_word(#[trigger] ws[k]),
        line_outcome(ws, pivot) is Ok,
        2 <= fit_count(ws, pivot) < ws.len(),
        s0 == (EncState {
            current: Some(line_outcome(ws, pivot)->Ok_0),
            words: ws.skip(fit_count(ws, pivot)),
            bits: s0.bits,
        }),
        s0.bits.len() > 0,
        s0.bits[0] <= 1,
        le_step(s0, s1, r1),
        r1 is Ok,
    ensures
        word_line(c1),
        c1.contains(' '),
        (if byte_len(c1) > pivot { 1u8 } else { 0u8 }) == s0.bits[0],
        r1 == Ok::<EncoderResult, ErrorKind>(EncoderResult::Success),
        s1.bits == s0.bits.drop_first(),
        s1.current == Some(c1),
        s1.words == ws.skip(fit_count(ws, pivot)) || s1.words == ws.skip(fit_count(ws, pivot) + 1),
{
    let k = fit_count(ws, pivot);
    lemma_loaded_line(ws, pivot);
    lemma_word_line_of(ws, k);
    let c0 = spaced(ws.take(k));
    assert(c0 + seq![] =~= c0);
    lemma_old_le(c0, false, 0, s0, s1, r1);
    if s0.bits[0] == 1 {
        assert(s0.words[0] == ws[k]);
        assert(s0.words.drop_first() =~= ws.skip(k + 1));
        lemma_word_line_of(ws, k + 1);
        let c1 = c0 + seq![' '] + ws[k];
        assert(s1.current->0 == c1 + seq![]);
        assert(c1 + seq![] =~= c1);
        c1
    } else {
        c0
    }
}

/// One line encoded with Line Extension, Random Whitespace and a trailing method, in
/// this order, is decoded back.
#[verifier::rlimit(40)]
pub proof fn lemma_old_line_le_rw(
    x: Submethod,
    pivot: int,
    ws: Seq<Seq<char>>,
    bits: Seq<u8>,
    after: EncState,
    res: Result<EncoderResult, ErrorKind>,
)
    requires
        is_trailer(x),
        forall|k: int| 0 <= k < ws.len() ==> line_word(#[trigger] ws[k]),
        line_outcome(ws, pivot) is Ok,
        2 <= fit_count(ws, pivot) < ws.len(),
        is_bit_seq(bits),
        chain_from(
            seq![Submethod::LineExtend, Submethod::RandomWhitespace, x],
            0,
            EncState {
                current: Some(line_outcome(ws, pivot)->Ok_0),
                words: ws.skip(fit_count(ws, pivot)),
                bits,
            },
            after,
            res,
        ),
        res is Ok,
    ensures
        old_line_read_back(seq![Submethod::LineExtend, Submethod::RandomWhitespace, x], pivot, ws, bits, after, res),
{
    let ms = seq![Submethod::LineExtend, Submethod::RandomWhitespace, x];
    let k = fit_count(ws, pivot);
    lemma_loaded_line(ws, pivot);
    lemma_word_line_of(ws, k);
    let c0 = spaced(ws.take(k));
    let s0 = EncState { current: Some(c0), words: ws.skip(k), bits };
    assert(c0 + seq![] =~= c0);
    let (s1, r1) = lemma_chain_from_step(ms, 0, s0, after, res);
    if bits.len() == 0 {
        assert(after == s0);
        lemma_decode_three(ms[0], ms[1], ms[2], pivot, c0);
        lemma_old_reads(x, c0, c0, seq![], false, 0, pivot);
        assert(bits.skip(0) =~= bits);
        assert(decode_line(ms, pivot, c0).take(0) =~= bits.take(0));
        return;
    }
    assert(bits[0] <= 1);
    let c1 = lemma_old_first_le(pivot, ws, s0, s1, r1);
    assert(c1 + seq![] =~= c1);
    let (s2, r2) = lemma_chain_from_step(ms, 1, s1, after, res);
    if bits.len() == 1 {
        assert(after == s1);
        lemma_decode_three(ms[0], ms[1], ms[2], pivot, c1);
        lemma_old_reads(x, c1, c1, seq![], false, 0, pivot);
        assert(bits.skip(1) =~= s1.bits);
        assert(decode_line(ms, pivot, c1).take(1) =~= bits.take(1));
        return;
    }
    assert(s1.bits[0] == bits[1] && bits[1] <= 1);
    let p1 = lemma_old_rw(c1, seq![], s1, s2, r2);
    let ins = bits[1] == 1;
    assert(s2.current is Some && shaped(s2.current->0, c1, seq![], ins, p1));
    assert(is_bit_seq(s2.bits)) by {
        assert forall|i: int| 0 <= i < s2.bits.len() implies #[trigger] s2.bits[i] <= 1 by {
            assert(s2.bits[i] == bits[i + 2]);
        }
    }
    let (s3, r3) = lemma_chain_from_step(ms, 2, s2, after, res);
    let tail = lemma_old_trailer(x, c1, ins, p1, s2, s3, r3);
    if r3 == Ok::<EncoderResult, ErrorKind>(EncoderResult::Success) {
        assert(chain_from(ms, 3, s3, after, res));
    }
    assert(after == s3);
    let l3 = s3.current->0;
    lemma_decode_three(ms[0], ms[1], ms[2], pivot, l3);
    lemma_old_reads(x, l3, c1, tail, ins, p1, pivot);
    let m = s2.bits.len() - s3.bits.len();
    assert(s2.bits =~= bits.skip(2));
    assert(s3.bits =~= bits.skip(2 + m));
    let got = decode_line(ms, pivot, l3);
    assert(got.take(2 + m) =~= bits.take(2 + m)) by {
        assert(trailer_read(x, c1, tail).take(m) == s2.bits.take(m));
        assert forall|i: int| 0 <= i < 2 + m implies #[trigger] got.take(2 + m)[i] == bits.take(2 + m)[i] by {
            if i >= 2 {
                assert(got[i] == trailer_read(x, c1, tail)[i - 2]);
                assert(s2.bits.take(m)[i - 2] == bits[i]);
            }
        }
    }
}

/// One line encoded with Line Extension, a trailing method that ends lines with a space
/// at most, and Random Whitespace, in this order, is decoded back.
#[verifier::rlimit(40)]
pub proof fn lemma_old_line_rw_last(
    x: Submethod,
    pivot: int,
    ws: Seq<Seq<char>>,
    bits: Seq<u8>,
    after: EncState,
    res: Result<EncoderResult, ErrorKind>,
)
    requires
        x == Submethod::TrailingWhitespace || x == Submethod::TrailingUnicode(CharacterSetType::OneBit),
        forall|k: int| 0 <= k < ws.len() ==> line_word(#[trigger] ws[k]),
        line_outcome(ws, pivot) is Ok,
        2 <= fit_count(ws, pivot) < ws.len(),
        is_bit_seq(bits),
        chain_from(
            seq![Submethod::LineExtend, x, Submethod::RandomWhitespace],
            0,
            EncState {
                current: Some(line_outcome(ws, pivot)->Ok_0),
                words: ws.skip(fit_count(ws, pivot)),
                bits,
            },
            after,
            res,
        ),
        res is Ok,
    ensures
        old_line_read_back(seq![Submethod::LineExtend, x, Submethod::RandomWhitespace], pivot, ws, bits, after, res),
{
    let ms = seq![Submethod::LineExtend, x, Submethod::RandomWhitespace];
    let k = fit_count(ws, pivot);
    lemma_loaded_line(ws, pivot);
    lemma_word_line_of(ws, k);
    let c0 = spaced(ws.take(k));
    let s0 = EncState { current: Some(c0), words: ws.skip(k), bits };
    assert(c0 + seq![] =~= c0);
    let (s1, r1) = lemma_chain_from_step(ms, 0, s0, after, res);
    if bits.len() == 0 {
        assert(after == s0);
        lemma_decode_three(ms[0], ms[1], ms[2], pivot, c0);
        lemma_old_reads(x, c0, c0, seq![], false, 0, pivot);
        assert(bits.skip(0) =~= bits);
        assert(decode_line(ms, pivot, c0).take(0) =~= bits.take(0));
        return;
    }
    assert(bits[0] <= 1);
    let c1 = lemma_old_first_le(pivot, ws, s0, s1, r1);
    assert(c1 + seq![] =~= c1);
    assert(is_bit_seq(s1.bits)) by {
        assert forall|i: int| 0 <= i < s1.bits.len() implies #[trigger] s1.bits[i] <= 1 by {
            assert(s1.bits[i] == bits[i + 1]);
        }
    }
    let (s2, r2) = lemma_chain_from_step(ms, 1, s1, after, res);
    let tail = lemma_old_trailer(x, c1, false, 0, s1, s2, r2);
    let m = s1.bits.len() - s2.bits.len();
    assert(s1.bits =~= bits.skip(1));
    assert(s2.bits =~= bits.skip(1 + m));
    let mut ins = false;
    let mut p: int = 0;
    let mut extra: int = 0;
    if r2 == Ok::<EncoderResult, ErrorKind>(EncoderResult::Success) {
        let (s3, r3) = lemma_chain_from_step(ms, 2, s2, after, res);
        if s2.bits.len() == 0 {
            assert(after == s3 && s3.current == s2.current && s3.bits == s2.bits);
        } else {
            assert(s2.bits[0] == bits[1 + m] && bits[1 + m] <= 1);
            p = lemma_old_rw(c1, tail, s2, s3, r3);
            ins = s2.bits[0] == 1;
            extra = 1;
            assert(chain_from(ms, 3, s3, after, res));
            assert(after == s3);
            assert(after.bits =~= bits.skip(2 + m));
        }
    } else {
        assert(after == s2);
    }
    assert(after.current is Some && shaped(after.current->0, c1, tail, ins, p));
    let l = after.current->0;
    lemma_decode_three(ms[0], ms[1], ms[2], pivot, l);
    lemma_old_reads(x, l, c1, tail, ins, p, pivot);
    let got = decode_line(ms, pivot, l);
    let c = 1 + m + extra;
    assert(after.bits =~= bits.skip(c));
    assert(got.take(c) =~= bits.take(c)) by {
        assert(trailer_read(x, c1, tail).take(m) == s1.bits.take(m));
        assert forall|i: int| 0 <= i < c implies #[trigger] got.take(c)[i] == bits.take(c)[i] by {
            if 1 <= i < 1 + m {
                assert(got[i] == trailer_read(x, c1, tail)[i - 1]);
                assert(s1.bits.take(m)[i - 1] == bits[i]);
            }
        }
    }
}

/// A text without line feeds is the text after the last line feed, and no line is done.
pub proof fn lemma_line_parts_plain(a: Seq<char>)
    requires
        !a.contains('\n'),
    ensures
        line_parts(a) == (Seq::<Seq<char>>::empty(), a),
    decreases a.len(),
{
    if a.len() > 0 {
        let p = a.drop_last();
        assert(!p.contains('\n')) by {
            if p.contains('\n') {
                let j = choose|j: int| 0 <= j < p.len() && p[j] == '\n';
                assert(a[j] == '\n');
            }
        }
        lemma_line_parts_plain(p);
        assert(a.last() != '\n') by {
            assert(a[a.len() - 1] == a.last());
        }
        assert(p.push(a.last()) =~= a);
    } else {
        assert(a =~= Seq::<char>::empty());
    }
}

/// The lines of a text split at a line feed: the line before it, then the lines after.
pub proof fn lemma_line_parts_split(a: Seq<char>, b: Seq<char>)
    requires
        !a.contains('\n'),
    ensures
        line_parts(a + seq!['\n'] + b) == (seq![strip_cr(a)] + line_parts(b).0, line_parts(b).1),
    decreases b.len(),
{
    let t = a + seq!['\n'] + b;
    if b.len() == 0 {
        assert(t =~= a + seq!['\n']);
        assert((a + seq!['\n']).drop_last() =~= a);
        lemma_line_parts_plain(a);
        assert(line_parts(b) == (Seq::<Seq<char>>::empty(), Seq::<char>::empty()));
        assert(Seq::<Seq<char>>::empty().push(strip_cr(a)) =~= seq![strip_cr(a)] + Seq::<Seq<char>>::empty());
    } else {
        let b1 = b.drop_last();
        lemma_line_parts_split(a, b1);
        assert(t.drop_last() =~= a + seq!['\n'] + b1);
        assert(t.last() == b.last());
        let (d1, c1) = line_parts(b1);
        if b.last() == '\n' {
            assert((seq![strip_cr(a)] + d1).push(strip_cr(c1)) =~= seq![strip_cr(a)] + d1.push(strip_cr(c1)));
        }
    }
}

/// The lines of a line, a line feed and a text: the line, then the lines of the text.
pub proof fn lemma_lines_split(a: Seq<char>, b: Seq<char>)
    requires
        !a.contains('\n'),
        !a.contains('\r'),
    ensures
        lines_of(a + seq!['\n'] + b) == seq![a] + lines_of(b),
{
    lemma_line_parts_split(a, b);
    assert(strip_cr(a) == a) by {
        if a.len() > 0 {
            assert(a.last() == a[a.len() - 1]);
        }
    }
    let (d, c) = line_parts(b);
    if c.len() > 0 {
        assert((seq![a] + d).push(c) =~= seq![a] + d.push(c));
    }
}

/// Decoding lines one after another: what two runs of lines give, one after the other.
pub proof fn lemma_decode_lines_concat(ms: Seq<Submethod>, pivot: int, a: Seq<Seq<char>>, b: Seq<Seq<char>>)
    ensures
        decode_lines(ms, pivot, a + b) == decode_lines(ms, pivot, a) + decode_lines(ms, pivot, b),
    decreases b.len(),
{
    if b.len() == 0 {
        assert(a + b =~= a);
        assert(decode_lines(ms, pivot, a) + Seq::<u8>::empty() =~= decode_lines(ms, pivot, a));
    } else {
        lemma_decode_lines_concat(ms, pivot, a, b.drop_last());
        assert((a + b).drop_last() =~= a + b.drop_last());
        assert((a + b).last() == b.last());
        assert(decode_lines(ms, pivot, a) + decode_lines(ms, pivot, b.drop_last()) + decode_line(ms, pivot, b.last())
            =~= decode_lines(ms, pivot, a) + (decode_lines(ms, pivot, b.drop_last()) + decode_line(
            ms,
            pivot,
            b.last(),
        )));
    }
}

/// Decoding a line, a line feed and a text: the line's bits, then the text's.
pub proof fn lemma_decode_first_line(ms: Seq<Submethod>, pivot: int, l: Seq<char>, rest: Seq<char>)
    requires
        !l.contains('\n'),
        !l.contains('\r'),
    ensures
        decode_lines(ms, pivot, lines_of(l + seq!['\n'] + rest)) == decode_line(ms, pivot, l) + decode_lines(
            ms,
            pivot,
            lines_of(rest),
        ),
{
    lemma_lines_split(l, rest);
    lemma_decode_lines_concat(ms, pivot, seq![l], lines_of(rest));
    assert(seq![l].drop_last() =~= Seq::<Seq<char>>::empty());
    assert(decode_lines(ms, pivot, Seq::<Seq<char>>::empty()) == Seq::<u8>::empty());
    assert(decode_lines(ms, pivot, seq![l]) =~= decode_line(ms, pivot, l));
}

/// A line holds at most half the pivot (rounded up) cover words, and two when the first
/// two words fit together.
pub proof fn lemma_fit_count_range(ws: Seq<Seq<char>>, pivot: int)
    requires
        forall|k: int| 0 <= k < ws.len() ==> line_word(#[trigger] ws[k]),
    ensures
        0 <= fit_count(ws, pivot) <= ws.len(),
        fit_count(ws, pivot) >= 1 ==> 2 * fit_count(ws, pivot) <= pivot + 1,
        ws.len() >= 2 && byte_len(ws[0]) + 1 + byte_len(ws[1]) <= pivot ==> fit_count(ws, pivot) >= 2,
{
    lemma_fit_count_from_bounds(ws, pivot, 0);
    let k = fit_count(ws, pivot);
    assert(ws.take(0) =~= Seq::<Seq<char>>::empty());
    assert(spaced_words(ws.take(0)) =~= Seq::<char>::empty());
    if k >= 1 {
        lemma_fit_count_from_fits(ws, pivot, 0, k - 1);
        assert(line_word(ws[k - 1]));
        lemma_byte_len_ge_len(ws[k - 1]);
        if k >= 2 {
            lemma_spaced_words(ws, k - 1);
            let w = ws.take(k - 1);
            assert forall|i: int| 0 <= i < w.len() implies line_word(#[trigger] w[i]) by {
                assert(w[i] == ws[i]);
            }
            lemma_spaced_min_len(w);
            lemma_byte_len_concat(spaced(w), seq![' ']);
            lemma_byte_len_ge_len(seq![' ']);
        }
    }
    if ws.len() >= 2 && byte_len(ws[0]) + 1 + byte_len(ws[1]) <= pivot {
        assert(ws.take(0) =~= Seq::<Seq<char>>::empty());
        assert(fits_next(ws, pivot, 0));
        lemma_spaced_step(ws, 0);
        assert(spaced_words(ws.take(0)) =~= Seq::<char>::empty());
        assert(spaced_words(ws.take(1)) =~= ws[0] + seq![' ']);
        lemma_byte_len_concat(ws[0], seq![' ']);
        assert(byte_len(seq![' ']) == 1) by {
            reveal_with_fuel(byte_len, 2);
            assert(seq![' '].drop_last() =~= Seq::<char>::empty());
        }
        assert(fits_next(ws, pivot, 1));
        lemma_fit_count_from_bounds(ws, pivot, 2);
        assert(fit_count_from(ws, pivot, 0) == fit_count_from(ws, pivot, 1));
        assert(fit_count_from(ws, pivot, 1) == fit_count_from(ws, pivot, 2));
    }
}

/// A number of lines every cover of `n` words yields before its last, when a line holds
/// at most `f` words and one more for an extension.
pub open spec fn sure_lines(n: int, f: int) -> int
    decreases n,
{
    if n > f && f >= 0 {
        1 + sure_lines(n - f - 1, f)
    } else {
        0
    }
}

/// More words never give fewer sure lines.
pub proof fn lemma_sure_lines_mono(a: int, b: int, f: int)
    requires
        a <= b,
    ensures
        sure_lines(a, f) <= sure_lines(b, f),
        sure_lines(a, f) >= 0,
    decreases b,
{
    if a > f && f >= 0 {
        lemma_sure_lines_mono(a - f - 1, b - f - 1, f);
    } else if b > f && f >= 0 {
        lemma_sure_lines_mono(0, b - f - 1, f);
    }
}

/// The orders of simple methods the law speaks of: Random Whitespace before or after
/// Line Extension, with a trailing method last; or Random Whitespace last, after a
/// trailing method that ends lines with a space at most.
pub open spec fn old_order(ms: Seq<Submethod>) -> bool {
    exists|x: Submethod|
        #![trigger is_trailer(x)]
        is_trailer(x) && (ms == seq![Submethod::RandomWhitespace, Submethod::LineExtend, x] || ms == seq![
            Submethod::LineExtend,
            Submethod::RandomWhitespace,
            x,
        ] || (ms == seq![Submethod::LineExtend, x, Submethod::RandomWhitespace] && (x
            == Submethod::TrailingWhitespace || x == Submethod::TrailingUnicode(CharacterSetType::OneBit))))
}

/// The complex methods the law speaks of: every Extended Line variant, and every ELUV
/// variant but the third with a set of more than one character.
pub open spec fn covered_methods(ms: Seq<Submethod>) -> bool {
    ||| exists|v: ExtendedLineMethodVariant| ms == #[trigger] extended_line_methods(v)
    ||| exists|v: ELUVMethodVariant, cs: CharacterSetType|
        ms == #[trigger] eluv_methods(v, cs) && (v == ELUVMethodVariant::Variant3 ==> cs
            == CharacterSetType::OneBit)
}

/// The complex methods the law speaks of apply their simple methods in one of the orders
/// it covers.
pub proof fn lemma_covered_order(ms: Seq<Submethod>)
    requires
        covered_methods(ms),
    ensures
        old_order(ms),
{
    if exists|v: ExtendedLineMethodVariant| ms == #[trigger] extended_line_methods(v) {
        assert(is_trailer(Submethod::TrailingWhitespace));
    } else {
        let (v, cs) = choose|v: ELUVMethodVariant, cs: CharacterSetType|
            ms == #[trigger] eluv_methods(v, cs) && (v == ELUVMethodVariant::Variant3 ==> cs
                == CharacterSetType::OneBit);
        assert(is_trailer(Submethod::TrailingUnicode(cs)));
    }
}

/// One line in any order the law covers is decoded back.
pub proof fn lemma_old_line(
    ms: Seq<Submethod>,
    pivot: int,
    ws: Seq<Seq<char>>,
    bits: Seq<u8>,
    after: EncState,
    res: Result<EncoderResult, ErrorKind>,
)
    requires
        old_order(ms),
        forall|k: int| 0 <= k < ws.len() ==> line_word(#[trigger] ws[k]),
        line_outcome(ws, pivot) is Ok,
        2 <= fit_count(ws, pivot) < ws.len(),
        is_bit_seq(bits),
        chain_from(
            ms,
            0,
            EncState {
                current: Some(line_outcome(ws, pivot)->Ok_0),
                words: ws.skip(fit_count(ws, pivot)),
                bits,
            },
            after,
            res,
        ),
        res is Ok,
    ensures
        old_line_read_back(ms, pivot, ws, bits, after, res),
{
    let x = choose|x: Submethod|
        #![trigger is_trailer(x)]
        is_trailer(x) && (ms == seq![Submethod::RandomWhitespace, Submethod::LineExtend, x] || ms == seq![
            Submethod::LineExtend,
            Submethod::RandomWhitespace,
            x,
        ] || (ms == seq![Submethod::LineExtend, x, Submethod::RandomWhitespace] && (x
            == Submethod::TrailingWhitespace || x == Submethod::TrailingUnicode(CharacterSetType::OneBit))));
    if ms == seq![Submethod::RandomWhitespace, Submethod::LineExtend, x] {
        lemma_old_line_rw_first(x, pivot, ws, bits, after, res);
    } else if ms == seq![Submethod::LineExtend, Submethod::RandomWhitespace, x] {
        lemma_old_line_le_rw(x, pivot, ws, bits, after, res);
    } else {
        lemma_old_line_rw_last(x, pivot, ws, bits, after, res);
    }
}

/// Whether every two neighbouring words of `ws` fit on one line under `pivot`.
pub open spec fn pairs_fit(ws: Seq<Seq<char>>, pivot: int) -> bool {
    forall|i: int| 0 <= i < ws.len() - 1 ==> byte_len(#[trigger] ws[i]) + 1 + byte_len(ws[i + 1]) <= pivot
}

/// The first line of an encoding and how the rest goes on.
pub proof fn lemma_encode_rel_unfold(
    ms: Seq<Submethod>,
    pivot: int,
    ws: Seq<Seq<char>>,
    bits: Seq<u8>,
    out: Result<Seq<char>, ErrorKind>,
) -> (line: (EncState, Result<EncoderResult, ErrorKind>))
    requires
        encode_rel(ms, pivot, ws, bits, out),
        line_outcome(ws, pivot) is Ok,
    ensures
        chain_from(
            ms,
            0,
            EncState {
                current: Some(line_outcome(ws, pivot)->Ok_0),
                words: ws.skip(fit_count(ws, pivot)),
                bits,
            },
            line.0,
            line.1,
        ),
        match line.1 {
            Err(e) => out == Err::<Seq<char>, ErrorKind>(e),
            Ok(EncoderResult::NoDataLeft) => line.0.current is Some && out == Ok::<Seq<char>, ErrorKind>(
                line.0.current->0 + seq!['\n'] + rest_lines(line.0.words, pivot),
            ),
            Ok(EncoderResult::Success) => line.0.current is Some && line.0.words.len() < ws.len() && exists|
                o: Result<Seq<char>, ErrorKind>,
            |
                encode_rel(ms, pivot, line.0.words, line.0.bits, o) && out == #[trigger] prepend(
                    line.0.current->0 + seq!['\n'],
                    o,
                ),
        },
{
    let loaded = EncState {
        current: Some(line_outcome(ws, pivot)->Ok_0),
        words: ws.skip(fit_count(ws, pivot)),
        bits,
    };
    choose|after: EncState, r: Result<EncoderResult, ErrorKind>|
        #[trigger] chain_from(ms, 0, loaded, after, r) && match r {
            Err(e) => out == Err::<Seq<char>, ErrorKind>(e),
            Ok(EncoderResult::NoDataLeft) => after.current is Some && out == Ok::<Seq<char>, ErrorKind>(
                after.current->0 + seq!['\n'] + rest_lines(after.words, pivot),
            ),
            Ok(EncoderResult::Success) => after.current is Some && after.words.len() < ws.len() && exists|
                o: Result<Seq<char>, ErrorKind>,
            |
                encode_rel(ms, pivot, after.words, after.bits, o) && out == #[trigger] prepend(
                    after.current->0 + seq!['\n'],
                    o,
                ),
        }
}

/// What the law asks of the cover words holds of every suffix.
pub proof fn lemma_suffix_words(ws: Seq<Seq<char>>, pivot: int, j: int)
    requires
        0 <= j <= ws.len(),
        forall|k: int| 0 <= k < ws.len() ==> line_word(#[trigger] ws[k]),
        pairs_fit(ws, pivot),
    ensures
        forall|k: int| 0 <= k < ws.skip(j).len() ==> line_word(#[trigger] ws.skip(j)[k]),
        pairs_fit(ws.skip(j), pivot),
{
    let w = ws.skip(j);
    assert forall|i: int| 0 <= i < w.len() implies line_word(#[trigger] w[i]) by {
        assert(w[i] == ws[j + i]);
    }
    assert forall|i: int| 0 <= i < w.len() - 1 implies byte_len(#[trigger] w[i]) + 1 + byte_len(w[i + 1]) <= pivot by {
        assert(w[i] == ws[j + i]);
        assert(w[i + 1] == ws[j + i + 1]);
    }
}

/// Decoding gives back what encoding put in a text: when encoding `bits` into the cover
/// words `ws` with the simple methods `ms` succeeds with `text`, decoding the lines of
/// `text` gives `bits` first.
///
/// It is stated for the complex methods `covered_methods` names and covers whose words
/// hold no possible line ending (so no character of any set) and no carriage return,
/// and leaves out inputs on which decoding does not give the bits back: covers
/// in which two neighbouring words do not fit on one line (Random Whitespace appends a
/// single space to a line of one word, which reads as 0), bits that could reach the last
/// line of the cover (that line keeps its trailing space, which Trailing Whitespace,
/// Trailing Unicode and Random Whitespace misread), stated as at most the bits of the
/// lines every cover of that many words yields before its last; and the third ELUV
/// variant with a set of more than one character (Random Whitespace may then double the
/// space before a trailing set character, where decoding does not look).
pub proof fn lemma_encode_decode(ms: Seq<Submethod>, pivot: int, ws: Seq<Seq<char>>, bits: Seq<u8>, text: Seq<char>)
    requires
        covered_methods(ms),
        forall|k: int| 0 <= k < ws.len() ==> line_word(#[trigger] ws[k]),
        pairs_fit(ws, pivot),
        is_bit_seq(bits),
        bits.len() <= total_rate(ms) * sure_lines(ws.len() as int, (pivot + 1) / 2),
        encode_rel(ms, pivot, ws, bits, Ok::<Seq<char>, ErrorKind>(text)),
    ensures
        decode_lines(ms, pivot, lines_of(text)).len() >= bits.len(),
        decode_lines(ms, pivot, lines_of(text)).take(bits.len() as int) == bits,
    decreases ws.len(),
{
    lemma_covered_order(ms);
    if bits.len() == 0 {
        assert(decode_lines(ms, pivot, lines_of(text)).take(0) =~= bits);
        return;
    }
    let f = (pivot + 1) / 2;
    let d = total_rate(ms);
    lemma_sure_lines_mono(0, ws.len() as int, f);
    assert(sure_lines(ws.len() as int, f) >= 1) by {
        if sure_lines(ws.len() as int, f) == 0 {
            assert(d * 0 == 0);
        }
    }
    assert(ws.len() > f && f >= 0);
    assert(line_outcome(ws, pivot) is Ok);
    crate::context::lemma_line_outcome_count(ws, pivot);
    lemma_fit_count_range(ws, pivot);
    let k = fit_count(ws, pivot);
    assert(k <= f);
    assert(ws.len() >= 2) by {
        if ws.len() < 2 {
            assert(k < ws.len());
        }
    }
    assert(byte_len(ws[0]) + 1 + byte_len(ws[1]) <= pivot);
    let (after, res) = lemma_encode_rel_unfold(ms, pivot, ws, bits, Ok::<Seq<char>, ErrorKind>(text));
    assert(res is Ok);
    lemma_old_line(ms, pivot, ws, bits, after, res);
    let l = after.current->0;
    let got = decode_line(ms, pivot, l);
    let c = bits.len() - after.bits.len();
    if res == Ok::<EncoderResult, ErrorKind>(EncoderResult::NoDataLeft) {
        let rest = rest_lines(after.words, pivot);
        lemma_decode_first_line(ms, pivot, l, rest);
        let all = decode_lines(ms, pivot, lines_of(text));
        assert(all.take(bits.len() as int) =~= got.take(c));
        assert(bits.take(c) =~= bits);
    } else {
        assert(res == Ok::<EncoderResult, ErrorKind>(EncoderResult::Success));
        let o = choose|o: Result<Seq<char>, ErrorKind>|
            encode_rel(ms, pivot, after.words, after.bits, o) && Ok::<Seq<char>, ErrorKind>(text)
                == #[trigger] prepend(l + seq!['\n'], o);
        assert(o is Ok);
        let t2 = o->Ok_0;
        assert(text == l + seq!['\n'] + t2);
        lemma_decode_first_line(ms, pivot, l, t2);
        let all = decode_lines(ms, pivot, lines_of(text));
        let rest = decode_lines(ms, pivot, lines_of(t2));
        assert(all == got + rest);
        if after.bits.len() == 0 {
            assert(all.take(bits.len() as int) =~= got.take(c));
            assert(bits.take(c) =~= bits);
        } else {
            assert(c == d);
            let j = if after.words == ws.skip(k) {
                k
            } else {
                k + 1
            };
            assert(after.words == ws.skip(j));
            lemma_suffix_words(ws, pivot, j);
            assert(is_bit_seq(after.bits)) by {
                assert forall|i: int| 0 <= i < after.bits.len() implies #[trigger] after.bits[i] <= 1 by {
                    assert(after.bits[i] == bits[c + i]);
                }
            }
            let n = ws.len() as int;
            let n2 = after.words.len() as int;
            assert(n2 >= n - f - 1);
            lemma_sure_lines_mono(n - f - 1, n2, f);
            assert(sure_lines(n, f) == 1 + sure_lines(n - f - 1, f));
            let sl = sure_lines(n - f - 1, f);
            let sl2 = sure_lines(n2, f);
            assert(after.bits.len() <= d * sl2) by (nonlinear_arith)
                requires
                    bits.len() <= d * (1 + sl),
                    after.bits.len() + d == bits.len(),
                    sl <= sl2,
                    d >= 0,
            ;
            lemma_encode_decode(ms, pivot, after.words, after.bits, t2);
            assert(got =~= bits.take(c));
            assert(all.take(bits.len() as int) =~= got + rest.take(after.bits.len() as int));
            assert(bits =~= bits.take(c) + after.bits);
        }
    }
}

/// Bytes come back from bits that start with their bits: decoded bits padded to whole
/// bytes and read as bytes give the bytes first.
pub proof fn lemma_bytes_back(data: Seq<u8>, decoded: Seq<u8>)
    requires
        decoded.len() >= 8 * data.len(),
        decoded.take(8 * data.len() as int) == bits_of_bytes(data),
    ensures
        bytes_of_bits(padded(decoded)).len() >= data.len(),
        bytes_of_bits(padded(decoded)).take(data.len() as int) == data,
{
    let pd = padded(decoded);
    let n = data.len();
    let bits = bits_of_bytes(data);
    crate::binary::lemma_bytes_bits_roundtrip(data);
    assert(pd.len() >= decoded.len());
    assert(pd.len() / 8 >= n) by (nonlinear_arith)
        requires
            pd.len() >= 8 * n,
    ;
    assert(bits.len() / 8 == n) by (nonlinear_arith)
        requires
            bits.len() == 8 * n,
    ;
    assert forall|i: int| 0 <= i < n implies #[trigger] bytes_of_bits(pd)[i] == data[i] by {
        assert(8 * i + 8 <= 8 * n) by (nonlinear_arith)
            requires
                0 <= i < n,
        ;
        assert(pd.subrange(8 * i, 8 * i + 8) =~= bits.subrange(8 * i, 8 * i + 8)) by {
            assert forall|j: int| 0 <= j < 8 implies #[trigger] pd.subrange(8 * i, 8 * i + 8)[j]
                == bits.subrange(8 * i, 8 * i + 8)[j] by {
                assert(pd[8 * i + j] == decoded[8 * i + j]);
                assert(decoded.take(8 * n as int)[8 * i + j] == bits[8 * i + j]);
            }
        }
        assert(bytes_of_bits(bits)[i] == data[i]);
    }
    assert(bytes_of_bits(pd).take(n as int) =~= data);
}

/// Bytes encoded with a covered complex method and decoded come back: the law on bits,
/// carried to the bytes that decoding returns.
pub proof fn lemma_encode_decode_bytes(ms: Seq<Submethod>, pivot: int, ws: Seq<Seq<char>>, data: Seq<u8>, text: Seq<char>)
    requires
        covered_methods(ms),
        forall|k: int| 0 <= k < ws.len() ==> line_word(#[trigger] ws[k]),
        pairs_fit(ws, pivot),
        8 * data.len() <= total_rate(ms) * sure_lines(ws.len() as int, (pivot + 1) / 2),
        encode_rel(ms, pivot, ws, bits_of_bytes(data), Ok::<Seq<char>, ErrorKind>(text)),
    ensures
        bytes_of_bits(padded(decode_lines(ms, pivot, lines_of(text)))).take(data.len() as int) == data,
{
    crate::binary::lemma_bits_of_bytes_are_bits(data);
    lemma_encode_decode(ms, pivot, ws, bits_of_bytes(data), text);
    lemma_bytes_back(data, decode_lines(ms, pivot, lines_of(text)));
}

} // verus!
