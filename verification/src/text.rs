//! Strings as sequences of characters, measured in UTF-16 and UTF-8 code units.
//!
//! The browser counts caret positions in UTF-16 code units and Rust indexes
//! strings by UTF-8 bytes. Everything here is stated over `Seq<char>`, the view
//! of a string, with the two measures as functions of it.

use vstd::prelude::*;
use vstd::string::*;
use vstd::utf8::*;

verus! {

/// Number of UTF-16 code units of a character.
pub open spec fn utf16_width(c: char) -> nat {
    if (c as u32) < 0x10000 {
        1
    } else {
        2
    }
}

/// Number of UTF-16 code units of a text.
pub open spec fn utf16_len(s: Seq<char>) -> nat
    decreases s.len(),
{
    if s.len() == 0 {
        0
    } else {
        utf16_len(s.drop_last()) + utf16_width(s.last())
    }
}

/// Number of UTF-8 bytes of a character.
pub open spec fn utf8_width(c: char) -> nat {
    if (c as u32) < 0x80 {
        1
    } else if (c as u32) < 0x800 {
        2
    } else if (c as u32) < 0x10000 {
        3
    } else {
        4
    }
}

/// Number of UTF-8 bytes of a text.
pub open spec fn utf8_len(s: Seq<char>) -> nat
    decreases s.len(),
{
    if s.len() == 0 {
        0
    } else {
        utf8_len(s.drop_last()) + utf8_width(s.last())
    }
}

/// Length, in characters, of the longest prefix of `s` that takes at most `pos`
/// UTF-16 code units.
pub open spec fn chars_in_utf16(s: Seq<char>, pos: int) -> nat
    decreases s.len(),
{
    if s.len() == 0 || utf16_len(s) <= pos {
        s.len()
    } else {
        chars_in_utf16(s.drop_last(), pos)
    }
}

/// Length, in characters, of the longest prefix of `s` that takes at most `bytes`
/// UTF-8 bytes.
pub open spec fn chars_in_utf8(s: Seq<char>, bytes: int) -> nat
    decreases s.len(),
{
    if s.len() == 0 || utf8_len(s) <= bytes {
        s.len()
    } else {
        chars_in_utf8(s.drop_last(), bytes)
    }
}

/// Whether `bytes` is the byte offset at which some character of `s` starts, or
/// the byte length of `s`.
pub open spec fn is_utf8_boundary(s: Seq<char>, bytes: int) -> bool {
    utf8_len(s.take(chars_in_utf8(s, bytes) as int)) == bytes
}

/// Whether `pos` falls between two characters of `s` and not inside a surrogate pair.
pub open spec fn is_utf16_boundary(s: Seq<char>, pos: int) -> bool {
    utf16_len(s.take(chars_in_utf16(s, pos) as int)) == pos
}

/// The smaller of two numbers.
pub open spec fn min_of(a: int, b: int) -> int {
    if a <= b {
        a
    } else {
        b
    }
}

/// The characters with the Unicode property `White_Space`.
pub open spec fn is_white_space(c: char) -> bool {
    let v = c as u32;
    ||| 0x09 <= v <= 0x0d
    ||| v == 0x20 || v == 0x85 || v == 0xa0 || v == 0x1680
    ||| 0x2000 <= v <= 0x200a
    ||| v == 0x2028 || v == 0x2029 || v == 0x202f || v == 0x205f || v == 0x3000
}

/// Whether nothing of `s` is left once white space is trimmed.
pub open spec fn is_blank(s: Seq<char>) -> bool {
    forall|i: int| 0 <= i < s.len() ==> is_white_space(#[trigger] s[i])
}

/// Whether `pat` stands in `s` at character `i`.
pub open spec fn occurs_at(s: Seq<char>, pat: Seq<char>, i: int) -> bool {
    0 <= i && i + pat.len() <= s.len() && s.subrange(i, i + pat.len()) == pat
}

/// The first character index at or after `from` at which `pat` stands in `s`.
pub open spec fn first_occurrence(s: Seq<char>, pat: Seq<char>, from: int) -> Option<int>
    decreases s.len() - from,
{
    if from < 0 || from + pat.len() > s.len() {
        None
    } else if occurs_at(s, pat, from) {
        Some(from)
    } else if from >= s.len() {
        None
    } else {
        first_occurrence(s, pat, from + 1)
    }
}

/// The parts of `s` between the newlines. There is one more part than newlines.
pub open spec fn split_lines(s: Seq<char>) -> Seq<Seq<char>>
    decreases s.len(),
{
    if s.len() == 0 {
        seq![s]
    } else {
        let rest = split_lines(s.drop_last());
        if s.last() == '\n' {
            rest.push(Seq::empty())
        } else {
            rest.update(rest.len() - 1, rest.last().push(s.last()))
        }
    }
}

/// The parts joined with single newlines between them.
pub open spec fn join_lines(parts: Seq<Seq<char>>) -> Seq<char>
    decreases parts.len(),
{
    if parts.len() == 0 {
        Seq::empty()
    } else if parts.len() == 1 {
        parts[0]
    } else {
        join_lines(parts.drop_last()).push('\n') + parts.last()
    }
}

/// Lexicographic order by code point, which is also the order of the UTF-8 bytes.
pub open spec fn lex_less(a: Seq<char>, b: Seq<char>) -> bool
    decreases a.len(),
{
    if b.len() == 0 {
        false
    } else if a.len() == 0 {
        true
    } else {
        a[0] < b[0] || (a[0] == b[0] && lex_less(a.drop_first(), b.drop_first()))
    }
}

// ---- lemmas on the two measures ----

pub proof fn lemma_utf16_push(s: Seq<char>, c: char)
    ensures
        utf16_len(s.push(c)) == utf16_len(s) + utf16_width(c),
{
    assert(s.push(c).drop_last() =~= s);
}

pub proof fn lemma_utf8_push(s: Seq<char>, c: char)
    ensures
        utf8_len(s.push(c)) == utf8_len(s) + utf8_width(c),
{
    assert(s.push(c).drop_last() =~= s);
}

/// The UTF-16 length of a concatenation is the sum of the lengths.
pub proof fn lemma_utf16_concat(a: Seq<char>, b: Seq<char>)
    ensures
        utf16_len(a + b) == utf16_len(a) + utf16_len(b),
    decreases b.len(),
{
    if b.len() == 0 {
        assert(a + b =~= a);
    } else {
        lemma_utf16_concat(a, b.drop_last());
        assert((a + b).drop_last() =~= a + b.drop_last());
    }
}

/// The UTF-8 length of a concatenation is the sum of the lengths.
pub proof fn lemma_utf8_concat(a: Seq<char>, b: Seq<char>)
    ensures
        utf8_len(a + b) == utf8_len(a) + utf8_len(b),
    decreases b.len(),
{
    if b.len() == 0 {
        assert(a + b =~= a);
    } else {
        lemma_utf8_concat(a, b.drop_last());
        assert((a + b).drop_last() =~= a + b.drop_last());
    }
}

pub proof fn lemma_utf16_split(s: Seq<char>, k: int)
    requires
        0 <= k <= s.len(),
    ensures
        utf16_len(s) == utf16_len(s.take(k)) + utf16_len(s.skip(k)),
        utf16_len(s.take(k)) <= utf16_len(s),
{
    assert(s =~= s.take(k) + s.skip(k));
    lemma_utf16_concat(s.take(k), s.skip(k));
}

pub proof fn lemma_utf8_split(s: Seq<char>, k: int)
    requires
        0 <= k <= s.len(),
    ensures
        utf8_len(s) == utf8_len(s.take(k)) + utf8_len(s.skip(k)),
{
    assert(s =~= s.take(k) + s.skip(k));
    lemma_utf8_concat(s.take(k), s.skip(k));
}

pub proof fn lemma_utf16_take_next(s: Seq<char>, k: int)
    requires
        0 <= k < s.len(),
    ensures
        utf16_len(s.take(k + 1)) == utf16_len(s.take(k)) + utf16_width(s[k]),
{
    assert(s.take(k + 1) =~= s.take(k).push(s[k]));
    lemma_utf16_push(s.take(k), s[k]);
}

pub proof fn lemma_utf8_take_next(s: Seq<char>, k: int)
    requires
        0 <= k < s.len(),
    ensures
        utf8_len(s.take(k + 1)) == utf8_len(s.take(k)) + utf8_width(s[k]),
{
    assert(s.take(k + 1) =~= s.take(k).push(s[k]));
    lemma_utf8_push(s.take(k), s[k]);
}

/// A longer prefix takes strictly more code units, by both measures.
pub proof fn lemma_prefix_lens_grow(s: Seq<char>, j: int, k: int)
    requires
        0 <= j <= k <= s.len(),
    ensures
        utf16_len(s.take(j)) + (k - j) <= utf16_len(s.take(k)),
        utf8_len(s.take(j)) + (k - j) <= utf8_len(s.take(k)),
    decreases k - j,
{
    if j < k {
        lemma_prefix_lens_grow(s, j, k - 1);
        lemma_utf16_take_next(s, k - 1);
        lemma_utf8_take_next(s, k - 1);
    }
}

/// A text has at least as many code units as characters, and at most two UTF-16
/// units or four bytes for each.
pub proof fn lemma_len_bounds(s: Seq<char>)
    ensures
        s.len() <= utf16_len(s) <= 2 * s.len(),
        s.len() <= utf8_len(s) <= 4 * s.len(),
        utf16_len(s) <= utf8_len(s),
    decreases s.len(),
{
    if s.len() > 0 {
        lemma_len_bounds(s.drop_last());
    }
}

/// What `chars_in_utf16` is: it fits, and one character more would not.
pub proof fn lemma_chars_in_utf16(s: Seq<char>, pos: int)
    requires
        0 <= pos,
    ensures
        chars_in_utf16(s, pos) <= s.len(),
        utf16_len(s.take(chars_in_utf16(s, pos) as int)) <= pos,
        chars_in_utf16(s, pos) < s.len() ==> utf16_len(
            s.take(chars_in_utf16(s, pos) as int + 1),
        ) > pos,
    decreases s.len(),
{
    if s.len() == 0 || utf16_len(s) <= pos {
        assert(s.take(s.len() as int) =~= s);
    } else {
        let p = s.drop_last();
        lemma_chars_in_utf16(p, pos);
        let k = chars_in_utf16(p, pos) as int;
        assert(s.take(k) =~= p.take(k));
        if k < p.len() {
            assert(s.take(k + 1) =~= p.take(k + 1));
        } else {
            assert(s.take(k + 1) =~= s);
        }
    }
}

pub proof fn lemma_chars_in_utf8(s: Seq<char>, bytes: int)
    requires
        0 <= bytes,
    ensures
        chars_in_utf8(s, bytes) <= s.len(),
        utf8_len(s.take(chars_in_utf8(s, bytes) as int)) <= bytes,
        chars_in_utf8(s, bytes) < s.len() ==> utf8_len(
            s.take(chars_in_utf8(s, bytes) as int + 1),
        ) > bytes,
    decreases s.len(),
{
    if s.len() == 0 || utf8_len(s) <= bytes {
        assert(s.take(s.len() as int) =~= s);
    } else {
        let p = s.drop_last();
        lemma_chars_in_utf8(p, bytes);
        let k = chars_in_utf8(p, bytes) as int;
        assert(s.take(k) =~= p.take(k));
        if k < p.len() {
            assert(s.take(k + 1) =~= p.take(k + 1));
        } else {
            assert(s.take(k + 1) =~= s);
        }
    }
}

/// `k` is the longest prefix within `pos` code units, if it fits and the next does not.
pub proof fn lemma_chars_in_utf16_is(s: Seq<char>, pos: int, k: int)
    requires
        0 <= k <= s.len(),
        utf16_len(s.take(k)) <= pos,
        k < s.len() ==> utf16_len(s.take(k + 1)) > pos,
    ensures
        chars_in_utf16(s, pos) == k,
{
    lemma_chars_in_utf16(s, pos);
    let m = chars_in_utf16(s, pos) as int;
    if m < k {
        lemma_prefix_lens_grow(s, m + 1, k);
    } else if k < m {
        lemma_prefix_lens_grow(s, k + 1, m);
    }
}

pub proof fn lemma_chars_in_utf8_is(s: Seq<char>, bytes: int, k: int)
    requires
        0 <= k <= s.len(),
        utf8_len(s.take(k)) <= bytes,
        k < s.len() ==> utf8_len(s.take(k + 1)) > bytes,
    ensures
        chars_in_utf8(s, bytes) == k,
{
    lemma_chars_in_utf8(s, bytes);
    let m = chars_in_utf8(s, bytes) as int;
    if m < k {
        lemma_prefix_lens_grow(s, m + 1, k);
    } else if k < m {
        lemma_prefix_lens_grow(s, k + 1, m);
    }
}

/// The offset of the `k`th character, by either measure, leads back to `k`.
pub proof fn lemma_offset_of_char(s: Seq<char>, k: int)
    requires
        0 <= k <= s.len(),
    ensures
        chars_in_utf16(s, utf16_len(s.take(k)) as int) == k,
        chars_in_utf8(s, utf8_len(s.take(k)) as int) == k,
        is_utf16_boundary(s, utf16_len(s.take(k)) as int),
        is_utf8_boundary(s, utf8_len(s.take(k)) as int),
{
    if k < s.len() {
        lemma_utf16_take_next(s, k);
        lemma_utf8_take_next(s, k);
    }
    lemma_chars_in_utf16_is(s, utf16_len(s.take(k)) as int, k);
    lemma_chars_in_utf8_is(s, utf8_len(s.take(k)) as int, k);
}

/// A later position has no fewer characters before it.
pub proof fn lemma_chars_in_utf16_grows(s: Seq<char>, a: int, b: int)
    requires
        0 <= a <= b,
    ensures
        chars_in_utf16(s, a) <= chars_in_utf16(s, b) <= s.len(),
{
    lemma_chars_in_utf16(s, a);
    lemma_chars_in_utf16(s, b);
    let ka = chars_in_utf16(s, a) as int;
    let kb = chars_in_utf16(s, b) as int;
    if kb < ka {
        lemma_prefix_lens_grow(s, kb + 1, ka);
    }
}

/// The end of `a` is a position between two characters of `a + b`.
pub proof fn lemma_cut(a: Seq<char>, b: Seq<char>)
    ensures
        chars_in_utf16(a + b, utf16_len(a) as int) == a.len(),
        is_utf16_boundary(a + b, utf16_len(a) as int),
        (a + b).take(a.len() as int) == a,
        (a + b).skip(a.len() as int) == b,
        utf16_len(a + b) == utf16_len(a) + utf16_len(b),
{
    assert((a + b).take(a.len() as int) =~= a);
    assert((a + b).skip(a.len() as int) =~= b);
    lemma_offset_of_char(a + b, a.len() as int);
    lemma_utf16_concat(a, b);
}

/// `utf8_len` counts the bytes of the encoding.
pub proof fn lemma_utf8_len_is_encoded_len(s: Seq<char>)
    ensures
        utf8_len(s) == encode_utf8(s).len(),
    decreases s.len(),
{
    if s.len() > 0 {
        let head = seq![s[0]];
        let rest = s.drop_first();
        lemma_utf8_len_is_encoded_len(rest);
        assert(s =~= head + rest);
        lemma_utf8_concat(head, rest);
        assert(head.drop_last() =~= Seq::<char>::empty());
        assert(utf8_len(head) == utf8_width(s[0])) by {
            reveal_with_fuel(utf8_len, 2);
        }
        let scalar = s[0] as u32;
        char_is_scalar(s[0]);
        assert(encode_scalar(scalar).len() == utf8_width(s[0]));
        assert(encode_utf8(s) == encode_scalar(scalar) + encode_utf8(rest));
    }
}

// ---- lemmas on searching and splitting ----

/// What `first_occurrence` is: an occurrence with none before it, or none at all.
pub proof fn lemma_first_occurrence(s: Seq<char>, pat: Seq<char>, from: int)
    requires
        0 <= from,
    ensures
        match first_occurrence(s, pat, from) {
            Some(i) => from <= i && occurs_at(s, pat, i) && forall|j: int|
                from <= j < i ==> !occurs_at(s, pat, j),
            None => forall|j: int| from <= j ==> !occurs_at(s, pat, j),
        },
    decreases s.len() - from,
{
    if from + pat.len() > s.len() {
    } else if occurs_at(s, pat, from) {
    } else if from >= s.len() {
    } else {
        lemma_first_occurrence(s, pat, from + 1);
    }
}

pub proof fn lemma_split_lines_nonempty(s: Seq<char>)
    ensures
        split_lines(s).len() >= 1,
        split_lines(s).len() <= s.len() + 1,
    decreases s.len(),
{
    if s.len() > 0 {
        lemma_split_lines_nonempty(s.drop_last());
    }
}

/// Splitting a text at its newlines and joining the parts gives the text back, and
/// no part holds a newline.
pub proof fn lemma_split_join_lines(s: Seq<char>)
    ensures
        join_lines(split_lines(s)) == s,
        forall|i: int| 0 <= i < split_lines(s).len() ==> !(#[trigger] split_lines(s)[i]).contains('\n'),
    decreases s.len(),
{
    if s.len() == 0 {
        assert(split_lines(s)[0] == s);
    } else {
        let p = s.drop_last();
        lemma_split_lines_nonempty(p);
        lemma_split_join_lines(p);
        let rest = split_lines(p);
        let out = split_lines(s);
        if s.last() == '\n' {
            assert(out.drop_last() =~= rest);
            assert(out.last() =~= Seq::<char>::empty());
            assert(join_lines(out) =~= p.push('\n'));
        } else {
            let last = rest.last().push(s.last());
            assert(out.last() == last);
            assert(out.drop_last() =~= rest.drop_last());
            assert(!last.contains('\n')) by {
                assert(!rest[rest.len() - 1].contains('\n'));
                if last.contains('\n') {
                    let i = choose|i: int| 0 <= i < last.len() && last[i] == '\n';
                    assert(rest.last()[i] == '\n');
                }
            }
            assert forall|i: int| 0 <= i < out.len() implies !(#[trigger] out[i]).contains('\n') by {
                if i < rest.len() - 1 {
                    assert(out[i] == rest[i]);
                }
            }
            if rest.len() == 1 {
                assert(join_lines(out) == out[0]);
                assert(join_lines(rest) == rest[0]);
            }
            assert(join_lines(out) =~= p.push(s.last()));
        }
        assert(p.push(s.last()) =~= s);
    }
}

/// The first `k` lines, each with a newline behind it, but for the last of all.
pub open spec fn lines_text(lines: Seq<Seq<char>>, k: int) -> Seq<char>
    decreases k,
{
    if k <= 0 {
        Seq::empty()
    } else {
        let before = lines_text(lines, k - 1) + lines[k - 1];
        if k < lines.len() {
            before.push('\n')
        } else {
            before
        }
    }
}

pub proof fn lemma_lines_text_prefix(lines: Seq<Seq<char>>, k: int)
    requires
        0 <= k < lines.len(),
    ensures
        lines_text(lines, k) == if k == 0 {
            Seq::<char>::empty()
        } else {
            join_lines(lines.take(k)).push('\n')
        },
    decreases k,
{
    if k > 0 {
        lemma_lines_text_prefix(lines, k - 1);
        let p = lines.take(k);
        assert(p.drop_last() =~= lines.take(k - 1));
        assert(p.last() == lines[k - 1]);
        if k == 1 {
            assert(Seq::<char>::empty() + lines[0] =~= lines[0]);
        }
    }
}

/// The lines of a text with the newlines between them are the text.
pub proof fn lemma_lines_text_whole(s: Seq<char>)
    ensures
        lines_text(split_lines(s), split_lines(s).len() as int) == s,
{
    let lines = split_lines(s);
    let n = lines.len() as int;
    lemma_split_lines_nonempty(s);
    lemma_split_join_lines(s);
    lemma_lines_text_prefix(lines, n - 1);
    assert(lines.take(n - 1) =~= lines.drop_last());
    assert(lines.last() == lines[n - 1]);
    if n == 1 {
        assert(Seq::<char>::empty() + lines[0] =~= lines[0]);
    }
}

pub proof fn lemma_lines_text_grows(lines: Seq<Seq<char>>, j: int, k: int)
    requires
        0 <= j <= k <= lines.len(),
    ensures
        utf16_len(lines_text(lines, j)) <= utf16_len(lines_text(lines, k)),
    decreases k - j,
{
    if j < k {
        lemma_lines_text_grows(lines, j, k - 1);
        lemma_utf16_concat(lines_text(lines, k - 1), lines[k - 1]);
        lemma_utf16_push(lines_text(lines, k - 1) + lines[k - 1], '\n');
    }
}

pub proof fn lemma_split_lines_concat(a: Seq<char>, b: Seq<char>)
    ensures
        ({
            let la = split_lines(a);
            let lb = split_lines(b);
            let r = split_lines(a + b);
            &&& r.len() == la.len() + lb.len() - 1
            &&& forall|i: int| 0 <= i < la.len() - 1 ==> r[i] == la[i]
            &&& r[la.len() - 1] == la.last() + lb[0]
            &&& forall|i: int| 0 < i < lb.len() ==> r[la.len() - 1 + i] == #[trigger] lb[i]
        }),
    decreases b.len(),
{
    lemma_split_lines_nonempty(a);
    lemma_split_lines_nonempty(b);
    let la = split_lines(a);
    if b.len() == 0 {
        assert(a + b =~= a);
        assert(la.last() + split_lines(b)[0] =~= la.last());
    } else {
        let p = b.drop_last();
        let c = b.last();
        lemma_split_lines_concat(a, p);
        lemma_split_lines_nonempty(p);
        assert((a + b).drop_last() =~= a + p);
        assert((a + b).last() == c);
        let rp = split_lines(a + p);
        let r = split_lines(a + b);
        let lp = split_lines(p);
        let lb = split_lines(b);
        if c == '\n' {
            assert(lb[0] == lp[0]);
            assert forall|i: int| 0 < i < lb.len() implies r[la.len() - 1 + i] == #[trigger] lb[i] by {
                if i < lp.len() {
                    assert(lp[i] == rp[la.len() - 1 + i]);
                }
            }
        } else {
            assert forall|i: int| 0 < i < lb.len() implies r[la.len() - 1 + i] == #[trigger] lb[i] by {
                assert(lp[i] == rp[la.len() - 1 + i]);
            }
            if lp.len() == 1 {
                assert((la.last() + lp[0]).push(c) =~= la.last() + lp[0].push(c));
            }
        }
    }
}

/// The lines before the one that `a` ends on are the same in `a + b`.
pub proof fn lemma_lines_text_of_head(a: Seq<char>, b: Seq<char>)
    ensures
        ({
            let k = split_lines(a).len() - 1;
            &&& 0 <= k < split_lines(a + b).len()
            &&& lines_text(split_lines(a + b), k) + split_lines(a).last() == a
            &&& split_lines(a + b)[k] == split_lines(a).last() + split_lines(b)[0]
        }),
{
    lemma_split_lines_nonempty(a);
    lemma_split_lines_nonempty(b);
    lemma_split_lines_concat(a, b);
    lemma_lines_text_whole(a);
    let k = split_lines(a).len() - 1;
    lemma_lines_text_agree(split_lines(a), split_lines(a + b), k);
}

proof fn lemma_lines_text_agree(x: Seq<Seq<char>>, y: Seq<Seq<char>>, k: int)
    requires
        0 <= k < x.len(),
        k < y.len(),
        forall|i: int| 0 <= i < k ==> x[i] == y[i],
    ensures
        lines_text(x, k) == lines_text(y, k),
    decreases k,
{
    if k > 0 {
        lemma_lines_text_agree(x, y, k - 1);
    }
}

// ---- lemmas on the order ----

pub proof fn lemma_lex_irreflexive(a: Seq<char>)
    ensures
        !lex_less(a, a),
    decreases a.len(),
{
    if a.len() > 0 {
        lemma_lex_irreflexive(a.drop_first());
    }
}

pub proof fn lemma_lex_transitive(a: Seq<char>, b: Seq<char>, c: Seq<char>)
    requires
        lex_less(a, b),
        lex_less(b, c),
    ensures
        lex_less(a, c),
    decreases a.len(),
{
    if a.len() > 0 && a[0] == b[0] && b[0] == c[0] {
        lemma_lex_transitive(a.drop_first(), b.drop_first(), c.drop_first());
    }
}

pub proof fn lemma_lex_total(a: Seq<char>, b: Seq<char>)
    ensures
        lex_less(a, b) || a == b || lex_less(b, a),
    decreases a.len(),
{
    if a.len() == 0 || b.len() == 0 {
        if a.len() == 0 && b.len() == 0 {
            assert(a =~= b);
        }
    } else if a[0] == b[0] {
        lemma_lex_total(a.drop_first(), b.drop_first());
        if a.drop_first() == b.drop_first() {
            assert(a =~= seq![a[0]] + a.drop_first());
            assert(b =~= seq![b[0]] + b.drop_first());
        }
    }
}

// ---- executable helpers ----

/// `String::push` appends the character to the end of the string.
pub assume_specification[ String::push ](s: &mut String, c: char)
    ensures
        final(s)@ == old(s)@.push(c),
;

/// `char::is_whitespace` tells whether a character has the Unicode property
/// `White_Space`.
pub assume_specification[ char::is_whitespace ](c: char) -> (r: bool)
    ensures
        r == is_white_space(c),
;

/// Number of UTF-16 code units of `c`.
pub fn char_len_utf16(c: char) -> (r: u32)
    ensures
        r == utf16_width(c),
        1 <= r <= 2,
{
    if (c as u32) < 0x10000 {
        1
    } else {
        2
    }
}

/// Number of UTF-8 bytes of `c`.
pub fn char_len_utf8(c: char) -> (r: usize)
    ensures
        r == utf8_width(c),
        1 <= r <= 4,
{
    let v: u32 = c as u32;
    if v < 0x80 {
        1
    } else if v < 0x800 {
        2
    } else if v < 0x10000 {
        3
    } else {
        4
    }
}

/// The characters of `s`, in order.
pub fn to_chars(s: &str) -> (r: Vec<char>)
    ensures
        r@ == s@,
        utf8_len(s@) <= usize::MAX,
{
    let bytes = s.as_bytes();
    let n: usize = bytes.len();
    proof {
        lemma_utf8_len_is_encoded_len(s@);
        assert(n == utf8_len(s@));
    }
    let mut out: Vec<char> = Vec::new();
    for c in it: s.chars()
        invariant
            out@ == s@.take(it.index() as int),
            it.seq() == s@,
    {
        out.push(c);
    }
    assert(s@.take(s@.len() as int) =~= s@);
    out
}

/// The text of the characters from `from` up to `to`.
pub fn from_chars(chars: &[char], from: usize, to: usize) -> (r: String)
    requires
        from <= to <= chars@.len(),
    ensures
        r@ == chars@.subrange(from as int, to as int),
{
    let mut out = String::new();
    let mut i: usize = from;
    while i < to
        invariant
            from <= i <= to <= chars@.len(),
            out@ == chars@.subrange(from as int, i as int),
        decreases to - i,
    {
        out.push(chars[i]);
        i = i + 1;
    }
    out
}

/// Whether two strings hold the same text.
pub fn str_eq(a: &str, b: &str) -> (r: bool)
    ensures
        r == (a@ == b@),
{
    let x = a.as_bytes();
    let y = b.as_bytes();
    if x.len() != y.len() {
        return false;
    }
    let mut i: usize = 0;
    while i < x.len()
        invariant
            i <= x@.len(),
            x@.len() == y@.len(),
            x@ == encode_utf8(a@),
            y@ == encode_utf8(b@),
            forall|j: int| 0 <= j < i ==> x@[j] == y@[j],
        decreases x@.len() - i,
    {
        if x[i] != y[i] {
            return false;
        }
        i = i + 1;
    }
    proof {
        assert(x@ =~= y@);
        encode_utf8_decode_utf8(a@);
        encode_utf8_decode_utf8(b@);
    }
    true
}

/// Whether an optional id is present and reads `b`.
pub fn opt_str_eq(a: &Option<String>, b: &str) -> (r: bool)
    ensures
        r == (a matches Some(x) && x@ == b@),
{
    match a {
        Some(x) => str_eq(x.as_str(), b),
        None => false,
    }
}

/// Whether `s` is empty or holds white space only.
pub fn is_blank_str(s: &str) -> (r: bool)
    ensures
        r == is_blank(s@),
{
    for c in it: s.chars()
        invariant
            forall|j: int| 0 <= j < it.index() ==> is_white_space(#[trigger] s@[j]),
            it.seq() == s@,
    {
        if !c.is_whitespace() {
            assert(!is_white_space(s@[it.index() as int]));
            return false;
        }
    }
    true
}

/// Whether `a` comes before `b` in the order of code points.
pub fn str_less(a: &str, b: &str) -> (r: bool)
    ensures
        r == lex_less(a@, b@),
{
    let x = to_chars(a);
    let y = to_chars(b);
    let mut i: usize = 0;
    proof {
        assert(a@.skip(0) =~= a@);
        assert(b@.skip(0) =~= b@);
    }
    while i < x.len() && i < y.len()
        invariant
            x@ == a@,
            y@ == b@,
            i <= x@.len(),
            i <= y@.len(),
            lex_less(a@, b@) == lex_less(a@.skip(i as int), b@.skip(i as int)),
        decreases x@.len() - i,
    {
        let c: char = x[i];
        let d: char = y[i];
        if c < d {
            return true;
        }
        if d < c {
            return false;
        }
        proof {
            assert(a@.skip(i as int).drop_first() =~= a@.skip(i + 1));
            assert(b@.skip(i as int).drop_first() =~= b@.skip(i + 1));
        }
        i = i + 1;
    }
    i < y.len()
}

/// The number of UTF-16 code units of a text.
pub fn utf16_len_of(s: &str) -> (r: u32)
    requires
        utf16_len(s@) <= u32::MAX,
    ensures
        r == utf16_len(s@),
{
    let mut n: u32 = 0;
    for c in it: s.chars()
        invariant
            n == utf16_len(s@.take(it.index() as int)),
            it.seq() == s@,
            utf16_len(s@) <= u32::MAX,
    {
        proof {
            let i = it.index() as int;
            lemma_utf16_take_next(s@, i);
            lemma_utf16_split(s@, i + 1);
        }
        n = n + char_len_utf16(c);
    }
    assert(s@.take(s@.len() as int) =~= s@);
    n
}

/// The number of UTF-16 code units of the characters from `from` up to `to`.
pub fn utf16_len_range(chars: &[char], from: usize, to: usize) -> (r: u32)
    requires
        from <= to <= chars@.len(),
        utf16_len(chars@) <= u32::MAX,
    ensures
        r == utf16_len(chars@.subrange(from as int, to as int)),
        r <= utf16_len(chars@),
{
    let mut n: u32 = 0;
    let mut i: usize = from;
    proof {
        let part = chars@.subrange(from as int, to as int);
        assert(chars@ =~= chars@.take(from as int) + (part + chars@.skip(to as int)));
        lemma_utf16_concat(chars@.take(from as int), part + chars@.skip(to as int));
        lemma_utf16_concat(part, chars@.skip(to as int));
    }
    while i < to
        invariant
            from <= i <= to <= chars@.len(),
            utf16_len(chars@.subrange(from as int, to as int)) <= utf16_len(chars@) <= u32::MAX,
            n == utf16_len(chars@.subrange(from as int, i as int)),
        decreases to - i,
    {
        proof {
            let part = chars@.subrange(from as int, to as int);
            let k = i - from;
            assert(part.take(k) =~= chars@.subrange(from as int, i as int));
            assert(part.take(k + 1) =~= chars@.subrange(from as int, i + 1));
            lemma_utf16_take_next(part, k);
            lemma_utf16_split(part, k + 1);
        }
        n = n + char_len_utf16(chars[i]);
        i = i + 1;
    }
    n
}

/// The longest prefix of the characters that takes at most `pos` UTF-16 code units.
pub fn chars_in_utf16_of(chars: &[char], pos: u32) -> (r: usize)
    ensures
        r == chars_in_utf16(chars@, pos as int),
        r <= chars@.len(),
{
    let mut left: u32 = pos;
    let mut i: usize = 0;
    while i < chars.len()
        invariant
            i <= chars@.len(),
            left + utf16_len(chars@.take(i as int)) == pos,
        decreases chars@.len() - i,
    {
        let w: u32 = char_len_utf16(chars[i]);
        proof {
            lemma_utf16_take_next(chars@, i as int);
        }
        if w > left {
            proof {
                lemma_chars_in_utf16_is(chars@, pos as int, i as int);
            }
            return i;
        }
        left = left - w;
        i = i + 1;
    }
    proof {
        lemma_chars_in_utf16_is(chars@, pos as int, i as int);
    }
    i
}

/// The number of UTF-8 bytes of the characters from `from` up to `to`.
pub fn utf8_len_range(chars: &[char], from: usize, to: usize) -> (r: usize)
    requires
        from <= to <= chars@.len(),
        utf8_len(chars@) <= usize::MAX,
    ensures
        r == utf8_len(chars@.subrange(from as int, to as int)),
        r <= utf8_len(chars@),
{
    let mut n: usize = 0;
    let mut i: usize = from;
    proof {
        let part = chars@.subrange(from as int, to as int);
        assert(chars@ =~= chars@.take(from as int) + (part + chars@.skip(to as int)));
        lemma_utf8_concat(chars@.take(from as int), part + chars@.skip(to as int));
        lemma_utf8_concat(part, chars@.skip(to as int));
    }
    while i < to
        invariant
            from <= i <= to <= chars@.len(),
            utf8_len(chars@.subrange(from as int, to as int)) <= utf8_len(chars@) <= usize::MAX,
            n == utf8_len(chars@.subrange(from as int, i as int)),
        decreases to - i,
    {
        proof {
            let part = chars@.subrange(from as int, to as int);
            let k = i - from;
            assert(part.take(k) =~= chars@.subrange(from as int, i as int));
            assert(part.take(k + 1) =~= chars@.subrange(from as int, i + 1));
            lemma_utf8_take_next(part, k);
            lemma_utf8_split(part, k + 1);
        }
        n = n + char_len_utf8(chars[i]);
        i = i + 1;
    }
    n
}

/// The longest prefix of the characters that takes at most `bytes` UTF-8 bytes.
pub fn chars_in_utf8_of(chars: &[char], bytes: usize) -> (r: usize)
    ensures
        r == chars_in_utf8(chars@, bytes as int),
        r <= chars@.len(),
{
    let mut left: usize = bytes;
    let mut i: usize = 0;
    while i < chars.len()
        invariant
            i <= chars@.len(),
            left + utf8_len(chars@.take(i as int)) == bytes,
        decreases chars@.len() - i,
    {
        let w: usize = char_len_utf8(chars[i]);
        proof {
            lemma_utf8_take_next(chars@, i as int);
        }
        if w > left {
            proof {
                lemma_chars_in_utf8_is(chars@, bytes as int, i as int);
            }
            return i;
        }
        left = left - w;
        i = i + 1;
    }
    proof {
        lemma_chars_in_utf8_is(chars@, bytes as int, i as int);
    }
    i
}

/// Whether `pat` stands in `chars` at index `i`.
pub fn occurs_at_of(chars: &[char], pat: &[char], i: usize) -> (r: bool)
    requires
        i <= chars@.len(),
    ensures
        r == occurs_at(chars@, pat@, i as int),
{
    if pat.len() > chars.len() - i {
        return false;
    }
    let mut k: usize = 0;
    while k < pat.len()
        invariant
            k <= pat@.len(),
            i + pat@.len() <= chars@.len() <= usize::MAX,
            forall|j: int| 0 <= j < k ==> chars@[i + j] == pat@[j],
        decreases pat@.len() - k,
    {
        if chars[i + k] != pat[k] {
            assert(chars@.subrange(i as int, i + pat@.len())[k as int] != pat@[k as int]);
            return false;
        }
        k = k + 1;
    }
    assert(chars@.subrange(i as int, i + pat@.len()) =~= pat@);
    true
}

/// The first index at or after `from` at which `pat` stands in `chars`.
pub fn first_occurrence_of(chars: &[char], pat: &[char], from: usize) -> (r: Option<usize>)
    requires
        from <= chars@.len(),
    ensures
        match r {
            Some(i) => first_occurrence(chars@, pat@, from as int) == Some(i as int),
            None => first_occurrence(chars@, pat@, from as int) is None,
        },
        r matches Some(i) ==> from <= i && i + pat@.len() <= chars@.len(),
{
    let mut i: usize = from;
    loop
        invariant
            from <= i <= chars@.len(),
            first_occurrence(chars@, pat@, from as int) == first_occurrence(
                chars@,
                pat@,
                i as int,
            ),
        decreases chars@.len() - i,
    {
        if occurs_at_of(chars, pat, i) {
            return Some(i);
        }
        if i >= chars.len() {
            return None;
        }
        i = i + 1;
    }
}

/// The parts of a text between its newlines.
pub fn split_lines_of(chars: &[char]) -> (r: Vec<Vec<char>>)
    ensures
        r@.len() == split_lines(chars@).len(),
        forall|i: int| 0 <= i < r@.len() ==> (#[trigger] r@[i])@ == split_lines(chars@)[i],
{
    let mut out: Vec<Vec<char>> = Vec::new();
    let mut cur: Vec<char> = Vec::new();
    let mut i: usize = 0;
    proof {
        assert(chars@.take(0) =~= Seq::<char>::empty());
    }
    while i < chars.len()
        invariant
            i <= chars@.len(),
            split_lines(chars@.take(i as int)).len() == out@.len() + 1,
            forall|j: int|
                0 <= j < out@.len() ==> (#[trigger] out@[j])@ == split_lines(
                    chars@.take(i as int),
                )[j],
            cur@ == split_lines(chars@.take(i as int)).last(),
        decreases chars@.len() - i,
    {
        let c: char = chars[i];
        proof {
            assert(chars@.take(i + 1).drop_last() =~= chars@.take(i as int));
        }
        if c == '\n' {
            out.push(cur);
            cur = Vec::new();
        } else {
            cur.push(c);
        }
        i = i + 1;
    }
    assert(chars@.take(i as int) =~= chars@);
    out.push(cur);
    out
}

} // verus!
