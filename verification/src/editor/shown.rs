//! Laws of how a row's text is shown, token by token.

use vstd::prelude::*;

verus! {

use crate::editor::offset_map::SegView;
use crate::editor::render::{
    edit_html, edit_map, edit_visible, escaped, escaped_char, inline_tokens, law_escape_concat,
    law_tokens_make_up_text, lemma_raw_text_concat, lemma_token_at, raw_text, read_html, token_at,
    token_content, tokens_from, tokens_read_html, InlineKind, InlineToken,
};
use crate::text::{
    lemma_first_occurrence, lemma_len_bounds, lemma_utf16_concat, occurs_at, utf16_len, utf8_len,
};

// ---- which tokens a text has ----

/// The character at which token `k` of a text starts.
pub open spec fn token_start(s: Seq<char>, k: int) -> int {
    raw_text(inline_tokens(s).take(k)).len() as int
}

/// The byte at which token `k` of a text starts.
pub open spec fn token_byte(s: Seq<char>, k: int) -> int {
    utf8_len(raw_text(inline_tokens(s).take(k))) as int
}

/// Whether a caret touches token `k` of a text: it stands at one of the token's ends or
/// between them.
pub open spec fn touches(s: Seq<char>, k: int, caret: Option<usize>) -> bool {
    caret matches Some(p) && token_byte(s, k) <= p && p <= token_byte(s, k) + utf8_len(
        inline_tokens(s)[k].raw,
    )
}

/// Whether a character stands twice in a row at a place of a text.
pub open spec fn twice_at(s: Seq<char>, c: char, i: int) -> bool {
    0 <= i && i + 1 < s.len() && s[i] == c && s[i + 1] == c
}

/// A text between markers of a kind.
pub open spec fn with_markers(kind: InlineKind, c: Seq<char>) -> Seq<char> {
    match kind {
        InlineKind::Plain => c,
        InlineKind::Code => seq!['`'] + c + seq!['`'],
        InlineKind::Strong => seq!['*', '*'] + c + seq!['*', '*'],
        InlineKind::Em => seq!['*'] + c + seq!['*'],
    }
}

/// A text between the tags of a kind, as HTML.
pub open spec fn with_tags(kind: InlineKind, c: Seq<char>) -> Seq<char> {
    match kind {
        InlineKind::Plain => escaped(c),
        InlineKind::Code => "<code class=\"rounded bg-muted px-1 py-0.5 font-mono text-[0.9em]\">"@
            + escaped(c) + "</code>"@,
        InlineKind::Strong => "<strong>"@ + escaped(c) + "</strong>"@,
        InlineKind::Em => "<em>"@ + escaped(c) + "</em>"@,
    }
}

proof fn lemma_tokens_from_at(s: Seq<char>, i: int, k: int)
    requires
        0 <= i <= s.len(),
        0 <= k < tokens_from(s, i).len(),
    ensures
        ({
            let ts = tokens_from(s, i);
            let at = i + raw_text(ts.take(k)).len();
            &&& i <= at < s.len()
            &&& ts[k] == token_at(s, at)
        }),
    decreases s.len() - i,
{
    let ts = tokens_from(s, i);
    lemma_token_at(s, i);
    let t = token_at(s, i);
    let next = i + t.raw.len();
    let rest = tokens_from(s, next);
    if k == 0 {
        assert(ts.take(0) =~= Seq::<InlineToken>::empty());
    } else {
        lemma_tokens_from_at(s, next, k - 1);
        assert(ts[k] == rest[k - 1]);
        assert(ts.take(k) =~= seq![t] + rest.take(k - 1));
        lemma_raw_text_concat(seq![t], rest.take(k - 1));
        assert(raw_text(seq![t]) =~= t.raw) by {
            assert(seq![t].drop_last() =~= Seq::<InlineToken>::empty());
            assert(raw_text(Seq::<InlineToken>::empty()) =~= Seq::<char>::empty());
        }
    }
}

proof fn lemma_single_at(s: Seq<char>, c: char, i: int)
    requires
        0 <= i,
    ensures
        occurs_at(s, seq![c], i) <==> i < s.len() && s[i] == c,
{
    if i < s.len() {
        assert(s.subrange(i, i + 1) =~= seq![s[i]]);
        assert(seq![s[i]][0] == s[i]);
        assert(seq![c][0] == c);
    }
}

proof fn lemma_twice_at(s: Seq<char>, c: char, i: int)
    requires
        0 <= i,
    ensures
        occurs_at(s, seq![c, c], i) <==> twice_at(s, c, i),
{
    if i + 2 <= s.len() {
        let r = s.subrange(i, i + 2);
        assert(r =~= seq![s[i], s[i + 1]]);
        if r == seq![c, c] {
            assert(r[0] == c && r[1] == c);
        }
    }
}

/// A token that starts with a backtick is code up to the next backtick, unless there is
/// none or it follows at once. Then the backtick is plain text.
pub proof fn law_code_ends_at_the_next_backtick(s: Seq<char>, k: int)
    requires
        0 <= k < inline_tokens(s).len(),
        s[token_start(s, k)] == '`',
    ensures
        ({
            let t = inline_tokens(s)[k];
            let i = token_start(s, k);
            ||| t == (InlineToken { kind: InlineKind::Plain, raw: seq!['`'] }) && (i + 1 < s.len()
                && s[i + 1] == '`' || forall|j: int| i < j < s.len() ==> #[trigger] s[j] != '`')
            ||| t.kind == InlineKind::Code && exists|e: int|
                i + 1 < e < s.len() && #[trigger] s[e] == '`' && t.raw == s.subrange(i, e + 1) && (
                forall|j: int| i < j < e ==> #[trigger] s[j] != '`')
        }),
{
    let i = token_start(s, k);
    lemma_tokens_from_at(s, 0, k);
    let m = seq!['`'];
    lemma_first_occurrence(s, m, i + 1);
    assert forall|j: int| i < j && #[trigger] occurs_at(s, m, j) implies j < s.len() && s[j]
        == '`' by {
        lemma_single_at(s, '`', j);
    }
    assert forall|j: int| i < j < s.len() && #[trigger] s[j] == '`' implies occurs_at(
        s,
        m,
        j,
    ) by {
        lemma_single_at(s, '`', j);
    }
}

/// A token that starts with two asterisks is strong up to the next two, unless there are
/// none or they follow at once. Then the asterisks are plain text.
pub proof fn law_strong_ends_at_the_next_two_asterisks(s: Seq<char>, k: int)
    requires
        0 <= k < inline_tokens(s).len(),
        twice_at(s, '*', token_start(s, k)),
    ensures
        ({
            let t = inline_tokens(s)[k];
            let i = token_start(s, k);
            ||| t == (InlineToken { kind: InlineKind::Plain, raw: seq!['*', '*'] }) && (twice_at(
                s,
                '*',
                i + 2,
            ) || forall|j: int| i + 2 <= j ==> !(#[trigger] twice_at(s, '*', j)))
            ||| t.kind == InlineKind::Strong && exists|e: int|
                i + 2 < e && #[trigger] twice_at(s, '*', e) && t.raw == s.subrange(i, e + 2) && (
                forall|j: int| i + 2 <= j < e ==> !(#[trigger] twice_at(s, '*', j)))
        }),
{
    let i = token_start(s, k);
    lemma_tokens_from_at(s, 0, k);
    let m = seq!['*', '*'];
    lemma_twice_at(s, '*', i);
    lemma_first_occurrence(s, m, i + 2);
    assert forall|j: int| i + 2 <= j implies (#[trigger] occurs_at(s, m, j) <==> twice_at(
        s,
        '*',
        j,
    )) by {
        lemma_twice_at(s, '*', j);
    }
    assert forall|j: int| i + 2 <= j implies (#[trigger] twice_at(s, '*', j) <==> occurs_at(
        s,
        m,
        j,
    )) by {
        lemma_twice_at(s, '*', j);
    }
}

/// A token that starts with one asterisk is emphasis up to the next asterisk, unless
/// there is none. Then the asterisk is plain text.
pub proof fn law_emphasis_ends_at_the_next_asterisk(s: Seq<char>, k: int)
    requires
        0 <= k < inline_tokens(s).len(),
        s[token_start(s, k)] == '*',
        !twice_at(s, '*', token_start(s, k)),
    ensures
        ({
            let t = inline_tokens(s)[k];
            let i = token_start(s, k);
            ||| t == (InlineToken { kind: InlineKind::Plain, raw: seq!['*'] }) && (forall|j: int|
                i < j < s.len() ==> #[trigger] s[j] != '*')
            ||| t.kind == InlineKind::Em && exists|e: int|
                i + 1 < e < s.len() && #[trigger] s[e] == '*' && t.raw == s.subrange(i, e + 1) && (
                forall|j: int| i < j < e ==> #[trigger] s[j] != '*')
        }),
{
    let i = token_start(s, k);
    lemma_tokens_from_at(s, 0, k);
    let m = seq!['*'];
    lemma_twice_at(s, '*', i);
    lemma_first_occurrence(s, m, i + 1);
    assert forall|j: int| i < j && #[trigger] occurs_at(s, m, j) implies j < s.len() && s[j]
        == '*' by {
        lemma_single_at(s, '*', j);
    }
    assert forall|j: int| i < j < s.len() && #[trigger] s[j] == '*' implies occurs_at(
        s,
        m,
        j,
    ) by {
        lemma_single_at(s, '*', j);
    }
}

/// Every other token is one character of plain text.
pub proof fn law_other_characters_are_plain(s: Seq<char>, k: int)
    requires
        0 <= k < inline_tokens(s).len(),
        s[token_start(s, k)] != '`',
        s[token_start(s, k)] != '*',
    ensures
        inline_tokens(s)[k] == (InlineToken {
            kind: InlineKind::Plain,
            raw: seq![s[token_start(s, k)]],
        }),
{
    lemma_tokens_from_at(s, 0, k);
    lemma_twice_at(s, '*', token_start(s, k));
}

proof fn lemma_token_markers(s: Seq<char>, i: int)
    requires
        0 <= i < s.len(),
    ensures
        token_at(s, i).raw == with_markers(token_at(s, i).kind, token_content(token_at(s, i))),
{
    let t = token_at(s, i);
    let c = token_content(t);
    lemma_token_at(s, i);
    lemma_first_occurrence(s, seq!['`'], i + 1);
    lemma_first_occurrence(s, seq!['*', '*'], i + 2);
    lemma_first_occurrence(s, seq!['*'], i + 1);
    lemma_twice_at(s, '*', i);
    match t.kind {
        InlineKind::Plain => {
            assert(c =~= t.raw);
        },
        InlineKind::Code => {
            lemma_single_at(s, '`', i + t.raw.len() - 1);
            assert(t.raw =~= seq!['`'] + c + seq!['`']);
        },
        InlineKind::Strong => {
            lemma_twice_at(s, '*', i + t.raw.len() - 2);
            assert(t.raw =~= seq!['*', '*'] + c + seq!['*', '*']);
        },
        InlineKind::Em => {
            lemma_single_at(s, '*', i + t.raw.len() - 1);
            assert(t.raw =~= seq!['*'] + c + seq!['*']);
        },
    }
}

// ---- what is shown while a text is edited ----

proof fn lemma_edit_prefix(ts: Seq<InlineToken>, k: int, caret: Option<usize>)
    requires
        0 <= k <= ts.len(),
    ensures
        edit_visible(ts.take(k), caret).is_prefix_of(edit_visible(ts, caret)),
        edit_html(ts.take(k), caret).is_prefix_of(edit_html(ts, caret)),
    decreases ts.len(),
{
    if k == ts.len() {
        assert(ts.take(k) =~= ts);
    } else {
        let p = ts.drop_last();
        lemma_edit_prefix(p, k, caret);
        assert(ts.take(k) =~= p.take(k));
    }
}

/// Where the caret touches a token, of whatever kind, the token is shown whole, markers
/// and all, and its HTML is its escaped text.
pub proof fn law_touched_token_is_shown_whole(s: Seq<char>, k: int, caret: Option<usize>)
    requires
        0 <= k < inline_tokens(s).len(),
        touches(s, k, caret),
    ensures
        ({
            let ts = inline_tokens(s);
            &&& edit_visible(ts.take(k + 1), caret) == edit_visible(ts.take(k), caret) + ts[k].raw
            &&& edit_html(ts.take(k + 1), caret) == edit_html(ts.take(k), caret) + escaped(
                ts[k].raw,
            )
            &&& (edit_visible(ts.take(k), caret) + ts[k].raw).is_prefix_of(edit_visible(ts, caret))
            &&& (edit_html(ts.take(k), caret) + escaped(ts[k].raw)).is_prefix_of(
                edit_html(ts, caret),
            )
        }),
{
    let ts = inline_tokens(s);
    let t = ts[k];
    assert(ts.take(k + 1).drop_last() =~= ts.take(k));
    assert(ts.take(k + 1).last() == t);
    assert(t.raw.subrange(0, t.raw.len() as int) =~= t.raw);
    lemma_edit_prefix(ts, k + 1, caret);
}

/// Where the caret does not touch a token, the token is shown without its markers, and
/// its HTML is its content between the tags of its kind.
pub proof fn law_other_token_hides_its_markers(s: Seq<char>, k: int, caret: Option<usize>)
    requires
        0 <= k < inline_tokens(s).len(),
        !touches(s, k, caret),
    ensures
        ({
            let ts = inline_tokens(s);
            exists|c: Seq<char>|
                {
                    &&& ts[k].raw == #[trigger] with_markers(ts[k].kind, c)
                    &&& edit_visible(ts.take(k + 1), caret) == edit_visible(ts.take(k), caret) + c
                    &&& edit_html(ts.take(k + 1), caret) == edit_html(ts.take(k), caret)
                        + with_tags(ts[k].kind, c)
                    &&& (edit_visible(ts.take(k), caret) + c).is_prefix_of(edit_visible(ts, caret))
                    &&& (edit_html(ts.take(k), caret) + with_tags(ts[k].kind, c)).is_prefix_of(
                        edit_html(ts, caret),
                    )
                }
        }),
{
    let ts = inline_tokens(s);
    let t = ts[k];
    let c = token_content(t);
    lemma_tokens_from_at(s, 0, k);
    lemma_token_markers(s, token_start(s, k));
    assert(ts.take(k + 1).drop_last() =~= ts.take(k));
    assert(ts.take(k + 1).last() == t);
    if t.kind == InlineKind::Plain {
        assert(c =~= t.raw);
    }
    let before = edit_html(ts.take(k), caret);
    assert(edit_html(ts.take(k + 1), caret) =~= before + with_tags(t.kind, c));
    lemma_edit_prefix(ts, k + 1, caret);
    assert(ts[k].raw == with_markers(ts[k].kind, c));
}

proof fn lemma_all_touched(s: Seq<char>, k: int, caret: Option<usize>)
    requires
        0 <= k <= inline_tokens(s).len(),
        forall|j: int|
            0 <= j < k && inline_tokens(s)[j].kind != InlineKind::Plain ==> #[trigger] touches(
                s,
                j,
                caret,
            ),
    ensures
        ({
            let ts = inline_tokens(s).take(k);
            let len = utf16_len(raw_text(ts)) as int;
            &&& edit_visible(ts, caret) == raw_text(ts)
            &&& edit_html(ts, caret) == escaped(raw_text(ts))
            &&& edit_map(ts, caret) == (if len == 0 {
                Seq::<SegView>::empty()
            } else {
                seq![SegView { vis_start: 0, raw_start: 0, len }]
            })
        }),
    decreases k,
{
    let all = inline_tokens(s);
    let ts = all.take(k);
    if k > 0 {
        lemma_all_touched(s, k - 1, caret);
        let before = all.take(k - 1);
        let t = all[k - 1];
        assert(ts.drop_last() =~= before);
        assert(ts.last() == t);
        assert(t.raw.subrange(0, t.raw.len() as int) =~= t.raw);
        if t.kind != InlineKind::Plain {
            assert(touches(s, k - 1, caret));
        }
        law_escape_concat(raw_text(before), t.raw);
        lemma_utf16_concat(raw_text(before), t.raw);
        lemma_tokens_from_at(s, 0, k - 1);
        lemma_token_at(s, token_start(s, k - 1));
        lemma_len_bounds(t.raw);
        assert(edit_map(ts, caret) =~= seq![
            SegView { vis_start: 0, raw_start: 0, len: utf16_len(raw_text(ts)) as int },
        ]);
    } else {
        assert(escaped(raw_text(ts)) =~= Seq::<char>::empty());
    }
}

/// Where the caret touches every token with markers, the text is shown as it is, and
/// every place in what is shown is the same place in the text.
pub proof fn law_text_is_shown_as_is_where_all_is_touched(s: Seq<char>, caret: Option<usize>)
    requires
        forall|k: int|
            0 <= k < inline_tokens(s).len() && inline_tokens(s)[k].kind != InlineKind::Plain
                ==> #[trigger] touches(s, k, caret),
    ensures
        edit_visible(inline_tokens(s), caret) == s,
        edit_html(inline_tokens(s), caret) == escaped(s),
        edit_map(inline_tokens(s), caret) == (if utf16_len(s) == 0 {
            Seq::<SegView>::empty()
        } else {
            seq![SegView { vis_start: 0, raw_start: 0, len: utf16_len(s) as int }]
        }),
{
    let ts = inline_tokens(s);
    lemma_all_touched(s, ts.len() as int, caret);
    assert(ts.take(ts.len() as int) =~= ts);
    law_tokens_make_up_text(s);
}

// ---- what is shown where a text is only read ----

proof fn lemma_read_prefix(ts: Seq<InlineToken>, k: int)
    requires
        0 <= k <= ts.len(),
    ensures
        tokens_read_html(ts.take(k)).is_prefix_of(tokens_read_html(ts)),
    decreases ts.len(),
{
    if k == ts.len() {
        assert(ts.take(k) =~= ts);
    } else {
        let p = ts.drop_last();
        lemma_read_prefix(p, k);
        assert(ts.take(k) =~= p.take(k));
    }
}

/// Where a text is only read, each token in turn is its content between the tags of its
/// kind, and a newline is a line break. An empty last line gets a space of its own.
pub proof fn law_read_text_is_its_tokens(s: Seq<char>, k: int)
    requires
        0 <= k < inline_tokens(s).len(),
    ensures
        ({
            let ts = inline_tokens(s);
            let before = tokens_read_html(ts.take(k));
            &&& ts[k].raw == seq!['\n'] ==> (before + "<br>"@).is_prefix_of(read_html(s))
                && tokens_read_html(ts.take(k + 1)) == before + "<br>"@
            &&& ts[k].raw != seq!['\n'] ==> exists|c: Seq<char>|
                ts[k].raw == #[trigger] with_markers(ts[k].kind, c) && (before + with_tags(
                    ts[k].kind,
                    c,
                )).is_prefix_of(read_html(s)) && tokens_read_html(ts.take(k + 1)) == before
                    + with_tags(ts[k].kind, c)
            &&& k + 1 == ts.len() ==> read_html(s) == tokens_read_html(ts.take(k + 1)) + (
            if s.last() == '\n' {
                "&nbsp;"@
            } else {
                Seq::empty()
            })
        }),
{
    let ts = inline_tokens(s);
    let t = ts[k];
    let c = token_content(t);
    let before = tokens_read_html(ts.take(k));
    lemma_tokens_from_at(s, 0, k);
    lemma_token_markers(s, token_start(s, k));
    assert(ts.take(k + 1).drop_last() =~= ts.take(k));
    assert(ts.take(k + 1).last() == t);
    if t.kind == InlineKind::Plain {
        assert(c =~= t.raw);
    }
    lemma_read_prefix(ts, k + 1);
    if t.raw != seq!['\n'] {
        assert(tokens_read_html(ts.take(k + 1)) =~= before + with_tags(t.kind, c));
        assert(t.raw == with_markers(t.kind, c));
    }
    if k + 1 == ts.len() {
        assert(ts.take(k + 1) =~= ts);
    }
}

// ---- escaping ----

/// The character that HTML reads at the start of a text, and how long its writing is.
pub open spec fn first_char_read(h: Seq<char>) -> (char, int) {
    if "&amp;"@.is_prefix_of(h) {
        ('&', 5)
    } else if "&lt;"@.is_prefix_of(h) {
        ('<', 4)
    } else if "&gt;"@.is_prefix_of(h) {
        ('>', 4)
    } else if "&quot;"@.is_prefix_of(h) {
        ('"', 6)
    } else if "&#39;"@.is_prefix_of(h) {
        ('\'', 5)
    } else {
        (h[0], 1)
    }
}

/// An escaped text is read as the text: its first character first, and then the rest,
/// which is escaped in the same way.
pub proof fn law_escaped_text_is_read_back(s: Seq<char>)
    requires
        s.len() > 0,
    ensures
        ({
            let (c, len) = first_char_read(escaped(s));
            &&& c == s[0]
            &&& escaped(s).skip(len) == escaped(s.skip(1))
        }),
{
    reveal_strlit("&amp;");
    reveal_strlit("&lt;");
    reveal_strlit("&gt;");
    reveal_strlit("&quot;");
    reveal_strlit("&#39;");
    let head = seq![s[0]];
    let rest = s.skip(1);
    law_escape_concat(head, rest);
    assert(head + rest =~= s);
    assert(head.drop_last() =~= Seq::<char>::empty());
    let h = escaped(s);
    let e = escaped_char(s[0]);
    assert(escaped(head.drop_last()) =~= Seq::<char>::empty());
    assert(escaped(head) =~= e);
    assert(h == e + escaped(rest));
    assert forall|i: int| 0 <= i < e.len() implies h[i] == e[i] by {}
    let len = first_char_read(h).1;
    if s[0] == '&' {
        assert("&amp;"@.is_prefix_of(h));
    } else if s[0] == '<' {
        assert(h[1] == 'l');
        assert("&amp;"@[1] == 'a');
        assert("&lt;"@.is_prefix_of(h));
    } else if s[0] == '>' {
        assert(h[1] == 'g');
        assert("&amp;"@[1] == 'a');
        assert("&lt;"@[1] == 'l');
        assert("&gt;"@.is_prefix_of(h));
    } else if s[0] == '"' {
        assert(h[1] == 'q');
        assert("&amp;"@[1] == 'a');
        assert("&lt;"@[1] == 'l');
        assert("&gt;"@[1] == 'g');
        assert("&quot;"@.is_prefix_of(h));
    } else if s[0] == '\'' {
        assert(h[1] == '#');
        assert("&amp;"@[1] == 'a');
        assert("&lt;"@[1] == 'l');
        assert("&gt;"@[1] == 'g');
        assert("&quot;"@[1] == 'q');
        assert("&#39;"@.is_prefix_of(h));
    } else {
        assert(h[0] == s[0]);
        assert("&amp;"@[0] == '&');
        assert("&lt;"@[0] == '&');
        assert("&gt;"@[0] == '&');
        assert("&quot;"@[0] == '&');
        assert("&#39;"@[0] == '&');
    }
    assert(len == e.len());
    assert(h.skip(len) =~= escaped(rest));
}

} // verus!
