//! Inline rendering of a row's text, and the map between what is shown and what
//! is stored.

use crate::editor::offset_map::{push_map_segment, OffsetMapSeg};
use crate::text::{first_occurrence_of, to_chars, utf16_len_range, utf8_len_range};
use vstd::prelude::*;

verus! {

use crate::editor::offset_map::{
    lemma_with_segment_matches, lemma_with_segment_wf, map_matches, map_wf, seg_views, with_segment, SegView,
};
use crate::text::{
    first_occurrence, lemma_first_occurrence, lemma_len_bounds, lemma_utf16_concat,
    lemma_utf16_split, lemma_utf8_concat, lemma_utf8_split, occurs_at, utf16_len, utf8_len,
};

// ---- escaping ----

/// What a character is written as in HTML.
pub open spec fn escaped_char(c: char) -> Seq<char> {
    if c == '&' {
        "&amp;"@
    } else if c == '<' {
        "&lt;"@
    } else if c == '>' {
        "&gt;"@
    } else if c == '"' {
        "&quot;"@
    } else if c == '\'' {
        "&#39;"@
    } else {
        seq![c]
    }
}

/// What a text is written as in HTML.
pub open spec fn escaped(s: Seq<char>) -> Seq<char>
    decreases s.len(),
{
    if s.len() == 0 {
        s
    } else {
        escaped(s.drop_last()) + escaped_char(s.last())
    }
}

/// Appends one character, escaped.
fn push_escaped_char(out: &mut String, c: char)
    ensures
        final(out)@ == old(out)@ + escaped_char(c),
{
    if c == '&' {
        out.append("&amp;");
    } else if c == '<' {
        out.append("&lt;");
    } else if c == '>' {
        out.append("&gt;");
    } else if c == '"' {
        out.append("&quot;");
    } else if c == '\'' {
        out.append("&#39;");
    } else {
        out.push(c);
    }
}

/// Appends the characters from `from` up to `to`, escaped.
fn push_escaped(out: &mut String, chars: &[char], from: usize, to: usize)
    requires
        from <= to <= chars@.len(),
    ensures
        final(out)@ == old(out)@ + escaped(chars@.subrange(from as int, to as int)),
{
    let mut i: usize = from;
    let ghost start = out@;
    proof {
        assert(chars@.subrange(from as int, from as int) =~= Seq::<char>::empty());
        assert(start + Seq::<char>::empty() =~= start);
    }
    while i < to
        invariant
            from <= i <= to <= chars@.len(),
            out@ == start + escaped(chars@.subrange(from as int, i as int)),
        decreases to - i,
    {
        proof {
            let next = chars@.subrange(from as int, i + 1);
            assert(next.drop_last() =~= chars@.subrange(from as int, i as int));
            assert(start + escaped(next.drop_last()) + escaped_char(next.last()) =~= start
                + escaped(next));
        }
        push_escaped_char(out, chars[i]);
        i = i + 1;
    }
}

/// The text with `&`, `<`, `>`, `"` and `'` written as character references.
pub fn escape_html(s: &str) -> (r: String)
    ensures
        r@ == escaped(s@),
{
    let chars = to_chars(s);
    let mut out = String::new();
    push_escaped(&mut out, chars.as_slice(), 0, chars.len());
    assert(s@.subrange(0, s@.len() as int) =~= s@);
    assert(Seq::<char>::empty() + escaped(s@) =~= escaped(s@));
    out
}

/// Escaping works piece by piece.
pub proof fn law_escape_concat(a: Seq<char>, b: Seq<char>)
    ensures
        escaped(a + b) == escaped(a) + escaped(b),
    decreases b.len(),
{
    if b.len() == 0 {
        assert(a + b =~= a);
        assert(escaped(a) + escaped(b) =~= escaped(a));
    } else {
        law_escape_concat(a, b.drop_last());
        assert((a + b).drop_last() =~= a + b.drop_last());
        assert(escaped(a) + escaped(b.drop_last()) + escaped_char(b.last()) =~= escaped(a)
            + escaped(b));
    }
}

/// No escaped text holds a character that HTML reads as markup or as a quote.
pub proof fn law_escaped_is_inert(s: Seq<char>)
    ensures
        forall|i: int|
            0 <= i < escaped(s).len() ==> {
                let c = #[trigger] escaped(s)[i];
                c != '<' && c != '>' && c != '"' && c != '\''
            },
    decreases s.len(),
{
    if s.len() > 0 {
        law_escaped_is_inert(s.drop_last());
        reveal_strlit("&amp;");
        reveal_strlit("&lt;");
        reveal_strlit("&gt;");
        reveal_strlit("&quot;");
        reveal_strlit("&#39;");
        let head = escaped(s.drop_last());
        let tail = escaped_char(s.last());
        assert forall|i: int| 0 <= i < escaped(s).len() implies {
            let c = #[trigger] escaped(s)[i];
            c != '<' && c != '>' && c != '"' && c != '\''
        } by {
            if i < head.len() {
                assert(escaped(s)[i] == head[i]);
            } else {
                assert(escaped(s)[i] == tail[i - head.len()]);
            }
        }
    }
}

// ---- tokens ----

/// The kinds of inline markup.
#[derive(Debug, Clone, Copy, PartialEq, Eq, Structural)]
pub enum InlineKind {
    Plain,
    Code,
    Strong,
    Em,
}

/// Number of marker characters on each side of a token.
pub open spec fn marker_len(kind: InlineKind) -> int {
    match kind {
        InlineKind::Plain => 0,
        InlineKind::Code => 1,
        InlineKind::Strong => 2,
        InlineKind::Em => 1,
    }
}

/// A stretch of a text with one kind of markup, markers included.
pub struct InlineToken {
    pub kind: InlineKind,
    pub raw: Seq<char>,
}

/// What a token holds between its markers.
pub open spec fn token_content(t: InlineToken) -> Seq<char> {
    t.raw.subrange(marker_len(t.kind), t.raw.len() - marker_len(t.kind))
}

/// The token that a marker opens at `i`: up to the next such marker, unless there is
/// none or nothing stands between the two. Then the marker is plain text.
pub open spec fn marked_token(s: Seq<char>, i: int, marker: Seq<char>, kind: InlineKind) -> InlineToken {
    match first_occurrence(s, marker, i + marker.len()) {
        Some(e) => if e > i + marker.len() {
            InlineToken { kind, raw: s.subrange(i, e + marker.len()) }
        } else {
            InlineToken { kind: InlineKind::Plain, raw: marker }
        },
        None => InlineToken { kind: InlineKind::Plain, raw: marker },
    }
}

/// The token that starts at `i`.
pub open spec fn token_at(s: Seq<char>, i: int) -> InlineToken {
    if s[i] == '`' {
        marked_token(s, i, seq!['`'], InlineKind::Code)
    } else if occurs_at(s, seq!['*', '*'], i) {
        marked_token(s, i, seq!['*', '*'], InlineKind::Strong)
    } else if s[i] == '*' {
        marked_token(s, i, seq!['*'], InlineKind::Em)
    } else {
        InlineToken { kind: InlineKind::Plain, raw: seq![s[i]] }
    }
}

pub proof fn lemma_token_at(s: Seq<char>, i: int)
    requires
        0 <= i < s.len(),
    ensures
        ({
            let t = token_at(s, i);
            &&& t.raw.len() >= 1
            &&& i + t.raw.len() <= s.len()
            &&& t.raw == s.subrange(i, i + t.raw.len())
            &&& t.raw.len() >= 2 * marker_len(t.kind)
            &&& t.kind != InlineKind::Plain ==> t.raw.len() > 2 * marker_len(t.kind)
        }),
{
    lemma_first_occurrence(s, seq!['`'], i + 1);
    lemma_first_occurrence(s, seq!['*', '*'], i + 2);
    lemma_first_occurrence(s, seq!['*'], i + 1);
    assert(s.subrange(i, i + 1) =~= seq![s[i]]);
}

/// The tokens of a text from character `i` on.
pub open spec fn tokens_from(s: Seq<char>, i: int) -> Seq<InlineToken>
    decreases s.len() - i,
{
    if 0 <= i < s.len() {
        proof {
            lemma_token_at(s, i);
        }
        seq![token_at(s, i)] + tokens_from(s, i + token_at(s, i).raw.len())
    } else {
        Seq::empty()
    }
}

/// The tokens of a text.
pub open spec fn inline_tokens(s: Seq<char>) -> Seq<InlineToken> {
    tokens_from(s, 0)
}

/// The text that tokens were cut from.
pub open spec fn raw_text(ts: Seq<InlineToken>) -> Seq<char>
    decreases ts.len(),
{
    if ts.len() == 0 {
        Seq::empty()
    } else {
        raw_text(ts.drop_last()) + ts.last().raw
    }
}

pub proof fn lemma_raw_text_concat(a: Seq<InlineToken>, b: Seq<InlineToken>)
    ensures
        raw_text(a + b) == raw_text(a) + raw_text(b),
    decreases b.len(),
{
    if b.len() == 0 {
        assert(a + b =~= a);
        assert(raw_text(a) + raw_text(b) =~= raw_text(a));
    } else {
        lemma_raw_text_concat(a, b.drop_last());
        assert((a + b).drop_last() =~= a + b.drop_last());
        assert(raw_text(a) + raw_text(b.drop_last()) + b.last().raw =~= raw_text(a) + raw_text(b));
    }
}

proof fn lemma_tokens_cover(s: Seq<char>, i: int)
    requires
        0 <= i <= s.len(),
    ensures
        raw_text(tokens_from(s, i)) == s.skip(i),
    decreases s.len() - i,
{
    if i < s.len() {
        lemma_token_at(s, i);
        let t = token_at(s, i);
        let next = i + t.raw.len();
        lemma_tokens_cover(s, next);
        lemma_raw_text_concat(seq![t], tokens_from(s, next));
        assert(raw_text(seq![t]) =~= t.raw) by {
            assert(seq![t].drop_last() =~= Seq::<InlineToken>::empty());
            assert(raw_text(seq![t]) == raw_text(seq![t].drop_last()) + t.raw);
            assert(raw_text(Seq::<InlineToken>::empty()) =~= Seq::<char>::empty());
        }
        assert(s.skip(i) =~= t.raw + s.skip(next));
    } else {
        assert(s.skip(i) =~= Seq::<char>::empty());
    }
}

/// The tokens of a text make up the text.
pub proof fn law_tokens_make_up_text(s: Seq<char>)
    ensures
        raw_text(inline_tokens(s)) == s,
{
    lemma_tokens_cover(s, 0);
    assert(s.skip(0) =~= s);
}

/// The end of the token that starts at `i`, and its kind.
fn scan_token(chars: &[char], i: usize) -> (r: (InlineKind, usize))
    requires
        i < chars@.len(),
    ensures
        r.0 == token_at(chars@, i as int).kind,
        r.1 == i + token_at(chars@, i as int).raw.len(),
        i < r.1 <= chars@.len(),
{
    proof {
        lemma_token_at(chars@, i as int);
    }
    let n: usize = chars.len();
    if chars[i] == '`' {
        let marker: [char; 1] = ['`'];
        proof {
            assert(marker@ =~= seq!['`']);
        }
        match first_occurrence_of(chars, &marker, i + 1) {
            Some(e) => {
                if e > i + 1 {
                    return (InlineKind::Code, e + 1);
                }
            },
            None => {},
        }
        return (InlineKind::Plain, i + 1);
    }
    if chars[i] == '*' && i + 1 < n && chars[i + 1] == '*' {
        let marker: [char; 2] = ['*', '*'];
        proof {
            assert(marker@ =~= seq!['*', '*']);
            assert(chars@.subrange(i as int, i + 2) =~= seq!['*', '*']);
        }
        match first_occurrence_of(chars, &marker, i + 2) {
            Some(e) => {
                if e > i + 2 {
                    return (InlineKind::Strong, e + 2);
                }
            },
            None => {},
        }
        return (InlineKind::Plain, i + 2);
    }
    proof {
        if occurs_at(chars@, seq!['*', '*'], i as int) {
            assert(chars@.subrange(i as int, i + 2)[0] == '*');
            assert(chars@.subrange(i as int, i + 2)[1] == '*');
        }
    }
    if chars[i] == '*' {
        let marker: [char; 1] = ['*'];
        proof {
            assert(marker@ =~= seq!['*']);
        }
        match first_occurrence_of(chars, &marker, i + 1) {
            Some(e) => {
                if e > i + 1 {
                    return (InlineKind::Em, e + 1);
                }
            },
            None => {},
        }
        return (InlineKind::Plain, i + 1);
    }
    (InlineKind::Plain, i + 1)
}

// ---- what is read ----

/// The tag that opens a kind of markup.
pub open spec fn open_tag(kind: InlineKind) -> Seq<char> {
    match kind {
        InlineKind::Plain => Seq::empty(),
        InlineKind::Code => "<code class=\"rounded bg-muted px-1 py-0.5 font-mono text-[0.9em]\">"@,
        InlineKind::Strong => "<strong>"@,
        InlineKind::Em => "<em>"@,
    }
}

/// The tag that closes a kind of markup.
pub open spec fn close_tag(kind: InlineKind) -> Seq<char> {
    match kind {
        InlineKind::Plain => Seq::empty(),
        InlineKind::Code => "</code>"@,
        InlineKind::Strong => "</strong>"@,
        InlineKind::Em => "</em>"@,
    }
}

/// The content of a token between its tags, without the markers.
pub open spec fn tagged(t: InlineToken) -> Seq<char> {
    open_tag(t.kind) + escaped(token_content(t)) + close_tag(t.kind)
}

/// What a token is shown as where it is only read.
pub open spec fn token_read_html(t: InlineToken) -> Seq<char> {
    if t.raw == seq!['\n'] {
        "<br>"@
    } else {
        tagged(t)
    }
}

/// What tokens are shown as where they are only read.
pub open spec fn tokens_read_html(ts: Seq<InlineToken>) -> Seq<char>
    decreases ts.len(),
{
    if ts.len() == 0 {
        Seq::empty()
    } else {
        tokens_read_html(ts.drop_last()) + token_read_html(ts.last())
    }
}

/// What a text is shown as where it is only read. An empty last line gets a space
/// of its own.
pub open spec fn read_html(s: Seq<char>) -> Seq<char> {
    tokens_read_html(inline_tokens(s)) + (if s.len() > 0 && s.last() == '\n' {
        "&nbsp;"@
    } else {
        Seq::empty()
    })
}

fn push_open_tag(out: &mut String, kind: InlineKind)
    ensures
        final(out)@ == old(out)@ + open_tag(kind),
{
    match kind {
        InlineKind::Plain => {
            assert(out@ + Seq::<char>::empty() =~= out@);
        },
        InlineKind::Code => out.append(
            "<code class=\"rounded bg-muted px-1 py-0.5 font-mono text-[0.9em]\">",
        ),
        InlineKind::Strong => out.append("<strong>"),
        InlineKind::Em => out.append("<em>"),
    }
}

fn push_close_tag(out: &mut String, kind: InlineKind)
    ensures
        final(out)@ == old(out)@ + close_tag(kind),
{
    match kind {
        InlineKind::Plain => {
            assert(out@ + Seq::<char>::empty() =~= out@);
        },
        InlineKind::Code => out.append("</code>"),
        InlineKind::Strong => out.append("</strong>"),
        InlineKind::Em => out.append("</em>"),
    }
}

/// Number of marker characters on each side of a token.
fn marker_width(kind: InlineKind) -> (r: usize)
    ensures
        r == marker_len(kind),
{
    match kind {
        InlineKind::Plain => 0,
        InlineKind::Code => 1,
        InlineKind::Strong => 2,
        InlineKind::Em => 1,
    }
}

/// Appends the token from `from` up to `to` between its tags, without the markers.
fn push_tagged(out: &mut String, chars: &[char], from: usize, to: usize, kind: InlineKind)
    requires
        from + 2 * marker_len(kind) <= to <= chars@.len(),
    ensures
        final(out)@ == old(out)@ + tagged(
            InlineToken { kind, raw: chars@.subrange(from as int, to as int) },
        ),
{
    let m: usize = marker_width(kind);
    let ghost start = out@;
    push_open_tag(out, kind);
    push_escaped(out, chars, from + m, to - m);
    push_close_tag(out, kind);
    proof {
        let t = InlineToken { kind, raw: chars@.subrange(from as int, to as int) };
        assert(token_content(t) =~= chars@.subrange(from + m, to - m));
        assert(out@ =~= start + tagged(t));
    }
}

/// The HTML of a text where it is only read.
pub fn render_basic_markdown_inline_html(s: &str) -> (r: String)
    ensures
        r@ == read_html(s@),
{
    let chars = to_chars(s);
    let mut out = String::new();
    let mut i: usize = 0;
    let ghost mut done: Seq<InlineToken> = Seq::empty();
    proof {
        assert(Seq::<InlineToken>::empty() + inline_tokens(s@) =~= inline_tokens(s@));
    }
    while i < chars.len()
        invariant
            chars@ == s@,
            i <= s@.len(),
            done + tokens_from(s@, i as int) == inline_tokens(s@),
            out@ == tokens_read_html(done),
        decreases s@.len() - i,
    {
        let (kind, end) = scan_token(chars.as_slice(), i);
        let ghost t = token_at(s@, i as int);
        proof {
            lemma_token_at(s@, i as int);
            assert(done.push(t) + tokens_from(s@, end as int) =~= done + tokens_from(
                s@,
                i as int,
            ));
            assert(done.push(t).drop_last() =~= done);
            assert(done.push(t).last() == t);
            assert(t.raw == seq!['\n'] <==> s@[i as int] == '\n') by {
                assert(t.raw[0] == s@[i as int]);
                if s@[i as int] == '\n' {
                    assert(!occurs_at(s@, seq!['*', '*'], i as int)) by {
                        if occurs_at(s@, seq!['*', '*'], i as int) {
                            assert(s@.subrange(i as int, i + 2)[0] == '*');
                        }
                    }
                }
            }
        }
        if chars[i] == '\n' {
            out.append("<br>");
        } else {
            push_tagged(&mut out, chars.as_slice(), i, end, kind);
        }
        proof {
            done = done.push(t);
        }
        i = end;
    }
    proof {
        assert(done + tokens_from(s@, i as int) =~= done);
    }
    if chars.len() > 0 && chars[chars.len() - 1] == '\n' {
        out.append("&nbsp;");
    } else {
        assert(out@ + Seq::<char>::empty() =~= out@);
    }
    out
}

// ---- what is edited ----

/// A text as it is shown while it is edited.
#[derive(Debug, PartialEq, Eq)]
pub struct InlineRenderResult {
    pub html: String,
    pub visible_utf16_len: u32,
    pub map: Vec<OffsetMapSeg>,
}

/// Number of marker characters hidden on each side of a token that starts at byte
/// `at`: all of them, unless the caret touches the token.
pub open spec fn hidden_len(t: InlineToken, at: int, caret: Option<usize>) -> int {
    match caret {
        Some(p) => if at <= p <= at + utf8_len(t.raw) {
            0
        } else {
            marker_len(t.kind)
        },
        None => marker_len(t.kind),
    }
}

/// The part of a token that is shown.
pub open spec fn shown_part(t: InlineToken, at: int, caret: Option<usize>) -> Seq<char> {
    let h = hidden_len(t, at, caret);
    t.raw.subrange(h, t.raw.len() - h)
}

/// The HTML of a token while its text is edited.
pub open spec fn token_edit_html(t: InlineToken, at: int, caret: Option<usize>) -> Seq<char> {
    if hidden_len(t, at, caret) == 0 {
        escaped(t.raw)
    } else {
        tagged(t)
    }
}

/// The HTML of a text while it is edited with the caret at byte `caret`.
pub open spec fn edit_html(ts: Seq<InlineToken>, caret: Option<usize>) -> Seq<char>
    decreases ts.len(),
{
    if ts.len() == 0 {
        Seq::empty()
    } else {
        let at = utf8_len(raw_text(ts.drop_last())) as int;
        edit_html(ts.drop_last(), caret) + token_edit_html(ts.last(), at, caret)
    }
}

/// The text that is shown while a text is edited with the caret at byte `caret`.
pub open spec fn edit_visible(ts: Seq<InlineToken>, caret: Option<usize>) -> Seq<char>
    decreases ts.len(),
{
    if ts.len() == 0 {
        Seq::empty()
    } else {
        let at = utf8_len(raw_text(ts.drop_last())) as int;
        edit_visible(ts.drop_last(), caret) + shown_part(ts.last(), at, caret)
    }
}

/// The stretches of the shown text that stand in the stored text as they are.
pub open spec fn edit_map(ts: Seq<InlineToken>, caret: Option<usize>) -> Seq<SegView>
    decreases ts.len(),
{
    if ts.len() == 0 {
        Seq::empty()
    } else {
        let before = ts.drop_last();
        let at = utf8_len(raw_text(before)) as int;
        with_segment(
            edit_map(before, caret),
            SegView {
                vis_start: utf16_len(edit_visible(before, caret)) as int,
                raw_start: utf16_len(raw_text(before)) + hidden_len(ts.last(), at, caret),
                len: utf16_len(shown_part(ts.last(), at, caret)) as int,
            },
        )
    }
}

/// Whether tokens are long enough for their markers, as those of a text are.
pub open spec fn tokens_wf(ts: Seq<InlineToken>) -> bool {
    forall|k: int|
        0 <= k < ts.len() ==> 2 * marker_len((#[trigger] ts[k]).kind) <= ts[k].raw.len()
            && (marker_len(ts[k].kind) > 0 ==> ts[k].raw.len() > 2 * marker_len(ts[k].kind))
            && ts[k].raw.len() > 0 && markers_are_narrow(ts[k])
}

/// Whether the markers of a token take one UTF-16 unit per character.
pub open spec fn markers_are_narrow(t: InlineToken) -> bool {
    let m = marker_len(t.kind);
    &&& utf16_len(t.raw.take(m)) == m
    &&& utf16_len(t.raw.skip(t.raw.len() - m)) == m
}

proof fn lemma_token_at_wf(s: Seq<char>, i: int)
    requires
        0 <= i < s.len(),
    ensures
        tokens_wf(seq![token_at(s, i)]),
{
    lemma_token_at(s, i);
    let t = token_at(s, i);
    let m = marker_len(t.kind);
    reveal_with_fuel(utf16_len, 3);
    lemma_first_occurrence(s, seq!['`'], i + 1);
    lemma_first_occurrence(s, seq!['*', '*'], i + 2);
    lemma_first_occurrence(s, seq!['*'], i + 1);
    match t.kind {
        InlineKind::Plain => {
            assert(t.raw.take(0) =~= Seq::<char>::empty());
            assert(t.raw.skip(t.raw.len() as int) =~= Seq::<char>::empty());
        },
        InlineKind::Code => {
            assert(t.raw.take(1) =~= seq!['`']);
            assert(t.raw.skip(t.raw.len() - 1) =~= seq!['`']) by {
                let e = first_occurrence(s, seq!['`'], i + 1).unwrap();
                assert(s.subrange(e, e + 1)[0] == '`');
            }
            assert(seq!['`'].drop_last() =~= Seq::<char>::empty());
        },
        InlineKind::Strong => {
            assert(t.raw.take(2) =~= seq!['*', '*']) by {
                assert(s.subrange(i, i + 2)[0] == '*');
                assert(s.subrange(i, i + 2)[1] == '*');
            }
            assert(t.raw.skip(t.raw.len() - 2) =~= seq!['*', '*']) by {
                let e = first_occurrence(s, seq!['*', '*'], i + 2).unwrap();
                assert(s.subrange(e, e + 2)[0] == '*');
                assert(s.subrange(e, e + 2)[1] == '*');
            }
            assert(seq!['*', '*'].drop_last() =~= seq!['*']);
            assert(seq!['*'].drop_last() =~= Seq::<char>::empty());
        },
        InlineKind::Em => {
            assert(t.raw.take(1) =~= seq!['*']);
            assert(t.raw.skip(t.raw.len() - 1) =~= seq!['*']) by {
                let e = first_occurrence(s, seq!['*'], i + 1).unwrap();
                assert(s.subrange(e, e + 1)[0] == '*');
            }
            assert(seq!['*'].drop_last() =~= Seq::<char>::empty());
        },
    }
}

/// The map of a rendering describes its shown text, which is no longer than the
/// stored one.
proof fn lemma_edit_map_wf(ts: Seq<InlineToken>, caret: Option<usize>)
    requires
        tokens_wf(ts),
    ensures
        map_wf(
            edit_map(ts, caret),
            utf16_len(edit_visible(ts, caret)) as int,
            utf16_len(raw_text(ts)) as int,
        ),
        utf16_len(edit_visible(ts, caret)) <= utf16_len(raw_text(ts)),
    decreases ts.len(),
{
    if ts.len() > 0 {
        let before = ts.drop_last();
        let t = ts.last();
        assert(tokens_wf(before)) by {
            assert forall|k: int| 0 <= k < before.len() implies before[k] == ts[k] by {}
        }
        lemma_edit_map_wf(before, caret);
        let at = utf8_len(raw_text(before)) as int;
        let h = hidden_len(t, at, caret);
        let part = shown_part(t, at, caret);
        assert(ts[ts.len() - 1] == t);
        lemma_shown_part_len(t, at, caret);
        lemma_utf16_concat(raw_text(before), t.raw);
        lemma_utf16_concat(edit_visible(before, caret), part);
        lemma_with_segment_wf(
            edit_map(before, caret),
            utf16_len(edit_visible(before, caret)) as int,
            utf16_len(raw_text(before)) as int,
            h,
            utf16_len(part) as int,
            utf16_len(raw_text(ts)) as int,
        );
    }
}

proof fn lemma_shown_part_len(t: InlineToken, at: int, caret: Option<usize>)
    requires
        tokens_wf(seq![t]),
    ensures
        ({
            let h = hidden_len(t, at, caret);
            let part = shown_part(t, at, caret);
            &&& 0 <= h
            &&& 2 * h < t.raw.len()
            &&& part.len() > 0
            &&& utf16_len(part) > 0
            &&& utf16_len(t.raw) == utf16_len(part) + 2 * h
            &&& t.raw == t.raw.take(h) + part + t.raw.skip(t.raw.len() - h)
            &&& utf16_len(t.raw.take(h)) == h
        }),
{
    assert(seq![t][0] == t);
    let h = hidden_len(t, at, caret);
    let part = shown_part(t, at, caret);
    let tail = t.raw.skip(t.raw.len() - h);
    assert(t.raw =~= t.raw.take(h) + part + tail);
    lemma_utf16_concat(t.raw.take(h) + part, tail);
    lemma_utf16_concat(t.raw.take(h), part);
    lemma_len_bounds(part);
    if h == 0 {
        assert(t.raw.take(0) =~= Seq::<char>::empty());
        assert(tail =~= Seq::<char>::empty());
    }
}

proof fn lemma_tokens_wf(s: Seq<char>, i: int)
    requires
        0 <= i <= s.len(),
    ensures
        tokens_wf(tokens_from(s, i)),
    decreases s.len() - i,
{
    if i < s.len() {
        lemma_token_at(s, i);
        lemma_token_at_wf(s, i);
        let t = token_at(s, i);
        let rest = tokens_from(s, i + t.raw.len());
        lemma_tokens_wf(s, i + t.raw.len());
        let ts = tokens_from(s, i);
        assert forall|k: int| 0 <= k < ts.len() implies ts[k] == (if k == 0 {
            seq![t][0]
        } else {
            rest[k - 1]
        }) by {}
    }
}

/// The map that comes with the rendering of a text covers what is shown without
/// gaps and runs forward in the text, whatever the caret.
pub proof fn law_edit_map_is_well_formed(s: Seq<char>, caret: Option<usize>)
    ensures
        map_wf(
            edit_map(inline_tokens(s), caret),
            utf16_len(edit_visible(inline_tokens(s), caret)) as int,
            utf16_len(s) as int,
        ),
        utf16_len(edit_visible(inline_tokens(s), caret)) <= utf16_len(s),
{
    lemma_tokens_wf(s, 0);
    law_tokens_make_up_text(s);
    lemma_edit_map_wf(inline_tokens(s), caret);
}

/// Appends a token to a rendering whose shown text is `vis` and whose stored text is
/// `raw` units long so far. Gives the token's length in both texts and in bytes.
fn push_edit_token(
    out: &mut String,
    map: &mut Vec<OffsetMapSeg>,
    chars: &[char],
    range: (usize, usize),
    kind: InlineKind,
    at: usize,
    caret_byte: Option<usize>,
    vis: u32,
    raw: u32,
) -> (r: (u32, u32, usize))
    requires
        range.0 <= range.1 <= chars@.len(),
        utf8_len(chars@) <= usize::MAX,
        tokens_wf(
            seq![(InlineToken { kind, raw: chars@.subrange(range.0 as int, range.1 as int) })],
        ),
        at + utf8_len(chars@.subrange(range.0 as int, range.1 as int)) <= usize::MAX,
        vis <= raw,
        utf16_len(chars@) <= u32::MAX,
        raw + utf16_len(chars@.subrange(range.0 as int, range.1 as int)) <= u32::MAX,
        forall|k: int|
            0 <= k < old(map)@.len() ==> (#[trigger] old(map)@[k])@.vis_end() <= vis
                && old(map)@[k]@.raw_end() <= raw,
    ensures
        ({
            let t = InlineToken { kind, raw: chars@.subrange(range.0 as int, range.1 as int) };
            let h = hidden_len(t, at as int, caret_byte);
            let part = shown_part(t, at as int, caret_byte);
            &&& final(out)@ == old(out)@ + token_edit_html(t, at as int, caret_byte)
            &&& seg_views(final(map)@) == with_segment(
                seg_views(old(map)@),
                (SegView { vis_start: vis as int, raw_start: raw + h, len: utf16_len(part) as int }),
            )
            &&& r.0 == utf16_len(part)
            &&& r.1 == utf16_len(t.raw)
            &&& r.2 == utf8_len(t.raw)
        }),
{
    let (i, end) = range;
    let token_utf16: u32 = utf16_len_range(chars, i, end);
    let token_bytes: usize = utf8_len_range(chars, i, end);
    let ghost t = InlineToken { kind, raw: chars@.subrange(i as int, end as int) };
    proof {
        lemma_shown_part_len(t, at as int, caret_byte);
        assert(seq![t][0] == t);
        assert(t.raw.subrange(0, t.raw.len() as int) =~= t.raw);
    }
    let active: bool = match caret_byte {
        Some(p) => p >= at && p <= at + token_bytes,
        None => false,
    };
    let m: usize = marker_width(kind);
    if active || m == 0 {
        push_escaped(out, chars, i, end);
        push_map_segment(map, vis, raw, token_utf16);
        (token_utf16, token_utf16, token_bytes)
    } else {
        push_tagged(out, chars, i, end, kind);
        let open_utf16: u32 = m as u32;
        let content_utf16: u32 = token_utf16 - 2 * open_utf16;
        push_map_segment(map, vis, raw + open_utf16, content_utf16);
        (content_utf16, token_utf16, token_bytes)
    }
}

/// The HTML of a text while it is edited, with the markers hidden of every token
/// that the caret does not touch, and the map from what is shown to the text.
pub fn render_basic_markdown_inline_for_editing_mapped(
    s: &str,
    caret_byte: Option<usize>,
) -> (r: InlineRenderResult)
    requires
        utf16_len(s@) <= u32::MAX,
    ensures
        r.html@ == edit_html(inline_tokens(s@), caret_byte),
        r.visible_utf16_len == utf16_len(edit_visible(inline_tokens(s@), caret_byte)),
        seg_views(r.map@) == edit_map(inline_tokens(s@), caret_byte),
{
    let chars = to_chars(s);
    let mut out = String::new();
    let mut i: usize = 0;
    let mut at: usize = 0;
    let mut raw_utf16: u32 = 0;
    let mut vis_utf16: u32 = 0;
    let mut map: Vec<OffsetMapSeg> = Vec::new();
    let ghost mut done: Seq<InlineToken> = Seq::empty();
    proof {
        assert(Seq::<InlineToken>::empty() + inline_tokens(s@) =~= inline_tokens(s@));
        assert(s@.take(0) =~= Seq::<char>::empty());
        assert(seg_views(map@) =~= Seq::<SegView>::empty());
    }
    while i < chars.len()
        invariant
            chars@ == s@,
            i <= s@.len(),
            utf16_len(s@) <= u32::MAX,
            utf8_len(s@) <= usize::MAX,
            done + tokens_from(s@, i as int) == inline_tokens(s@),
            raw_text(done) == s@.take(i as int),
            tokens_wf(done),
            at == utf8_len(raw_text(done)),
            raw_utf16 == utf16_len(raw_text(done)),
            vis_utf16 == utf16_len(edit_visible(done, caret_byte)),
            out@ == edit_html(done, caret_byte),
            seg_views(map@) == edit_map(done, caret_byte),
        decreases s@.len() - i,
    {
        let (kind, end) = scan_token(chars.as_slice(), i);
        let ghost t = token_at(s@, i as int);
        let ghost next = done.push(t);
        proof {
            lemma_next_token(s@, i as int, done);
            lemma_edit_map_wf(done, caret_byte);
            lemma_utf16_concat(raw_text(done), t.raw);
            lemma_utf8_concat(raw_text(done), t.raw);
            lemma_utf16_split(s@, end as int);
            lemma_utf8_split(s@, end as int);
            lemma_shown_part_len(t, at as int, caret_byte);
            lemma_utf16_concat(
                edit_visible(done, caret_byte),
                shown_part(t, at as int, caret_byte),
            );
            assert forall|k: int| 0 <= k < map@.len() implies (#[trigger] map@[k])@.vis_end()
                <= vis_utf16 && map@[k]@.raw_end() <= raw_utf16 by {
                assert(seg_views(map@)[k] == map@[k]@);
            }
        }
        let (shown, token_utf16, token_bytes) = push_edit_token(
            &mut out,
            &mut map,
            chars.as_slice(),
            (i, end),
            kind,
            at,
            caret_byte,
            vis_utf16,
            raw_utf16,
        );
        vis_utf16 = vis_utf16 + shown;
        raw_utf16 = raw_utf16 + token_utf16;
        at = at + token_bytes;
        proof {
            done = next;
        }
        i = end;
    }
    proof {
        assert(done + tokens_from(s@, i as int) =~= done);
    }
    InlineRenderResult { html: out, visible_utf16_len: vis_utf16, map }
}

proof fn lemma_next_token(s: Seq<char>, i: int, done: Seq<InlineToken>)
    requires
        0 <= i < s.len(),
        tokens_wf(done),
        raw_text(done) == s.take(i),
    ensures
        ({
            let t = token_at(s, i);
            let end = i + t.raw.len();
            let next = done.push(t);
            &&& i < end <= s.len()
            &&& t.raw == s.subrange(i, end)
            &&& next + tokens_from(s, end) == done + tokens_from(s, i)
            &&& next.drop_last() == done
            &&& next.last() == t
            &&& tokens_wf(next)
            &&& tokens_wf(seq![t])
            &&& raw_text(next) == s.take(end)
        }),
{
    let t = token_at(s, i);
    let end = i + t.raw.len();
    let next = done.push(t);
    lemma_token_at(s, i);
    lemma_token_at_wf(s, i);
    assert(next + tokens_from(s, end) =~= done + tokens_from(s, i));
    assert(next.drop_last() =~= done);
    assert forall|k: int| 0 <= k < next.len() implies next[k] == (if k < done.len() {
        done[k]
    } else {
        seq![t][0]
    }) by {}
    assert(raw_text(next) =~= s.take(end));
}

proof fn lemma_edit_map_matches(ts: Seq<InlineToken>, caret: Option<usize>)
    requires
        tokens_wf(ts),
    ensures
        map_matches(edit_visible(ts, caret), raw_text(ts), edit_map(ts, caret)),
    decreases ts.len(),
{
    if ts.len() > 0 {
        let before = ts.drop_last();
        let t = ts.last();
        assert(tokens_wf(before)) by {
            assert forall|k: int| 0 <= k < before.len() implies before[k] == ts[k] by {}
        }
        assert(ts[ts.len() - 1] == t);
        lemma_edit_map_matches(before, caret);
        lemma_edit_map_wf(before, caret);
        let at = utf8_len(raw_text(before)) as int;
        let h = hidden_len(t, at, caret);
        lemma_shown_part_len(t, at, caret);
        lemma_with_segment_matches(
            edit_visible(before, caret),
            raw_text(before),
            edit_map(before, caret),
            t.raw.take(h),
            shown_part(t, at, caret),
            t.raw.skip(t.raw.len() - h),
        );
    }
}

/// Each stretch of a rendering's map reads the same in what is shown and in the text.
pub proof fn law_edit_map_shows_the_text(s: Seq<char>, caret: Option<usize>)
    ensures
        map_matches(
            edit_visible(inline_tokens(s), caret),
            s,
            edit_map(inline_tokens(s), caret),
        ),
{
    lemma_tokens_wf(s, 0);
    law_tokens_make_up_text(s);
    lemma_edit_map_matches(inline_tokens(s), caret);
}

proof fn lemma_plain_tokens(s: Seq<char>, i: int)
    requires
        0 <= i <= s.len(),
        forall|k: int| 0 <= k < s.len() ==> s[k] != '`' && s[k] != '*',
    ensures
        forall|k: int|
            0 <= k < tokens_from(s, i).len() ==> (#[trigger] tokens_from(s, i)[k]).kind
                == InlineKind::Plain,
    decreases s.len() - i,
{
    if i < s.len() {
        let t = token_at(s, i);
        assert(!occurs_at(s, seq!['*', '*'], i)) by {
            if occurs_at(s, seq!['*', '*'], i) {
                assert(s.subrange(i, i + 2)[0] == '*');
            }
        }
        lemma_plain_tokens(s, i + 1);
        let ts = tokens_from(s, i);
        let rest = tokens_from(s, i + 1);
        assert forall|k: int| 0 <= k < ts.len() implies (#[trigger] ts[k]).kind
            == InlineKind::Plain by {
            if k > 0 {
                assert(ts[k] == rest[k - 1]);
            }
        }
    }
}

proof fn lemma_plain_rendering(ts: Seq<InlineToken>, caret: Option<usize>)
    requires
        forall|k: int| 0 <= k < ts.len() ==> (#[trigger] ts[k]).kind == InlineKind::Plain,
    ensures
        edit_visible(ts, caret) == raw_text(ts),
        edit_html(ts, caret) == escaped(raw_text(ts)),
    decreases ts.len(),
{
    if ts.len() > 0 {
        let before = ts.drop_last();
        assert forall|k: int| 0 <= k < before.len() implies (#[trigger] before[k]).kind
            == InlineKind::Plain by {
            assert(before[k] == ts[k]);
        }
        lemma_plain_rendering(before, caret);
        let t = ts.last();
        assert(t == ts[ts.len() - 1]);
        assert(t.raw.subrange(0, t.raw.len() as int) =~= t.raw);
        law_escape_concat(raw_text(before), t.raw);
    }
}

/// A text without markup is shown as it is while it is edited.
pub proof fn law_text_without_markup_is_shown_as_is(s: Seq<char>, caret: Option<usize>)
    requires
        forall|k: int| 0 <= k < s.len() ==> s[k] != '`' && s[k] != '*',
    ensures
        edit_visible(inline_tokens(s), caret) == s,
        edit_html(inline_tokens(s), caret) == escaped(s),
{
    lemma_plain_tokens(s, 0);
    lemma_plain_rendering(inline_tokens(s), caret);
    law_tokens_make_up_text(s);
}

} // verus!
