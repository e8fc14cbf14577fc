//! Links between notes: how they are shown, where they lead, and the titles offered
//! while one is typed.

use crate::decimal::push_decimal;
use crate::editor::render::{escape_html, render_basic_markdown_inline_for_editing_mapped};
use crate::editor::selection::utf16_to_byte_idx;
use crate::text::{str_eq, utf16_len_of};
use vstd::prelude::*;

verus! {

use crate::decimal::decimal;
use crate::editor::render::{edit_html, escaped, inline_tokens};
use crate::editor::selection::head_at_utf16;
use crate::text::{
    lemma_cut, lemma_utf16_concat, lemma_utf8_concat, lemma_utf8_len_is_encoded_len, utf16_len, utf8_len,
};

// ---- links in a text ----

/// A stretch of a text: plain, or a link with the title that stands in its brackets.
#[derive(Debug, PartialEq, Eq)]
pub enum BidirectionalToken {
    Text(String),
    Link(String),
}

/// The text of a token.
pub open spec fn token_source(t: BidirectionalToken) -> Seq<char> {
    match t {
        BidirectionalToken::Text(s) => s@,
        BidirectionalToken::Link(label) => "[["@ + label@ + "]]"@,
    }
}

/// The text of tokens.
pub open spec fn tokens_source(ts: Seq<BidirectionalToken>) -> Seq<char>
    decreases ts.len(),
{
    if ts.len() == 0 {
        Seq::empty()
    } else {
        tokens_source(ts.drop_last()) + token_source(ts.last())
    }
}

/// Whether a click on a link follows it: not with the caret in the link. Behind the
/// closing brackets the caret is still in the link.
pub open spec fn click_follows(caret_start: int, caret_end: int, start: int, end: int) -> bool {
    caret_start != caret_end || caret_start < start || caret_start > end
}

/// Whether a click on a link follows it.
pub fn should_navigate_wiki_link_click(
    caret_start_utf16: u32,
    caret_end_utf16: u32,
    link_start_utf16: u32,
    link_end_utf16: u32,
) -> (r: bool)
    ensures
        r == click_follows(
            caret_start_utf16 as int,
            caret_end_utf16 as int,
            link_start_utf16 as int,
            link_end_utf16 as int,
        ),
{
    if caret_start_utf16 != caret_end_utf16 {
        return true;
    }
    caret_start_utf16 < link_start_utf16 || caret_start_utf16 > link_end_utf16
}

/// The class of a link's brackets.
pub open spec fn bracket_class(clickable: bool) -> Seq<char> {
    if clickable {
        "text-[0px] leading-none text-transparent select-none"@
    } else {
        "text-muted-foreground"@
    }
}

/// The class of a link's title.
pub open spec fn title_class(valid: bool, clickable: bool) -> Seq<char> {
    let base = if valid {
        "text-primary"@
    } else {
        "text-muted-foreground"@
    };
    if clickable {
        base + " underline underline-offset-2"@
    } else {
        base
    }
}

/// The HTML of a link that stands between two positions.
pub open spec fn link_html(
    label: Seq<char>,
    start: nat,
    end: nat,
    valid: bool,
    clickable: bool,
) -> Seq<char> {
    if label.len() == 0 {
        "[[]]"@
    } else {
        "<span data-wiki-link=\"1\" data-wiki-title=\""@ + escaped(label)
            + "\" data-wiki-start-utf16=\""@ + decimal(start) + "\" data-wiki-end-utf16=\""@
            + decimal(end)
            + "\" class=\"group/wiki-link\"><span data-wiki-bracket=\"1\" class=\""@
            + bracket_class(clickable)
            + "\">[[</span><span data-wiki-link-title=\"1\" class=\""@ + title_class(
            valid,
            clickable,
        ) + " group-hover/wiki-link:opacity-80\">"@ + escaped(label)
            + "</span><span data-wiki-bracket=\"1\" class=\""@ + bracket_class(clickable)
            + "\">]]</span></span>"@
    }
}

/// The caret inside a stretch of bytes, counted from where it begins.
pub open spec fn caret_within(caret: Option<usize>, start: int, len: int) -> Option<usize> {
    match caret {
        Some(p) => if start <= p <= start + len {
            Some((p - start) as usize)
        } else {
            None
        },
        None => None,
    }
}

/// The HTML of a token that begins at UTF-16 position `at16` and byte `at8`.
pub open spec fn wiki_token_html(
    t: BidirectionalToken,
    at16: nat,
    at8: nat,
    caret: Option<u32>,
    caret_byte: Option<usize>,
    valid: bool,
) -> Seq<char> {
    match t {
        BidirectionalToken::Text(s) => edit_html(
            inline_tokens(s@),
            caret_within(caret_byte, at8 as int, utf8_len(s@) as int),
        ),
        BidirectionalToken::Link(label) => {
            let end = at16 + utf16_len(token_source(t));
            let clickable = match caret {
                Some(c) => click_follows(c as int, c as int, at16 as int, end as int),
                None => true,
            };
            link_html(label@, at16, end, valid, clickable)
        },
    }
}

/// The HTML of a text with links, given for each token whether it is a link to a note
/// that exists.
pub open spec fn wiki_html(
    ts: Seq<BidirectionalToken>,
    caret: Option<u32>,
    caret_byte: Option<usize>,
    valid: Seq<bool>,
) -> Seq<char>
    decreases ts.len(),
{
    if ts.len() == 0 {
        Seq::empty()
    } else {
        let before = tokens_source(ts.drop_last());
        wiki_html(ts.drop_last(), caret, caret_byte, valid) + wiki_token_html(
            ts.last(),
            utf16_len(before),
            utf8_len(before),
            caret,
            caret_byte,
            valid[ts.len() - 1],
        )
    }
}

/// The byte offset of an optional caret.
pub open spec fn caret_byte_of(s: Seq<char>, caret: Option<u32>) -> Option<usize> {
    match caret {
        Some(p) => Some(utf8_len(head_at_utf16(s, p as int)) as usize),
        None => None,
    }
}

proof fn lemma_link_lens(label: Seq<char>)
    ensures
        utf16_len("[["@ + label + "]]"@) == utf16_len(label) + 4,
        utf8_len("[["@ + label + "]]"@) == utf8_len(label) + 4,
{
    reveal_strlit("[[");
    reveal_strlit("]]");
    lemma_utf16_concat("[["@ + label, "]]"@);
    lemma_utf16_concat("[["@, label);
    lemma_utf8_concat("[["@ + label, "]]"@);
    lemma_utf8_concat("[["@, label);
    reveal_with_fuel(utf16_len, 3);
    reveal_with_fuel(utf8_len, 3);
    assert("[["@.drop_last().drop_last() =~= Seq::<char>::empty());
    assert("]]"@.drop_last().drop_last() =~= Seq::<char>::empty());
}

proof fn lemma_source_prefix(ts: Seq<BidirectionalToken>, k: int)
    requires
        0 <= k <= ts.len(),
    ensures
        utf16_len(tokens_source(ts.take(k))) <= utf16_len(tokens_source(ts)),
        utf8_len(tokens_source(ts.take(k))) <= utf8_len(tokens_source(ts)),
    decreases ts.len() - k,
{
    if k < ts.len() {
        lemma_source_prefix(ts, k + 1);
        assert(ts.take(k + 1).drop_last() =~= ts.take(k));
        lemma_utf16_concat(tokens_source(ts.take(k)), token_source(ts[k]));
        lemma_utf8_concat(tokens_source(ts.take(k)), token_source(ts[k]));
    } else {
        assert(ts.take(k) =~= ts);
    }
}

fn push_bracket_class(out: &mut String, clickable: bool)
    ensures
        final(out)@ == old(out)@ + bracket_class(clickable),
{
    if clickable {
        out.append("text-[0px] leading-none text-transparent select-none");
    } else {
        out.append("text-muted-foreground");
    }
}

fn push_title_class(out: &mut String, valid: bool, clickable: bool)
    ensures
        final(out)@ == old(out)@ + title_class(valid, clickable),
{
    let ghost start = out@;
    if valid {
        out.append("text-primary");
    } else {
        out.append("text-muted-foreground");
    }
    if clickable {
        out.append(" underline underline-offset-2");
    }
    assert(out@ =~= start + title_class(valid, clickable));
}

fn push_link_html(
    out: &mut String,
    label: &str,
    start: u32,
    end: u32,
    valid: bool,
    clickable: bool,
)
    ensures
        final(out)@ == old(out)@ + link_html(label@, start as nat, end as nat, valid, clickable),
{
    let empty: bool = str_eq(label, "");
    proof {
        reveal_strlit("");
        if label@.len() == 0 {
            assert(label@ =~= ""@);
        }
    }
    if empty {
        out.append("[[]]");
    } else {
        let safe = escape_html(label);
        let mut link = String::new();
        link.append("<span data-wiki-link=\"1\" data-wiki-title=\"");
        assert(link@ =~= "<span data-wiki-link=\"1\" data-wiki-title=\""@);
        link.append(safe.as_str());
        link.append("\" data-wiki-start-utf16=\"");
        push_decimal(&mut link, start);
        link.append("\" data-wiki-end-utf16=\"");
        push_decimal(&mut link, end);
        link.append("\" class=\"group/wiki-link\"><span data-wiki-bracket=\"1\" class=\"");
        push_bracket_class(&mut link, clickable);
        link.append("\">[[</span><span data-wiki-link-title=\"1\" class=\"");
        push_title_class(&mut link, valid, clickable);
        link.append(" group-hover/wiki-link:opacity-80\">");
        link.append(safe.as_str());
        link.append("</span><span data-wiki-bracket=\"1\" class=\"");
        push_bracket_class(&mut link, clickable);
        link.append("\">]]</span></span>");
        out.append(link.as_str());
    }
}

fn byte_len(s: &str) -> (r: usize)
    ensures
        r == utf8_len(s@),
{
    proof {
        lemma_utf8_len_is_encoded_len(s@);
    }
    let bytes = s.as_bytes();
    bytes.len()
}

/// The HTML of a text with links, given for each token whether it is a link to a note
/// that exists.
pub fn wiki_highlight_html_with(
    s: &str,
    tokens: &[BidirectionalToken],
    caret_utf16: Option<u32>,
    valid: &[bool],
) -> (r: String)
    requires
        valid@.len() == tokens@.len(),
        utf16_len(tokens_source(tokens@)) <= u32::MAX,
        utf8_len(tokens_source(tokens@)) <= usize::MAX,
    ensures
        r@ == wiki_html(tokens@, caret_utf16, caret_byte_of(s@, caret_utf16), valid@),
{
    let caret_byte: Option<usize> = match caret_utf16 {
        Some(p) => Some(utf16_to_byte_idx(s, p)),
        None => None,
    };
    let mut out = String::new();
    let mut cursor: usize = 0;
    let mut cursor_utf16: u32 = 0;
    let mut i: usize = 0;
    assert(tokens@.take(0) =~= Seq::<BidirectionalToken>::empty());
    while i < tokens.len()
        invariant
            i <= tokens@.len(),
            valid@.len() == tokens@.len(),
            utf16_len(tokens_source(tokens@)) <= u32::MAX,
            utf8_len(tokens_source(tokens@)) <= usize::MAX,
            caret_byte == caret_byte_of(s@, caret_utf16),
            cursor == utf8_len(tokens_source(tokens@.take(i as int))),
            cursor_utf16 == utf16_len(tokens_source(tokens@.take(i as int))),
            out@ == wiki_html(tokens@.take(i as int), caret_utf16, caret_byte, valid@),
        decreases tokens@.len() - i,
    {
        let ghost before = tokens_source(tokens@.take(i as int));
        proof {
            let next = tokens@.take(i + 1);
            assert(next.drop_last() =~= tokens@.take(i as int));
            assert(next.last() == tokens@[i as int]);
            lemma_utf16_concat(before, token_source(next.last()));
            lemma_utf8_concat(before, token_source(next.last()));
            lemma_source_prefix(tokens@, i + 1);
        }
        match &tokens[i] {
            BidirectionalToken::Text(txt) => {
                let len: usize = byte_len(txt.as_str());
                let end: usize = cursor + len;
                let seg_caret: Option<usize> = match caret_byte {
                    Some(p) => if p >= cursor && p <= end {
                        Some(p - cursor)
                    } else {
                        None
                    },
                    None => None,
                };
                let rendered = render_basic_markdown_inline_for_editing_mapped(
                    txt.as_str(),
                    seg_caret,
                );
                out.append(rendered.html.as_str());
                cursor = end;
                cursor_utf16 = cursor_utf16 + utf16_len_of(txt.as_str());
            },
            BidirectionalToken::Link(label) => {
                proof {
                    lemma_link_lens(label@);
                }
                let len: usize = byte_len(label.as_str());
                let start16: u32 = cursor_utf16;
                let end16: u32 = start16 + 4 + utf16_len_of(label.as_str());
                cursor = cursor + 4 + len;
                cursor_utf16 = end16;
                let clickable: bool = match caret_utf16 {
                    Some(c) => should_navigate_wiki_link_click(c, c, start16, end16),
                    None => true,
                };
                push_link_html(&mut out, label.as_str(), start16, end16, valid[i], clickable);
            },
        }
        i = i + 1;
    }
    assert(tokens@.take(i as int) =~= tokens@);
    out
}

/// Whether a test may say `v` of a title.
pub open spec fn may_say<F: Fn(&str) -> bool>(test: F, title: Seq<char>, v: bool) -> bool {
    exists|t: &str| t@ == title && #[trigger] call_ensures(test, (t,), v)
}

/// Whether `valid` holds, for each link with a title, what a test said of that title.
pub open spec fn says_of_links<F: Fn(&str) -> bool>(
    test: F,
    ts: Seq<BidirectionalToken>,
    valid: Seq<bool>,
) -> bool {
    &&& valid.len() == ts.len()
    &&& forall|i: int|
        #![trigger ts[i]]
        0 <= i < ts.len() ==> (ts[i] matches BidirectionalToken::Link(label) ==> (label@.len() > 0
            ==> may_say(test, label@, valid[i])))
}

/// The HTML of a text with links, where a test tells which titles are those of notes
/// that exist. It is asked once for each link with a title, in order.
pub fn wiki_highlight_html<F: Fn(&str) -> bool>(
    s: &str,
    tokens: &[BidirectionalToken],
    caret_utf16: Option<u32>,
    is_valid_wiki_link: &F,
) -> (r: String)
    requires
        utf16_len(tokens_source(tokens@)) <= u32::MAX,
        utf8_len(tokens_source(tokens@)) <= usize::MAX,
        forall|t: &str| call_requires(*is_valid_wiki_link, (t,)),
    ensures
        exists|valid: Seq<bool>| #[trigger]
            says_of_links(*is_valid_wiki_link, tokens@, valid) && r@ == wiki_html(
                tokens@,
                caret_utf16,
                caret_byte_of(s@, caret_utf16),
                valid,
            ),
{
    let mut valid: Vec<bool> = Vec::new();
    let mut i: usize = 0;
    while i < tokens.len()
        invariant
            i <= tokens@.len(),
            forall|t: &str| call_requires(*is_valid_wiki_link, (t,)),
            valid@.len() == i,
            forall|j: int|
                #![trigger tokens@[j]]
                0 <= j < i ==> (tokens@[j] matches BidirectionalToken::Link(label) ==> (label@.len()
                    > 0 ==> may_say(*is_valid_wiki_link, label@, valid@[j]))),
        decreases tokens@.len() - i,
    {
        let mut known: bool = false;
        let ghost before = valid@;
        match &tokens[i] {
            BidirectionalToken::Text(_) => {},
            BidirectionalToken::Link(label) => {
                let empty: bool = str_eq(label.as_str(), "");
                proof {
                    reveal_strlit("");
                }
                if !empty {
                    let title: &str = label.as_str();
                    known = is_valid_wiki_link(title);
                    assert(call_ensures(*is_valid_wiki_link, (title,), known));
                    assert(may_say(*is_valid_wiki_link, label@, known));
                }
                assert(label@.len() > 0 ==> may_say(*is_valid_wiki_link, label@, known));
            },
        }
        valid.push(known);
        assert forall|j: int|
            #![trigger tokens@[j]]
            0 <= j < i + 1 implies (tokens@[j] matches BidirectionalToken::Link(label) ==> (
        label@.len() > 0 ==> may_say(*is_valid_wiki_link, label@, valid@[j]))) by {
            if j < i {
                assert(valid@[j] == before[j]);
            }
        }
        i = i + 1;
    }
    assert(says_of_links(*is_valid_wiki_link, tokens@, valid@));
    wiki_highlight_html_with(s, tokens, caret_utf16, valid.as_slice())
}

// ---- laws ----

/// A link that the caret touches, at either end or between, shows its brackets and is not
/// to be followed by a click. Any other link hides them, and its title is underlined. A
/// link to no note is muted.
pub proof fn law_link_under_the_caret_shows_its_brackets(
    label: String,
    at16: nat,
    at8: nat,
    caret: Option<u32>,
    caret_byte: Option<usize>,
    valid: bool,
)
    ensures
        ({
            let t = BidirectionalToken::Link(label);
            let end = at16 + utf16_len(label@) + 4;
            let touched = caret matches Some(c) && at16 <= c && c <= end;
            let html = wiki_token_html(t, at16, at8, caret, caret_byte, valid);
            &&& html == link_html(label@, at16, end, valid, !touched)
            &&& bracket_class(false) == "text-muted-foreground"@
            &&& bracket_class(true) == "text-[0px] leading-none text-transparent select-none"@
            &&& title_class(true, false) == "text-primary"@
            &&& title_class(false, false) == "text-muted-foreground"@
            &&& title_class(valid, true) == title_class(valid, false)
                + " underline underline-offset-2"@
        }),
{
    lemma_link_lens(label@);
}

/// The text between links is shown as any text is while it is edited, with the caret
/// where it stands in that text, if it touches it.
pub proof fn law_text_between_links_is_shown_as_text(
    text: String,
    at16: nat,
    at8: nat,
    caret: Option<u32>,
    caret_byte: Option<usize>,
    valid: bool,
)
    ensures
        ({
            let t = BidirectionalToken::Text(text);
            let html = wiki_token_html(t, at16, at8, caret, caret_byte, valid);
            &&& caret_byte is None ==> html == edit_html(inline_tokens(text@), None)
            &&& caret_byte matches Some(p) ==> (p < at8 || p > at8 + utf8_len(text@)) ==> html
                == edit_html(inline_tokens(text@), None)
            &&& caret_byte matches Some(p) ==> at8 <= p <= at8 + utf8_len(text@) ==> html
                == edit_html(inline_tokens(text@), Some((p - at8) as usize))
        }),
{
}

proof fn lemma_wiki_prefix(
    ts: Seq<BidirectionalToken>,
    k: int,
    caret: Option<u32>,
    caret_byte: Option<usize>,
    valid: Seq<bool>,
)
    requires
        0 <= k <= ts.len(),
    ensures
        wiki_html(ts.take(k), caret, caret_byte, valid).is_prefix_of(
            wiki_html(ts, caret, caret_byte, valid),
        ),
    decreases ts.len(),
{
    if k == ts.len() {
        assert(ts.take(k) =~= ts);
    } else {
        let p = ts.drop_last();
        lemma_wiki_prefix(p, k, caret, caret_byte, valid);
        assert(ts.take(k) =~= p.take(k));
    }
}

/// A text with links is shown token by token, each where the text before it ends.
pub proof fn law_links_are_shown_in_their_places(
    ts: Seq<BidirectionalToken>,
    k: int,
    caret: Option<u32>,
    caret_byte: Option<usize>,
    valid: Seq<bool>,
)
    requires
        0 <= k < ts.len(),
    ensures
        ({
            let before = tokens_source(ts.take(k));
            (wiki_html(ts.take(k), caret, caret_byte, valid) + wiki_token_html(
                ts[k],
                utf16_len(before),
                utf8_len(before),
                caret,
                caret_byte,
                valid[k],
            )).is_prefix_of(wiki_html(ts, caret, caret_byte, valid))
        }),
{
    assert(ts.take(k + 1).drop_last() =~= ts.take(k));
    assert(ts.take(k + 1).last() == ts[k]);
    lemma_wiki_prefix(ts, k + 1, caret, caret_byte, valid);
}

/// A click follows a link wherever something is selected or the caret is not in the link,
/// and never with the caret at one of its ends or between them.
pub proof fn law_click_follows_unless_the_caret_is_in_the_link(
    caret: int,
    other: int,
    start: int,
    end: int,
)
    ensures
        caret != other ==> click_follows(caret, other, start, end),
        click_follows(caret, caret, start, end) <==> !(start <= caret <= end),
{
}

/// Brackets without a title are shown as they are typed.
pub proof fn law_empty_link_is_shown_as_typed(start: nat, end: nat, valid: bool, clickable: bool)
    ensures
        link_html(Seq::empty(), start, end, valid, clickable) == seq!['[', '[', ']', ']'],
{
    reveal_strlit("[[]]");
}

/// The byte of the caret is the number of bytes of the text before it.
pub proof fn law_caret_byte_counts_the_text_before(before: Seq<char>, behind: Seq<char>)
    requires
        utf16_len(before) <= u32::MAX,
        utf8_len(before) <= usize::MAX,
    ensures
        caret_byte_of(before + behind, Some(utf16_len(before) as u32)) == Some(
            utf8_len(before) as usize,
        ),
        caret_byte_of(before + behind, None) is None,
{
    lemma_cut(before, behind);
}

} // verus!
