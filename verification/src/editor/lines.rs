//! Lines of a row's text: positions by line and column, and what Enter and the
//! delete keys make of a text.

use crate::editor::edit::line_info_at;
use crate::editor::selection::split_at_utf16;
use crate::text::{from_chars, split_lines_of, str_eq, to_chars, utf16_len_of, utf16_len_range};
use vstd::prelude::*;

verus! {

use crate::editor::edit::{lemma_first_line, lemma_line_start_bounds, line_index_at, line_start_at};
use crate::editor::selection::{head_at_utf16, tail_at_utf16};
use crate::text::{
    is_white_space, lemma_chars_in_utf16, lemma_lines_text_grows, lemma_lines_text_of_head,
    lemma_lines_text_whole, lemma_split_lines_nonempty, lemma_utf16_concat, lemma_utf16_push,
    lines_text, min_of, split_lines, utf16_len,
};

/// The line and the column, both from 0, of a position. One behind the end counts
/// as the end.
pub fn utf16_line_col_at_pos(text: &str, pos_utf16: u32) -> (r: (u32, u32))
    requires
        utf16_len(text@) <= u32::MAX,
    ensures
        r.0 == line_index_at(text@, pos_utf16 as int),
        r.1 == min_of(pos_utf16 as int, utf16_len(text@) as int) - line_start_at(
            text@,
            pos_utf16 as int,
        ),
{
    let len: u32 = utf16_len_of(text);
    let pos: u32 = if pos_utf16 <= len {
        pos_utf16
    } else {
        len
    };
    let (line, start, _first_end) = line_info_at(text, pos_utf16);
    proof {
        let head = head_at_utf16(text@, pos_utf16 as int);
        lemma_chars_in_utf16(text@, pos_utf16 as int);
        crate::text::lemma_utf16_split(
            text@,
            crate::text::chars_in_utf16(text@, pos_utf16 as int) as int,
        );
        lemma_line_start_bounds(head);
    }
    (line, pos - start)
}

/// The position of a line and a column. A column behind the line's end counts as its
/// end, a line behind the last as the end of the text.
pub open spec fn pos_of_line_col(s: Seq<char>, line: int, col: int) -> int {
    let lines = split_lines(s);
    if line < lines.len() {
        utf16_len(lines_text(lines, line)) + min_of(col, utf16_len(lines[line]) as int)
    } else {
        utf16_len(s) as int
    }
}

/// The position of a line and a column.
pub fn utf16_pos_for_line_col(text: &str, target_line_idx: u32, target_col: u32) -> (r: u32)
    requires
        utf16_len(text@) <= u32::MAX,
    ensures
        r == pos_of_line_col(text@, target_line_idx as int, target_col as int),
{
    let chars = to_chars(text);
    let lines = split_lines_of(chars.as_slice());
    let ghost ls = split_lines(text@);
    let mut pos: u32 = 0;
    let mut i: usize = 0;
    proof {
        lemma_lines_text_whole(text@);
    }
    while i < lines.len() && i < target_line_idx as usize
        invariant
            i <= lines@.len(),
            i <= target_line_idx,
            lines@.len() == ls.len(),
            forall|j: int| 0 <= j < ls.len() ==> (#[trigger] lines@[j])@ == ls[j],
            pos == utf16_len(lines_text(ls, i as int)),
            utf16_len(lines_text(ls, ls.len() as int)) <= u32::MAX,
        decreases lines@.len() - i,
    {
        let line: &Vec<char> = &lines[i];
        proof {
            assert(line@ == ls[i as int]);
            lemma_lines_text_grows(ls, i + 1, ls.len() as int);
            lemma_utf16_concat(lines_text(ls, i as int), line@);
            lemma_utf16_push(lines_text(ls, i as int) + line@, '\n');
            assert(line@.subrange(0, line@.len() as int) =~= line@);
        }
        let len: u32 = utf16_len_range(line.as_slice(), 0, line.len());
        pos = pos + len;
        if i + 1 < lines.len() {
            pos = pos + 1;
        }
        i = i + 1;
    }
    if i < lines.len() {
        let line: &Vec<char> = &lines[i];
        proof {
            assert(line@ == ls[i as int]);
            lemma_lines_text_grows(ls, i + 1, ls.len() as int);
            lemma_utf16_concat(lines_text(ls, i as int), line@);
            lemma_utf16_push(lines_text(ls, i as int) + line@, '\n');
            assert(line@.subrange(0, line@.len() as int) =~= line@);
        }
        let len: u32 = utf16_len_range(line.as_slice(), 0, line.len());
        pos + if target_col <= len {
            target_col
        } else {
            len
        }
    } else {
        pos
    }
}

/// Going from a position to its line and column and back gives the position.
pub proof fn law_line_col_round_trip(s: Seq<char>, pos: int)
    requires
        0 <= pos <= utf16_len(s),
    ensures
        pos_of_line_col(s, line_index_at(s, pos), pos - line_start_at(s, pos)) == pos,
        0 <= line_index_at(s, pos) < split_lines(s).len(),
{
    let head = head_at_utf16(s, pos);
    let tail = tail_at_utf16(s, pos);
    lemma_chars_in_utf16(s, pos);
    assert(head + tail =~= s);
    lemma_lines_text_of_head(head, tail);
    lemma_split_lines_nonempty(head);
    lemma_split_lines_nonempty(tail);
    let k = split_lines(head).len() - 1;
    let lines = split_lines(s);
    lemma_utf16_concat(lines_text(lines, k), split_lines(head).last());
    lemma_utf16_concat(split_lines(head).last(), split_lines(tail)[0]);
    if utf16_len(head) < pos {
        // The position cuts a character in two. That character opens the tail and is
        // no newline, so the line is long enough.
        lemma_cut_char_on_line(s, pos);
    }
}

proof fn lemma_cut_char_on_line(s: Seq<char>, pos: int)
    requires
        0 <= pos <= utf16_len(s),
        utf16_len(head_at_utf16(s, pos)) < pos,
    ensures
        utf16_len(head_at_utf16(s, pos)) + 1 == pos,
        utf16_len(split_lines(tail_at_utf16(s, pos))[0]) >= 2,
{
    let k = crate::text::chars_in_utf16(s, pos) as int;
    let tail = tail_at_utf16(s, pos);
    lemma_chars_in_utf16(s, pos);
    assert(k < s.len()) by {
        if k == s.len() {
            assert(s.take(k) =~= s);
        }
    }
    crate::text::lemma_utf16_take_next(s, k);
    assert(tail[0] == s[k]);
    lemma_first_line_starts_with(tail);
}

proof fn lemma_first_line_starts_with(s: Seq<char>)
    requires
        s.len() > 0,
        s[0] != '\n',
    ensures
        split_lines(s)[0].len() > 0,
        split_lines(s)[0][0] == s[0],
        utf16_len(split_lines(s)[0]) >= crate::text::utf16_width(s[0]),
    decreases s.len(),
{
    let p = s.drop_last();
    lemma_split_lines_nonempty(p);
    if p.len() == 0 {
        assert(split_lines(p) =~= seq![p]);
        assert(p.push(s.last()) =~= seq![s[0]]);
        lemma_utf16_push(p, s[0]);
    } else {
        lemma_first_line_starts_with(p);
        if s.last() != '\n' && split_lines(p).len() == 1 {
            lemma_utf16_push(split_lines(p)[0], s.last());
        }
    }
}

// ---- Enter ----

/// The texts of the two rows that Enter makes of one. On the first of several lines
/// only that line is split, and the lines below stay with the first row.
pub open spec fn enter_split(s: Seq<char>, caret: int) -> (Seq<char>, Seq<char>) {
    let first = split_lines(s)[0];
    if first.len() < s.len() && caret <= utf16_len(first) {
        let rest = s.skip(first.len() as int + 1);
        let left = head_at_utf16(first, caret);
        (
            if rest.len() == 0 {
                left
            } else {
                left.push('\n') + rest
            },
            tail_at_utf16(first, caret),
        )
    } else {
        (head_at_utf16(s, caret), tail_at_utf16(s, caret))
    }
}

/// The texts of the two rows that Enter makes of one.
pub fn split_nav_content_for_enter(current_content: &str, caret_utf16: u32) -> (r: (String, String))
    requires
        utf16_len(current_content@) <= u32::MAX,
    ensures
        r.0@ == enter_split(current_content@, caret_utf16 as int).0,
        r.1@ == enter_split(current_content@, caret_utf16 as int).1,
{
    let chars = to_chars(current_content);
    let ghost s = current_content@;
    let n: usize = chars.len();
    let mut k: usize = 0;
    while k < n && chars[k] != '\n'
        invariant
            chars@ == s,
            n == s.len(),
            k <= n,
            forall|j: int| 0 <= j < k ==> s[j] != '\n',
        decreases n - k,
    {
        k = k + 1;
    }
    proof {
        lemma_first_line(s, k as int);
        assert(s.subrange(0, k as int) =~= s.take(k as int));
    }
    if k < n {
        let first_len: u32 = utf16_len_range(chars.as_slice(), 0, k);
        if caret_utf16 <= first_len {
            let first = from_chars(chars.as_slice(), 0, k);
            let (left_first, right_first) = split_at_utf16(first.as_str(), caret_utf16);
            let rest = from_chars(chars.as_slice(), k + 1, n);
            assert(s.subrange(k + 1, n as int) =~= s.skip(k + 1));
            let mut left = left_first;
            if k + 1 < n {
                left.push('\n');
                left.append(rest.as_str());
            }
            return (left, right_first);
        }
    }
    split_at_utf16(current_content, caret_utf16)
}

/// Splitting a row in two loses nothing but a newline at the very end: the line that
/// is split, and all that is behind it, is found in the two texts.
pub proof fn law_enter_split_keeps_text(s: Seq<char>, caret: int)
    requires
        0 <= caret,
    ensures
        ({
            let (left, right) = enter_split(s, caret);
            let first = split_lines(s)[0];
            if first.len() < s.len() && caret <= utf16_len(first) {
                let below = s.skip(first.len() as int);
                &&& head_at_utf16(first, caret) + right == first
                &&& left == head_at_utf16(first, caret) + (if below.len() == 1 {
                    Seq::empty()
                } else {
                    below
                })
            } else {
                left + right == s
            }
        }),
{
    let first = split_lines(s)[0];
    lemma_chars_in_utf16(first, caret);
    lemma_chars_in_utf16(s, caret);
    assert(head_at_utf16(first, caret) + tail_at_utf16(first, caret) =~= first);
    assert(head_at_utf16(s, caret) + tail_at_utf16(s, caret) =~= s);
    if first.len() < s.len() && caret <= utf16_len(first) {
        let below = s.skip(first.len() as int);
        lemma_first_line_ends_at_newline(s);
        assert(below =~= seq!['\n'] + s.skip(first.len() as int + 1));
        let left = head_at_utf16(first, caret);
        assert(left.push('\n') + s.skip(first.len() as int + 1) =~= left + below);
        assert(left + Seq::<char>::empty() =~= left);
    }
}

proof fn lemma_first_line_ends_at_newline(s: Seq<char>)
    ensures
        split_lines(s).len() >= 1,
        split_lines(s)[0].len() <= s.len(),
        split_lines(s)[0].len() < s.len() ==> s[split_lines(s)[0].len() as int] == '\n',
        split_lines(s).len() == 1 ==> split_lines(s)[0] == s,
        split_lines(s).len() > 1 ==> split_lines(s)[0].len() < s.len(),
    decreases s.len(),
{
    lemma_split_lines_nonempty(s);
    if s.len() > 0 {
        let p = s.drop_last();
        lemma_first_line_ends_at_newline(p);
        if s.last() != '\n' && split_lines(p).len() == 1 {
            assert(p.push(s.last()) =~= s);
        }
    }
}

// ---- deleting ----

/// Whether a character is one that browsers put into an editable element to hold the
/// caret.
pub open spec fn ignorable(c: char) -> bool {
    c == '\u{200B}' || c == '\u{200C}' || c == '\u{200D}' || c == '\u{FEFF}'
}

/// Whether a text shows anything.
pub open spec fn shows_text(s: Seq<char>) -> bool {
    exists|i: int| 0 <= i < s.len() && !is_white_space(#[trigger] s[i]) && !ignorable(s[i])
}

/// Whether a text shows anything but white space.
pub fn has_any_text_content(s: &str) -> (r: bool)
    ensures
        r == shows_text(s@),
{
    for c in it: s.chars()
        invariant
            it.seq() == s@,
            forall|j: int|
                0 <= j < it.index() ==> is_white_space(#[trigger] s@[j]) || ignorable(s@[j]),
    {
        let skip: bool = c == '\u{200B}' || c == '\u{200C}' || c == '\u{200D}' || c == '\u{FEFF}';
        if !c.is_whitespace() && !skip {
            assert(!is_white_space(s@[it.index() as int]) && !ignorable(s@[it.index() as int]));
            return true;
        }
    }
    false
}

/// What a row holds, as far as the delete keys are concerned.
#[derive(Debug, Clone, Copy, PartialEq, Eq, Structural)]
pub enum OutlineDeleteState {
    HasContent,
    OnlySoftBreaks,
    Empty,
}

/// What the delete keys find in a row.
pub fn outline_delete_state(has_any_text: bool, semantic_br_count: u32) -> (r: OutlineDeleteState)
    ensures
        r == (if has_any_text {
            OutlineDeleteState::HasContent
        } else if semantic_br_count > 0 {
            OutlineDeleteState::OnlySoftBreaks
        } else {
            OutlineDeleteState::Empty
        }),
{
    if has_any_text {
        return OutlineDeleteState::HasContent;
    }
    if semantic_br_count > 0 {
        OutlineDeleteState::OnlySoftBreaks
    } else {
        OutlineDeleteState::Empty
    }
}

/// Whether an input event inserts text: one that says so, or one of no type that
/// brings text along.
pub fn should_treat_beforeinput_as_insert_text(input_type: &str, input_data: &str) -> (r: bool)
    ensures
        r == (input_type@ == "insertText"@ || (input_type@.len() == 0 && input_data@.len() > 0)),
{
    let a: bool = str_eq(input_type, "insertText");
    let b: bool = str_eq(input_type, "");
    let c: bool = str_eq(input_data, "");
    proof {
        reveal_strlit("");
        assert(input_type@.len() == 0 ==> input_type@ =~= ""@);
        assert(input_data@.len() == 0 ==> input_data@ =~= ""@);
    }
    a || (b && !c)
}

/// A text shows something exactly if it holds a character that is neither white space nor
/// without width. Adding such characters at its ends does not make it show more.
pub proof fn law_blank_text_shows_nothing(s: Seq<char>, c: char)
    requires
        is_white_space(c) || c == '\u{200B}' || c == '\u{200C}' || c == '\u{200D}' || c
            == '\u{FEFF}',
    ensures
        shows_text(s.push(c)) == shows_text(s),
        !shows_text(Seq::empty()),
{
    if shows_text(s) {
        let i = choose|i: int|
            0 <= i < s.len() && !is_white_space(#[trigger] s[i]) && !ignorable(s[i]);
        assert(s.push(c)[i] == s[i]);
    }
    if shows_text(s.push(c)) {
        let i = choose|i: int|
            0 <= i < s.push(c).len() && !is_white_space(#[trigger] s.push(c)[i]) && !ignorable(
                s.push(c)[i],
            );
        assert(i < s.len());
        assert(s[i] == s.push(c)[i]);
    }
}

/// Any other character makes a text show something.
pub proof fn law_other_characters_show(s: Seq<char>, i: int)
    requires
        0 <= i < s.len(),
        !is_white_space(s[i]),
        s[i] != '\u{200B}',
        s[i] != '\u{200C}',
        s[i] != '\u{200D}',
        s[i] != '\u{FEFF}',
    ensures
        shows_text(s),
{
}

} // verus!
