//! Text editing: the state of one edited text, what an edit does to it, and the
//! form in which it is stored.

use crate::text::{
    chars_in_utf16_of, from_chars, to_chars, utf16_len_of, utf16_len_range,
};
use vstd::prelude::*;

verus! {

use crate::editor::selection::{head_at_utf16, tail_at_utf16};
use crate::text::{
    chars_in_utf16, is_utf16_boundary, lemma_chars_in_utf16, lemma_chars_in_utf16_is, lemma_cut,
    lemma_len_bounds, lemma_offset_of_char, lemma_prefix_lens_grow, lemma_split_lines_nonempty,
    lemma_utf16_concat, lemma_utf16_push, lemma_utf16_split, lemma_utf16_take_next, min_of,
    split_lines, utf16_len,
};

// ---- line ends ----

/// The text with each of `"\r\n"`, `"\r"` and `"\n"` written as `"\n"`.
pub open spec fn normalized(s: Seq<char>) -> Seq<char>
    decreases s.len(),
{
    if s.len() == 0 {
        s
    } else if s[0] == '\r' {
        if s.len() > 1 && s[1] == '\n' {
            normalized(s.drop_first())
        } else {
            seq!['\n'] + normalized(s.drop_first())
        }
    } else {
        seq![s[0]] + normalized(s.drop_first())
    }
}

/// The form in which an edited text is stored: every line end is a single `'\n'`.
pub fn normalize_editor_text_for_persist(raw: &str) -> (r: String)
    ensures
        r@ == normalized(raw@),
{
    let chars = to_chars(raw);
    let mut out = String::new();
    let mut i: usize = 0;
    proof {
        assert(raw@.skip(0) =~= raw@);
        assert(Seq::<char>::empty() + normalized(raw@) =~= normalized(raw@));
    }
    while i < chars.len()
        invariant
            chars@ == raw@,
            i <= chars@.len(),
            out@ + normalized(raw@.skip(i as int)) == normalized(raw@),
        decreases chars@.len() - i,
    {
        let c: char = chars[i];
        proof {
            assert(raw@.skip(i as int).drop_first() =~= raw@.skip(i + 1));
        }
        let ghost before = out@;
        if c == '\r' {
            if i + 1 < chars.len() && chars[i + 1] == '\n' {
                assert(raw@.skip(i as int)[1] == '\n');
            } else {
                out.push('\n');
                assert(before + (seq!['\n'] + normalized(raw@.skip(i + 1))) =~= before.push('\n')
                    + normalized(raw@.skip(i + 1)));
            }
        } else {
            out.push(c);
            assert(before + (seq![c] + normalized(raw@.skip(i + 1))) =~= before.push(c)
                + normalized(raw@.skip(i + 1)));
        }
        i = i + 1;
    }
    assert(out@ + normalized(raw@.skip(i as int)) =~= out@);
    out
}

pub proof fn lemma_normalized_has_no_cr(s: Seq<char>)
    ensures
        !normalized(s).contains('\r'),
    decreases s.len(),
{
    if s.len() > 0 {
        lemma_normalized_has_no_cr(s.drop_first());
        let rest = normalized(s.drop_first());
        assert forall|i: int| 0 <= i < normalized(s).len() implies normalized(s)[i] != '\r' by {
            if 0 <= i - 1 < rest.len() {
                assert(rest.contains(rest[i - 1]));
            }
            if i < rest.len() {
                assert(rest.contains(rest[i]));
            }
        }
    }
}

pub proof fn lemma_normalized_fixed(s: Seq<char>)
    requires
        !s.contains('\r'),
    ensures
        normalized(s) == s,
    decreases s.len(),
{
    if s.len() > 0 {
        let rest = s.drop_first();
        assert(s[0] != '\r') by {
            assert(s.contains(s[0]));
        }
        assert forall|i: int| 0 <= i < rest.len() implies rest[i] != '\r' by {
            assert(s.contains(s[i + 1]));
        }
        lemma_normalized_fixed(rest);
        assert(normalized(s) =~= s);
    }
}

/// A stored text holds no carriage return, and storing it again changes nothing.
pub proof fn law_normalize_idempotent(s: Seq<char>)
    ensures
        !normalized(s).contains('\r'),
        normalized(normalized(s)) == normalized(s),
{
    lemma_normalized_has_no_cr(s);
    lemma_normalized_fixed(normalized(s));
}

/// Up to the first carriage return a text is stored as it is. The carriage return, with
/// the newline that may follow it, is stored as one newline, and so on behind it.
pub proof fn law_line_ends_become_newlines(a: Seq<char>, b: Seq<char>)
    requires
        !a.contains('\r'),
    ensures
        normalized(a) == a,
        normalized(a + seq!['\r', '\n'] + b) == a + seq!['\n'] + normalized(b),
        b.len() == 0 || b[0] != '\n' ==> normalized(a + seq!['\r'] + b) == a + seq!['\n']
            + normalized(b),
    decreases a.len(),
{
    lemma_normalized_fixed(a);
    let crlf = seq!['\r', '\n'];
    let cr = seq!['\r'];
    if a.len() == 0 {
        let x = a + crlf + b;
        assert(x.drop_first() =~= seq!['\n'] + b);
        assert(x.drop_first().drop_first() =~= b);
        assert(x[0] == '\r' && x[1] == '\n');
        assert(normalized(x.drop_first()) == seq!['\n'] + normalized(b));
        assert(a + seq!['\n'] + normalized(b) =~= seq!['\n'] + normalized(b));
        let y = a + cr + b;
        assert(y.drop_first() =~= b);
        assert(y[0] == '\r');
        if y.len() > 1 {
            assert(y[1] == b[0]);
        }
    } else {
        let rest = a.drop_first();
        assert(a[0] != '\r') by {
            assert(a.contains(a[0]));
        }
        assert forall|i: int| 0 <= i < rest.len() implies rest[i] != '\r' by {
            assert(a.contains(a[i + 1]));
        }
        law_line_ends_become_newlines(rest, b);
        assert((a + crlf + b).drop_first() =~= rest + crlf + b);
        assert((a + cr + b).drop_first() =~= rest + cr + b);
        assert(seq![a[0]] + (rest + seq!['\n'] + normalized(b)) =~= a + seq!['\n'] + normalized(
            b,
        ));
    }
}

// ---- edit operations ----

/// One change to a text, in UTF-16 positions.
#[derive(Debug, PartialEq, Eq)]
pub enum EditorOp {
    /// Put `text` in place of what stands between the two positions.
    ReplaceRange { start_utf16: u32, end_utf16: u32, text: String },
    /// Take out the character before the caret.
    DeleteBackward { caret_utf16: u32 },
    /// Take out the character behind the caret.
    DeleteForward { caret_utf16: u32 },
}

/// The text and the caret once `text` has been put in place of what stands between
/// the two positions, in either order.
pub open spec fn replaced(s: Seq<char>, a: int, b: int, text: Seq<char>) -> (Seq<char>, int) {
    let start = min_of(a, b);
    let end = a + b - start;
    (head_at_utf16(s, start) + text + tail_at_utf16(s, end), start + utf16_len(text))
}

/// The text and the caret once the character that ends at the caret is gone. A
/// caret that no character ends at moves back to where the text or the character
/// that it cuts begins or ends, and nothing is taken out.
pub open spec fn deleted_backward(s: Seq<char>, caret: int) -> (Seq<char>, int) {
    let k = chars_in_utf16(s, caret) as int;
    if caret == 0 {
        (s, 0)
    } else if caret > utf16_len(s) {
        (s, utf16_len(s) as int)
    } else if is_utf16_boundary(s, caret) {
        (s.take(k - 1) + s.skip(k), utf16_len(s.take(k - 1)) as int)
    } else {
        (s, utf16_len(s.take(k)) as int)
    }
}

/// The text and the caret once the character at the caret is gone.
pub open spec fn deleted_forward(s: Seq<char>, caret: int) -> (Seq<char>, int) {
    let k = chars_in_utf16(s, caret) as int;
    if caret >= utf16_len(s) {
        (s, utf16_len(s) as int)
    } else {
        (s.take(k) + s.skip(k + 1), caret)
    }
}

/// What an operation does to a text, and where the caret stands afterwards.
pub open spec fn op_result(s: Seq<char>, op: EditorOp) -> (Seq<char>, int) {
    match op {
        EditorOp::ReplaceRange { start_utf16, end_utf16, text } => replaced(
            s,
            start_utf16 as int,
            end_utf16 as int,
            text@,
        ),
        EditorOp::DeleteBackward { caret_utf16 } => deleted_backward(s, caret_utf16 as int),
        EditorOp::DeleteForward { caret_utf16 } => deleted_forward(s, caret_utf16 as int),
    }
}

/// Whether every position that the operation computes fits its type.
pub open spec fn op_fits(s: Seq<char>, op: EditorOp) -> bool {
    match op {
        EditorOp::ReplaceRange { start_utf16, end_utf16, text } => min_of(
            start_utf16 as int,
            end_utf16 as int,
        ) + utf16_len(text@) <= u32::MAX,
        EditorOp::DeleteBackward { .. } => utf16_len(s) <= u32::MAX,
        EditorOp::DeleteForward { .. } => utf16_len(s) <= u32::MAX,
    }
}

/// The text before character `from` followed by the text from character `to`.
fn without_range(chars: &[char], from: usize, to: usize) -> (r: String)
    requires
        from <= to <= chars@.len(),
    ensures
        r@ == chars@.take(from as int) + chars@.skip(to as int),
{
    let mut out = from_chars(chars, 0, from);
    let tail = from_chars(chars, to, chars.len());
    out.append(tail.as_str());
    assert(chars@.subrange(0, from as int) =~= chars@.take(from as int));
    assert(chars@.subrange(to as int, chars@.len() as int) =~= chars@.skip(to as int));
    out
}

/// Carries out one operation on a text. Gives the new text and the new caret.
pub fn apply_editor_op(content: &str, op: EditorOp) -> (r: (String, u32))
    requires
        op_fits(content@, op),
    ensures
        r.0@ == op_result(content@, op).0,
        r.1 == op_result(content@, op).1,
{
    let chars = to_chars(content);
    let ghost s = content@;
    match op {
        EditorOp::ReplaceRange { start_utf16, end_utf16, text } => {
            let start: u32 = if start_utf16 <= end_utf16 {
                start_utf16
            } else {
                end_utf16
            };
            let end: u32 = if start_utf16 <= end_utf16 {
                end_utf16
            } else {
                start_utf16
            };
            let start_k: usize = chars_in_utf16_of(chars.as_slice(), start);
            let end_k: usize = chars_in_utf16_of(chars.as_slice(), end);
            let mut out = from_chars(chars.as_slice(), 0, start_k);
            out.append(text.as_str());
            let tail = from_chars(chars.as_slice(), end_k, chars.len());
            out.append(tail.as_str());
            assert(s.subrange(0, start_k as int) =~= s.take(start_k as int));
            assert(s.subrange(end_k as int, s.len() as int) =~= s.skip(end_k as int));
            let caret: u32 = start + utf16_len_of(text.as_str());
            (out, caret)
        },
        EditorOp::DeleteBackward { caret_utf16 } => {
            if caret_utf16 == 0 {
                return (content.to_string(), 0);
            }
            let k: usize = chars_in_utf16_of(chars.as_slice(), caret_utf16);
            let at: u32 = utf16_len_range(chars.as_slice(), 0, k);
            proof {
                assert(s.subrange(0, k as int) =~= s.take(k as int));
                lemma_chars_in_utf16(s, caret_utf16 as int);
                assert(s.take(s.len() as int) =~= s);
                if caret_utf16 > utf16_len(s) {
                    lemma_chars_in_utf16_is(s, caret_utf16 as int, s.len() as int);
                }
                lemma_utf16_split(s, k as int);
            }
            if at == caret_utf16 {
                assert(k > 0) by {
                    assert(s.take(0) =~= Seq::<char>::empty());
                }
                let out = without_range(chars.as_slice(), k - 1, k);
                let start: u32 = utf16_len_range(chars.as_slice(), 0, k - 1);
                assert(s.subrange(0, k - 1) =~= s.take(k - 1));
                (out, start)
            } else {
                (content.to_string(), at)
            }
        },
        EditorOp::DeleteForward { caret_utf16 } => {
            let len: u32 = utf16_len_of(content);
            if caret_utf16 >= len {
                return (content.to_string(), len);
            }
            let k: usize = chars_in_utf16_of(chars.as_slice(), caret_utf16);
            assert(k < s.len()) by {
                lemma_chars_in_utf16(s, caret_utf16 as int);
                assert(s.take(s.len() as int) =~= s);
            }
            let n: usize = chars.len();
            assert(k + 1 <= n);
            let out = without_range(chars.as_slice(), k, k + 1);
            (out, caret_utf16)
        },
    }
}

// ---- the state of an edited text ----

/// A text being edited and where its caret stands.
#[derive(Debug, PartialEq, Eq)]
pub struct EditorState {
    pub text: String,
    pub caret_utf16: u32,
    pub remembered_caret_utf16: Option<u32>,
}

impl Clone for EditorState {
    fn clone(&self) -> (r: Self)
        ensures
            r == *self,
    {
        EditorState {
            text: self.text.clone(),
            caret_utf16: self.caret_utf16,
            remembered_caret_utf16: self.remembered_caret_utf16,
        }
    }
}

impl EditorState {
    /// A state with the caret moved back to the end of the text where it lies behind it.
    pub fn new(text: String, caret_utf16: u32) -> (r: Self)
        requires
            utf16_len(text@) <= u32::MAX,
        ensures
            r.text == text,
            r.caret_utf16 == min_of(caret_utf16 as int, utf16_len(text@) as int),
            r.remembered_caret_utf16 is None,
    {
        let len: u32 = utf16_len_of(text.as_str());
        EditorState {
            text,
            caret_utf16: if caret_utf16 <= len {
                caret_utf16
            } else {
                len
            },
            remembered_caret_utf16: None,
        }
    }
}

/// What the user asks of the text being edited.
#[derive(Debug, PartialEq, Eq)]
pub enum EditorIntent {
    ReplaceRange { start_utf16: u32, end_utf16: u32, text: String },
    InsertText(String),
    Backspace,
    Delete,
    Enter { shift: bool },
    SetCaret(u32),
}

/// The number of the line that a position is on, from 0.
pub open spec fn line_index_at(s: Seq<char>, pos: int) -> int {
    split_lines(head_at_utf16(s, pos)).len() - 1
}

/// The position at which the line of a position begins.
pub open spec fn line_start_at(s: Seq<char>, pos: int) -> int {
    let head = head_at_utf16(s, pos);
    utf16_len(head) - utf16_len(split_lines(head).last())
}

pub proof fn lemma_line_start_bounds(s: Seq<char>)
    ensures
        utf16_len(split_lines(s).last()) <= utf16_len(s),
        split_lines(s).len() >= 1,
    decreases s.len(),
{
    if s.len() > 0 {
        lemma_line_start_bounds(s.drop_last());
        lemma_split_lines_nonempty(s.drop_last());
        let prev = split_lines(s.drop_last());
        if s.last() != '\n' {
            lemma_utf16_push(prev.last(), s.last());
        }
    }
}

pub proof fn lemma_first_line(s: Seq<char>, k: int)
    requires
        0 <= k <= s.len(),
        forall|i: int| 0 <= i < k ==> s[i] != '\n',
        k < s.len() ==> s[k] == '\n',
    ensures
        split_lines(s).len() >= 1,
        split_lines(s)[0] == s.take(k),
        k == s.len() ==> split_lines(s).len() == 1,
    decreases s.len(),
{
    lemma_split_lines_nonempty(s);
    if s.len() > 0 {
        let p = s.drop_last();
        lemma_split_lines_nonempty(p);
        if k < s.len() {
            lemma_first_line(p, k);
            assert(p.take(k) =~= s.take(k));
            if k == p.len() {
                assert(s.last() == '\n');
            } else if s.last() != '\n' {
                lemma_first_line_more(p, k);
            }
        } else {
            lemma_first_line(p, k - 1);
            assert(p.take(k - 1) =~= p);
            assert(s.take(k) =~= s);
            assert(p.push(s.last()) =~= s);
        }
    } else {
        assert(s.take(0) =~= s);
    }
}

proof fn lemma_first_line_more(s: Seq<char>, k: int)
    requires
        0 <= k < s.len(),
        s[k] == '\n',
    ensures
        split_lines(s).len() >= 2,
    decreases s.len(),
{
    let p = s.drop_last();
    lemma_split_lines_nonempty(p);
    if k < p.len() {
        lemma_first_line_more(p, k);
    }
}

/// The line of a position, where that line begins, and where the first line ends.
pub fn line_info_at(text: &str, caret_utf16: u32) -> (r: (u32, u32, u32))
    requires
        utf16_len(text@) <= u32::MAX,
    ensures
        r.0 == line_index_at(text@, caret_utf16 as int),
        r.1 == line_start_at(text@, caret_utf16 as int),
        r.2 == utf16_len(split_lines(text@)[0]),
{
    let chars = to_chars(text);
    let ghost s = text@;
    let k: usize = chars_in_utf16_of(chars.as_slice(), caret_utf16);
    let mut line_idx: u32 = 0;
    let mut line_start: u32 = 0;
    let mut pos: u32 = 0;
    let mut i: usize = 0;
    proof {
        assert(s.take(0) =~= Seq::<char>::empty());
    }
    while i < k
        invariant
            chars@ == s,
            i <= k <= s.len(),
            utf16_len(s) <= u32::MAX,
            pos == utf16_len(s.take(i as int)),
            line_idx == split_lines(s.take(i as int)).len() - 1,
            line_start == pos - utf16_len(split_lines(s.take(i as int)).last()),
        decreases k - i,
    {
        let c: char = chars[i];
        proof {
            let head = s.take(i as int);
            assert(s.take(i + 1).drop_last() =~= head);
            lemma_utf16_take_next(s, i as int);
            lemma_utf16_split(s, i + 1);
            lemma_len_bounds(s.take(i + 1));
            lemma_split_lines_nonempty(head);
            lemma_line_start_bounds(head);
            if c != '\n' {
                lemma_utf16_push(split_lines(head).last(), c);
            }
        }
        let w: u32 = crate::text::char_len_utf16(c);
        if c == '\n' {
            line_idx = line_idx + 1;
            line_start = pos + w;
        }
        pos = pos + w;
        i = i + 1;
    }
    let mut first: usize = 0;
    while first < chars.len() && chars[first] != '\n'
        invariant
            chars@ == s,
            first <= s.len(),
            forall|j: int| 0 <= j < first ==> s[j] != '\n',
        decreases s.len() - first,
    {
        first = first + 1;
    }
    let first_line_end: u32 = utf16_len_range(chars.as_slice(), 0, first);
    proof {
        lemma_first_line(s, first as int);
        assert(s.subrange(0, first as int) =~= s.take(first as int));
    }
    (line_idx, line_start, first_line_end)
}

/// The state that an intent leads to: its text, its caret, and whether it is a
/// fresh state or the old one with at most its caret moved.
pub open spec fn reduced(state: EditorState, intent: EditorIntent) -> (Seq<char>, int, Option<u32>) {
    let s = state.text@;
    let caret = state.caret_utf16 as int;
    match intent {
        EditorIntent::ReplaceRange { start_utf16, end_utf16, text } => {
            let r = replaced(s, start_utf16 as int, end_utf16 as int, text@);
            (r.0, r.1, None)
        },
        EditorIntent::InsertText(t) => {
            let r = replaced(s, caret, caret, t@);
            (r.0, r.1, None)
        },
        EditorIntent::Backspace => {
            let r = deleted_backward(s, caret);
            (r.0, r.1, None)
        },
        EditorIntent::Delete => {
            let r = deleted_forward(s, caret);
            (r.0, r.1, None)
        },
        EditorIntent::Enter { shift } => if shift || line_index_at(s, caret) > 0 {
            let r = replaced(s, caret, caret, seq!['\n']);
            (r.0, r.1, None)
        } else {
            (s, caret, state.remembered_caret_utf16)
        },
        EditorIntent::SetCaret(c) => (
            s,
            min_of(c as int, utf16_len(s) as int),
            state.remembered_caret_utf16,
        ),
    }
}

/// Whether every position that the intent leads to fits its type.
pub open spec fn intent_fits(state: EditorState, intent: EditorIntent) -> bool {
    &&& utf16_len(state.text@) <= u32::MAX
    &&& reduced(state, intent).1 <= u32::MAX
}

/// Carries out an intent on a state.
pub fn reduce_editor_state(state: &EditorState, intent: EditorIntent) -> (r: EditorState)
    requires
        intent_fits(*state, intent),
    ensures
        r.text@ == reduced(*state, intent).0,
        r.caret_utf16 == reduced(*state, intent).1,
        r.remembered_caret_utf16 == reduced(*state, intent).2,
{
    match intent {
        EditorIntent::ReplaceRange { start_utf16, end_utf16, text } => {
            let (next, caret) = apply_editor_op(
                state.text.as_str(),
                EditorOp::ReplaceRange { start_utf16, end_utf16, text },
            );
            EditorState { text: next, caret_utf16: caret, remembered_caret_utf16: None }
        },
        EditorIntent::SetCaret(c) => {
            let len: u32 = utf16_len_of(state.text.as_str());
            let mut s = state.clone();
            s.caret_utf16 = if c <= len {
                c
            } else {
                len
            };
            s
        },
        EditorIntent::InsertText(t) => {
            let (next, caret) = apply_editor_op(
                state.text.as_str(),
                EditorOp::ReplaceRange {
                    start_utf16: state.caret_utf16,
                    end_utf16: state.caret_utf16,
                    text: t,
                },
            );
            EditorState { text: next, caret_utf16: caret, remembered_caret_utf16: None }
        },
        EditorIntent::Backspace => {
            let (next, caret) = apply_editor_op(
                state.text.as_str(),
                EditorOp::DeleteBackward { caret_utf16: state.caret_utf16 },
            );
            EditorState { text: next, caret_utf16: caret, remembered_caret_utf16: None }
        },
        EditorIntent::Delete => {
            let (next, caret) = apply_editor_op(
                state.text.as_str(),
                EditorOp::DeleteForward { caret_utf16: state.caret_utf16 },
            );
            EditorState { text: next, caret_utf16: caret, remembered_caret_utf16: None }
        },
        EditorIntent::Enter { shift } => {
            let (line_idx, _line_start, _first_line_end) = line_info_at(
                state.text.as_str(),
                state.caret_utf16,
            );
            if shift || line_idx > 0 {
                proof {
                    reveal_strlit("\n");
                    assert("\n"@ =~= seq!['\n']);
                }
                let (next, caret) = apply_editor_op(
                    state.text.as_str(),
                    EditorOp::ReplaceRange {
                        start_utf16: state.caret_utf16,
                        end_utf16: state.caret_utf16,
                        text: "\n".to_string(),
                    },
                );
                return EditorState {
                    text: next,
                    caret_utf16: caret,
                    remembered_caret_utf16: None,
                };
            }
            state.clone()
        },
    }
}

// ---- laws of editing ----

/// Replacing a range keeps what stands before and behind it, and leaves the caret
/// between the two, at the end of what was put in.
pub proof fn law_replace_leaves_caret_after_text(s: Seq<char>, a: int, b: int, text: Seq<char>)
    requires
        0 <= a,
        0 <= b,
        is_utf16_boundary(s, min_of(a, b)),
    ensures
        ({
            let r = replaced(s, a, b, text);
            let end = a + b - min_of(a, b);
            &&& 0 <= r.1 <= utf16_len(r.0)
            &&& is_utf16_boundary(r.0, r.1)
            &&& head_at_utf16(r.0, r.1) == head_at_utf16(s, min_of(a, b)) + text
            &&& tail_at_utf16(r.0, r.1) == tail_at_utf16(s, end)
        }),
{
    let start = min_of(a, b);
    let end = a + b - start;
    lemma_chars_in_utf16(s, start);
    let head = head_at_utf16(s, start);
    lemma_utf16_concat(head, text);
    lemma_cut(head + text, tail_at_utf16(s, end));
}

/// Every edit keeps the caret inside the text and between two characters, if it
/// starts there. For a replaced range, that is asked of where the range begins.
pub proof fn law_caret_stays_in_text(state: EditorState, intent: EditorIntent)
    requires
        is_utf16_boundary(state.text@, state.caret_utf16 as int),
        state.caret_utf16 <= utf16_len(state.text@),
        intent matches EditorIntent::ReplaceRange { start_utf16, end_utf16, .. }
            ==> is_utf16_boundary(state.text@, min_of(start_utf16 as int, end_utf16 as int)),
        intent matches EditorIntent::SetCaret(c) ==> is_utf16_boundary(
            state.text@,
            min_of(c as int, utf16_len(state.text@) as int),
        ),
    ensures
        0 <= reduced(state, intent).1 <= utf16_len(reduced(state, intent).0),
        is_utf16_boundary(reduced(state, intent).0, reduced(state, intent).1),
{
    let s = state.text@;
    let caret = state.caret_utf16 as int;
    let k = chars_in_utf16(s, caret) as int;
    lemma_chars_in_utf16(s, caret);
    assert(s.take(s.len() as int) =~= s);
    lemma_offset_of_char(s, s.len() as int);
    match intent {
        EditorIntent::ReplaceRange { start_utf16, end_utf16, text } => {
            law_replace_leaves_caret_after_text(s, start_utf16 as int, end_utf16 as int, text@);
        },
        EditorIntent::InsertText(t) => {
            law_replace_leaves_caret_after_text(s, caret, caret, t@);
        },
        EditorIntent::Backspace => {
            if caret > 0 {
                assert(k > 0) by {
                    assert(s.take(0) =~= Seq::<char>::empty());
                }
                lemma_cut(s.take(k - 1), s.skip(k));
            }
        },
        EditorIntent::Delete => {
            if caret < utf16_len(s) {
                lemma_cut(s.take(k), s.skip(k + 1));
            }
        },
        EditorIntent::Enter { shift } => {
            law_replace_leaves_caret_after_text(s, caret, caret, seq!['\n']);
        },
        EditorIntent::SetCaret(c) => {},
    }
}

/// Typing puts text in at the caret. Enter types a line end with Shift or below the first
/// line, and else leaves all as it is. Putting the caret somewhere changes no text and
/// keeps it from going behind the end.
pub proof fn law_typing_is_replacing_nothing(state: EditorState, text: String, shift: bool, to: u32)
    ensures
        ({
            let at = state.caret_utf16;
            let replacing = EditorIntent::ReplaceRange { start_utf16: at, end_utf16: at, text };
            let typed = reduced(state, EditorIntent::InsertText(text));
            let entered = reduced(state, EditorIntent::Enter { shift });
            let moved = reduced(state, EditorIntent::SetCaret(to));
            let first_line = !head_at_utf16(state.text@, at as int).contains('\n');
            &&& typed == reduced(state, replacing)
            &&& text@ == seq!['\n'] && (shift || !first_line) ==> entered == typed
            &&& !shift && first_line ==> entered == (
                state.text@,
                at as int,
                state.remembered_caret_utf16,
            )
            &&& moved.0 == state.text@ && moved.2 == state.remembered_caret_utf16
            &&& to <= utf16_len(state.text@) ==> moved.1 == to
            &&& to > utf16_len(state.text@) ==> moved.1 == utf16_len(state.text@)
        }),
{
    lemma_several_lines(head_at_utf16(state.text@, state.caret_utf16 as int));
}

/// A text has several lines exactly if it holds a line end.
pub proof fn lemma_several_lines(s: Seq<char>)
    ensures
        split_lines(s).len() > 1 <==> s.contains('\n'),
    decreases s.len(),
{
    lemma_split_lines_nonempty(s);
    if s.len() > 0 {
        let p = s.drop_last();
        lemma_several_lines(p);
        lemma_split_lines_nonempty(p);
        if s.last() == '\n' {
            assert(s[s.len() - 1] == '\n');
        } else if p.contains('\n') {
            let i = choose|i: int| 0 <= i < p.len() && p[i] == '\n';
            assert(s[i] == '\n');
        } else if s.contains('\n') {
            let i = choose|i: int| 0 <= i < s.len() && s[i] == '\n';
            assert(p[i] == '\n');
        }
    }
}

/// At the start of a text there is nothing to take out before the caret, and at its end
/// nothing behind it. A caret that is behind the end goes there, and one that cuts a
/// character goes before it.
pub proof fn law_nothing_to_delete_at_the_ends(s: Seq<char>, caret: int)
    requires
        0 <= caret,
    ensures
        deleted_backward(s, 0) == (s, 0int),
        caret > utf16_len(s) ==> deleted_backward(s, caret) == (s, utf16_len(s) as int),
        caret >= utf16_len(s) ==> deleted_forward(s, caret) == (s, utf16_len(s) as int),
        0 < caret <= utf16_len(s) && !is_utf16_boundary(s, caret) ==> deleted_backward(s, caret)
            == (s, utf16_len(head_at_utf16(s, caret)) as int),
        caret < utf16_len(s) ==> deleted_forward(s, caret).1 == caret,
{
}

/// Backspace takes back the insertion of one character.
pub proof fn law_backspace_undoes_insert(s: Seq<char>, caret: int, c: char)
    requires
        0 <= caret,
        is_utf16_boundary(s, caret),
    ensures
        ({
            let typed = replaced(s, caret, caret, seq![c]);
            deleted_backward(typed.0, typed.1) == (s, caret)
        }),
{
    let head = head_at_utf16(s, caret);
    let tail = tail_at_utf16(s, caret);
    let typed = replaced(s, caret, caret, seq![c]);
    lemma_chars_in_utf16(s, caret);
    assert(head + seq![c] =~= head.push(c));
    lemma_utf16_push(head, c);
    lemma_utf16_push(Seq::<char>::empty(), c);
    assert(Seq::<char>::empty().push(c) =~= seq![c]);
    lemma_cut(head.push(c), tail);
    let k = head.len() as int + 1;
    assert(typed.0.take(k - 1) =~= head);
    assert(typed.0.skip(k) =~= tail);
    assert(head + tail =~= s);
}

/// Delete does what moving the caret over the next character and Backspace do.
pub proof fn law_delete_is_backspace_from_behind(s: Seq<char>, caret: int)
    requires
        0 <= caret < utf16_len(s),
        is_utf16_boundary(s, caret),
    ensures
        ({
            let k = chars_in_utf16(s, caret) as int;
            &&& k < s.len()
            &&& deleted_forward(s, caret) == deleted_backward(s, utf16_len(s.take(k + 1)) as int)
        }),
{
    let k = chars_in_utf16(s, caret) as int;
    lemma_chars_in_utf16(s, caret);
    assert(s.take(s.len() as int) =~= s);
    lemma_offset_of_char(s, k + 1);
    lemma_prefix_lens_grow(s, k + 1, s.len() as int);
    lemma_utf16_take_next(s, k);
}

/// A replacement is taken back by putting the old text where the new one stands.
pub proof fn law_replace_can_be_undone(s: Seq<char>, a: int, b: int, text: Seq<char>)
    requires
        0 <= a <= b,
        is_utf16_boundary(s, a),
        is_utf16_boundary(s, b),
    ensures
        ({
            let done = replaced(s, a, b, text);
            let old_text = s.subrange(
                chars_in_utf16(s, a) as int,
                chars_in_utf16(s, b) as int,
            );
            &&& chars_in_utf16(s, a) <= chars_in_utf16(s, b)
            &&& replaced(done.0, a, done.1, old_text) == (s, b)
        }),
{
    let ka = chars_in_utf16(s, a) as int;
    let kb = chars_in_utf16(s, b) as int;
    lemma_chars_in_utf16(s, a);
    lemma_chars_in_utf16(s, b);
    if kb < ka {
        lemma_prefix_lens_grow(s, kb, ka);
    }
    let head = s.take(ka);
    let old_text = s.subrange(ka, kb);
    let tail = s.skip(kb);
    assert(head + old_text + tail =~= s);
    assert(head + old_text =~= s.take(kb));
    lemma_replaced_parts(head, old_text, tail, text);
    lemma_replaced_parts(head, text, tail, old_text);
}

/// Replacing the middle of three parts.
proof fn lemma_replaced_parts(
    head: Seq<char>,
    mid: Seq<char>,
    tail: Seq<char>,
    text: Seq<char>,
)
    ensures
        utf16_len(head + mid) == utf16_len(head) + utf16_len(mid),
        replaced(
            head + mid + tail,
            utf16_len(head) as int,
            utf16_len(head) + utf16_len(mid) as int,
            text,
        ) == (head + text + tail, utf16_len(head) + utf16_len(text) as int),
{
    lemma_utf16_concat(head, mid);
    lemma_cut(head, mid + tail);
    assert(head + (mid + tail) =~= head + mid + tail);
    lemma_cut(head + mid, tail);
}

/// What Enter does.
#[derive(Debug, Clone, Copy, PartialEq, Eq, Structural)]
pub enum EnterAction {
    SplitNav,
    InsertSoftBreak,
}

/// Where Enter was pressed.
#[derive(Debug, Clone, Copy, PartialEq, Eq, Structural)]
pub struct EnterContext {
    pub is_shift_pressed: bool,
    pub has_multiline_context: bool,
    pub caret_on_first_line: bool,
    pub caret_in_first_line_end_zone: bool,
    pub has_remembered_return_caret: bool,
}

/// Enter starts a new line with Shift, or below the first line of a text of several
/// lines. Elsewhere it splits the row.
pub fn decide_enter_action(ctx: EnterContext) -> (r: EnterAction)
    ensures
        r == (if ctx.is_shift_pressed || (ctx.has_multiline_context && !ctx.caret_on_first_line) {
            EnterAction::InsertSoftBreak
        } else {
            EnterAction::SplitNav
        }),
{
    if ctx.is_shift_pressed {
        return EnterAction::InsertSoftBreak;
    }
    if ctx.has_multiline_context && !ctx.caret_on_first_line {
        EnterAction::InsertSoftBreak
    } else {
        EnterAction::SplitNav
    }
}

// ---- atoms ----

/// A piece of an editable element's content.
#[derive(Debug, PartialEq, Eq)]
pub enum EditorAtom {
    Text(String),
    SoftBreak,
    PlaceholderBreak,
}

/// The text that an atom stands for. A placeholder stands for none.
pub open spec fn atom_text(atom: EditorAtom) -> Seq<char> {
    match atom {
        EditorAtom::Text(s) => normalized(s@),
        EditorAtom::SoftBreak => seq!['\n'],
        EditorAtom::PlaceholderBreak => Seq::empty(),
    }
}

/// The text that atoms stand for, in order.
pub open spec fn atoms_text(atoms: Seq<EditorAtom>) -> Seq<char>
    decreases atoms.len(),
{
    if atoms.len() == 0 {
        Seq::empty()
    } else {
        atoms_text(atoms.drop_last()) + atom_text(atoms.last())
    }
}

fn atom_prefix_text(atoms: &[EditorAtom], end: usize) -> (r: String)
    requires
        end <= atoms@.len(),
    ensures
        r@ == atoms_text(atoms@.take(end as int)),
{
    let mut out = String::new();
    let mut i: usize = 0;
    while i < end
        invariant
            i <= end <= atoms@.len(),
            out@ == atoms_text(atoms@.take(i as int)),
        decreases end - i,
    {
        proof {
            assert(atoms@.take(i + 1).drop_last() =~= atoms@.take(i as int));
            assert(atoms@.take(i + 1).last() == atoms@[i as int]);
        }
        match &atoms[i] {
            EditorAtom::Text(s) => {
                let t = normalize_editor_text_for_persist(s.as_str());
                out.append(t.as_str());
            },
            EditorAtom::SoftBreak => {
                out.push('\n');
            },
            EditorAtom::PlaceholderBreak => {
                assert(out@ + Seq::<char>::empty() =~= out@);
            },
        }
        i = i + 1;
    }
    out
}

/// The text of an editable element as it is stored.
pub fn serialize_editor_atoms_for_persist(atoms: &[EditorAtom]) -> (r: String)
    ensures
        r@ == atoms_text(atoms@),
{
    let mut end: usize = atoms.len();
    assert(atoms@.take(end as int) =~= atoms@);
    while end > 0 && matches!(atoms[end - 1], EditorAtom::PlaceholderBreak)
        invariant
            end <= atoms@.len(),
            atoms_text(atoms@.take(end as int)) == atoms_text(atoms@),
        decreases end,
    {
        proof {
            assert(atoms@.take(end as int).drop_last() =~= atoms@.take(end - 1));
            assert(atoms_text(atoms@.take(end - 1)) + Seq::<char>::empty() =~= atoms_text(
                atoms@.take(end - 1),
            ));
        }
        end = end - 1;
    }
    atom_prefix_text(atoms, end)
}

/// The text of an editable element as it is shown.
pub fn serialize_editor_atoms_for_view(atoms: &[EditorAtom]) -> (r: String)
    ensures
        r@ == atoms_text(atoms@),
{
    assert(atoms@.take(atoms@.len() as int) =~= atoms@);
    atom_prefix_text(atoms, atoms.len())
}

} // verus!
