//! Visual lines: where a text is broken into the rows that are shown.

use crate::text::{
    char_len_utf8, chars_in_utf8_of, from_chars, split_lines_of, to_chars, utf16_len_range,
};
use vstd::prelude::*;

verus! {

use crate::text::{
    chars_in_utf8, is_utf8_boundary, is_white_space, lemma_chars_in_utf8, lemma_lines_text_grows,
    lemma_lines_text_whole, lemma_offset_of_char, lemma_split_lines_nonempty, lemma_utf16_concat,
    lemma_utf16_push, lemma_utf16_split, lemma_utf8_push, lines_text, min_of, split_lines,
    utf16_len, utf8_len, utf8_width,
};

// ---- where a line is wrapped ----

/// Whether a line may be broken behind a character.
pub open spec fn breakable(c: char) -> bool {
    is_white_space(c) || c == '-' || c == '/' || c == '_' || c == '.' || c == ',' || c == ';' || c
        == ':'
}

/// Whether a line may be broken behind a character.
pub fn is_breakable(ch: char) -> (r: bool)
    ensures
        r == breakable(ch),
{
    ch.is_whitespace() || ch == '-' || ch == '/' || ch == '_' || ch == '.' || ch == ',' || ch == ';'
        || ch == ':'
}

/// What a character did to the row that it was laid out on.
#[derive(Debug, Clone, Copy, PartialEq, Eq, Structural)]
pub enum WrapStep {
    /// The row goes on with the character.
    Grow,
    /// The row ends at its last breakable place. The character goes on the next row,
    /// with what followed that place.
    BreakAtLast,
    /// The row ends before the character, which begins the next row.
    CutBefore,
}

/// A line that is being wrapped, character by character.
#[derive(Debug, PartialEq, Eq)]
pub struct SoftWrap {
    pub breaks: Vec<usize>,
    pub chunk_start: usize,
    pub last_breakable: Option<usize>,
    pub at: usize,
}

/// The state of a `SoftWrap` in unbounded numbers.
pub struct WrapView {
    /// The byte offsets at which rows end.
    pub breaks: Seq<int>,
    /// The byte offset at which the current row begins.
    pub chunk_start: int,
    /// The byte offset behind the last breakable character of the current row.
    pub last_breakable: Option<int>,
    /// The bytes laid out so far.
    pub at: int,
}

impl View for SoftWrap {
    type V = WrapView;

    open spec fn view(&self) -> WrapView {
        WrapView {
            breaks: Seq::new(self.breaks@.len(), |i: int| self.breaks@[i] as int),
            chunk_start: self.chunk_start as int,
            last_breakable: match self.last_breakable {
                Some(b) => Some(b as int),
                None => None,
            },
            at: self.at as int,
        }
    }
}

/// A line of which nothing is laid out yet.
pub open spec fn wrap_start() -> WrapView {
    WrapView { breaks: Seq::empty(), chunk_start: 0, last_breakable: None, at: 0 }
}

/// What laying out one more character does, given whether the row would overflow
/// with it.
pub open spec fn wrap_step(w: WrapView, ch: char, overflows: bool) -> (WrapView, WrapStep) {
    let end = w.at + utf8_width(ch);
    if overflows && w.last_breakable is Some && w.last_breakable->0 > w.chunk_start {
        let b = w.last_breakable->0;
        (
            WrapView { breaks: w.breaks.push(b), chunk_start: b, last_breakable: None, at: end },
            WrapStep::BreakAtLast,
        )
    } else if overflows && w.at > w.chunk_start {
        (
            WrapView {
                breaks: w.breaks.push(w.at),
                chunk_start: w.at,
                last_breakable: if breakable(ch) {
                    Some(end)
                } else {
                    None
                },
                at: end,
            },
            WrapStep::CutBefore,
        )
    } else {
        (
            WrapView {
                breaks: w.breaks,
                chunk_start: w.chunk_start,
                last_breakable: if breakable(ch) {
                    Some(end)
                } else {
                    w.last_breakable
                },
                at: end,
            },
            WrapStep::Grow,
        )
    }
}

/// The state once all characters of a line are laid out, where `overflows` tells for
/// each whether its row would have overflown with it.
pub open spec fn wrapped(line: Seq<char>, overflows: Seq<bool>) -> WrapView
    decreases line.len(),
{
    if line.len() == 0 {
        wrap_start()
    } else {
        let k = line.len() - 1;
        wrap_step(wrapped(line.drop_last(), overflows), line.last(), overflows[k]).0
    }
}

impl SoftWrap {
    /// Starts a line.
    pub fn new() -> (r: Self)
        ensures
            r@ == wrap_start(),
    {
        let r = SoftWrap { breaks: Vec::new(), chunk_start: 0, last_breakable: None, at: 0 };
        assert(r@.breaks =~= Seq::<int>::empty());
        r
    }

    /// Lays out one more character, given whether its row would overflow with it.
    pub fn step(&mut self, ch: char, overflows: bool) -> (r: WrapStep)
        requires
            old(self).at + utf8_width(ch) <= usize::MAX,
        ensures
            final(self)@ == wrap_step(old(self)@, ch, overflows).0,
            r == wrap_step(old(self)@, ch, overflows).1,
    {
        let end: usize = self.at + char_len_utf8(ch);
        let ghost before = self@;
        if overflows {
            if let Some(b) = self.last_breakable {
                if b > self.chunk_start {
                    self.breaks.push(b);
                    self.chunk_start = b;
                    self.last_breakable = None;
                    self.at = end;
                    assert(self@.breaks =~= before.breaks.push(b as int));
                    return WrapStep::BreakAtLast;
                }
            }
            if self.at > self.chunk_start {
                let at: usize = self.at;
                self.breaks.push(at);
                self.chunk_start = at;
                self.last_breakable = if is_breakable(ch) {
                    Some(end)
                } else {
                    None
                };
                self.at = end;
                assert(self@.breaks =~= before.breaks.push(at as int));
                return WrapStep::CutBefore;
            }
        }
        self.at = end;
        if is_breakable(ch) {
            self.last_breakable = Some(end);
        }
        assert(self@.breaks =~= before.breaks);
        WrapStep::Grow
    }
}

/// Whether a state is one of a line of which `line` is laid out: its breaks lie
/// between two characters, inside the line, one behind the other.
pub open spec fn wrap_wf(w: WrapView, line: Seq<char>) -> bool {
    &&& w.at == utf8_len(line)
    &&& 0 <= w.chunk_start <= w.at
    &&& is_utf8_boundary(line, w.chunk_start)
    &&& w.last_breakable matches Some(b) ==> w.chunk_start < b <= w.at && is_utf8_boundary(line, b)
    &&& line.len() > 0 ==> w.chunk_start < w.at
    &&& forall|i: int|
        0 <= i < w.breaks.len() ==> 0 < #[trigger] w.breaks[i] <= w.chunk_start && w.breaks[i]
            < utf8_len(line) && is_utf8_boundary(line, w.breaks[i])
    &&& forall|i: int, j: int| 0 <= i < j < w.breaks.len() ==> w.breaks[i] < w.breaks[j]
}

proof fn lemma_boundary_push(line: Seq<char>, c: char, b: int)
    requires
        0 <= b,
        is_utf8_boundary(line, b),
    ensures
        is_utf8_boundary(line.push(c), b),
{
    lemma_chars_in_utf8(line, b);
    let k = chars_in_utf8(line, b) as int;
    assert(line.push(c).take(k) =~= line.take(k));
    lemma_offset_of_char(line.push(c), k);
}

/// Whatever is said of which rows overflow, a line is broken between characters, each
/// break behind the one before, and no row is empty.
pub proof fn law_wrap_breaks_cut_the_line(line: Seq<char>, overflows: Seq<bool>)
    ensures
        wrap_wf(wrapped(line, overflows), line),
    decreases line.len(),
{
    if line.len() == 0 {
        assert(line.take(0) =~= line);
        lemma_offset_of_char(line, 0);
    } else {
        let p = line.drop_last();
        let c = line.last();
        law_wrap_breaks_cut_the_line(p, overflows);
        assert(p.push(c) =~= line);
        let w = wrapped(p, overflows);
        let w2 = wrapped(line, overflows);
        lemma_utf8_push(p, c);
        lemma_boundary_push(p, c, w.chunk_start);
        if let Some(b) = w.last_breakable {
            lemma_boundary_push(p, c, b);
        }
        assert(p.take(p.len() as int) =~= p);
        lemma_offset_of_char(p, p.len() as int);
        lemma_boundary_push(p, c, w.at);
        assert(line.take(line.len() as int) =~= line);
        lemma_offset_of_char(line, line.len() as int);
        assert forall|i: int| 0 <= i < w2.breaks.len() implies 0 < #[trigger] w2.breaks[i]
            <= w2.chunk_start && w2.breaks[i] < utf8_len(line) && is_utf8_boundary(
            line,
            w2.breaks[i],
        ) by {
            if i < w.breaks.len() {
                assert(w2.breaks[i] == w.breaks[i]);
                lemma_boundary_push(p, c, w.breaks[i]);
            }
        }
    }
}

/// A row ends only where the next character would overflow it. It then ends behind the
/// last place at which it may be broken, if it has one, and else right before that
/// character. It has no such place until a character is laid out behind which it may be
/// broken, and a later such place takes over from an earlier one.
pub proof fn law_rows_end_where_they_overflow(w: WrapView, ch: char, overflows: bool)
    requires
        0 <= w.chunk_start <= w.at,
        w.last_breakable matches Some(b) ==> w.chunk_start < b,
    ensures
        ({
            let (next, step) = wrap_step(w, ch, overflows);
            let end = w.at + utf8_width(ch);
            &&& next.at == end
            &&& !overflows ==> step is Grow
            &&& step is Grow <==> next.breaks == w.breaks
            &&& step is Grow ==> next.chunk_start == w.chunk_start
            &&& overflows && w.at > w.chunk_start ==> next.breaks == w.breaks.push(
                match w.last_breakable {
                    Some(b) => b,
                    None => w.at,
                },
            ) && next.chunk_start == next.breaks.last()
            &&& step is BreakAtLast ==> w.last_breakable is Some && next.last_breakable is None
            &&& step is CutBefore ==> w.last_breakable is None
            &&& step is Grow && (is_white_space(ch) || ch == '-' || ch == '/' || ch == '_' || ch
                == '.' || ch == ',' || ch == ';' || ch == ':') ==> next.last_breakable == Some(end)
            &&& step is Grow && !(is_white_space(ch) || ch == '-' || ch == '/' || ch == '_' || ch
                == '.' || ch == ',' || ch == ';' || ch == ':') ==> next.last_breakable
                == w.last_breakable
            &&& step is CutBefore && !(is_white_space(ch) || ch == '-' || ch == '/' || ch == '_'
                || ch == '.' || ch == ',' || ch == ';' || ch == ':') ==> next.last_breakable is None
            &&& step is CutBefore && (is_white_space(ch) || ch == '-' || ch == '/' || ch == '_'
                || ch == '.' || ch == ',' || ch == ';' || ch == ':') ==> next.last_breakable
                == Some(end)
        }),
{
    let next = wrap_step(w, ch, overflows).0;
    if next.breaks.len() != w.breaks.len() {
        assert(next.breaks != w.breaks);
    }
}

// ---- the rows of a text ----

/// A row of a text as it is shown.
#[derive(Debug, PartialEq, Eq)]
pub struct VisualLine {
    pub text: String,
    pub start_utf16: u32,
    pub len_utf16: u32,
    pub hard_break_after: bool,
}

/// What a row holds.
#[verifier::ext_equal]
pub struct RowView {
    pub text: Seq<char>,
    pub start: int,
    pub len: int,
    pub hard_break_after: bool,
}

impl View for VisualLine {
    type V = RowView;

    open spec fn view(&self) -> RowView {
        RowView {
            text: self.text@,
            start: self.start_utf16 as int,
            len: self.len_utf16 as int,
            hard_break_after: self.hard_break_after,
        }
    }
}

/// What rows hold.
pub open spec fn row_views(rows: Seq<VisualLine>) -> Seq<RowView> {
    Seq::new(rows.len(), |i: int| rows[i]@)
}

/// The text that rows show, with a newline behind each row that ends in one.
pub open spec fn rows_text(rows: Seq<RowView>) -> Seq<char>
    decreases rows.len(),
{
    if rows.len() == 0 {
        Seq::empty()
    } else {
        let before = rows_text(rows.drop_last()) + rows.last().text;
        if rows.last().hard_break_after {
            before.push('\n')
        } else {
            before
        }
    }
}

/// One more row, which begins where the text of the rows before it ends.
pub open spec fn with_row(rows: Seq<RowView>, text: Seq<char>, hard: bool) -> Seq<RowView> {
    rows.push(
        RowView {
            text,
            start: utf16_len(rows_text(rows)) as int,
            len: utf16_len(text) as int,
            hard_break_after: hard,
        },
    )
}

/// The rows once a line has been cut at byte offsets, except for the last, and the
/// number of the line's characters that they hold. A cut that is not behind the one
/// before it counts for nothing.
pub open spec fn cut_rows(rows: Seq<RowView>, line: Seq<char>, cuts: Seq<usize>) -> (
    Seq<RowView>,
    int,
)
    decreases cuts.len(),
{
    if cuts.len() == 0 {
        (rows, 0)
    } else {
        let (done, at) = cut_rows(rows, line, cuts.drop_last());
        let k = chars_in_utf8(line, cuts.last() as int) as int;
        if k <= at {
            (done, at)
        } else {
            (with_row(done, line.subrange(at, k), false), k)
        }
    }
}

/// The rows once a whole line has been cut at byte offsets.
pub open spec fn line_rows(
    rows: Seq<RowView>,
    line: Seq<char>,
    cuts: Seq<usize>,
    hard: bool,
) -> Seq<RowView> {
    let (done, at) = cut_rows(rows, line, cuts);
    with_row(done, line.skip(at), hard)
}

/// The rows of the first `k` lines.
pub open spec fn visual_rows(lines: Seq<Seq<char>>, cuts: Seq<Seq<usize>>, k: int) -> Seq<RowView>
    decreases k,
{
    if k <= 0 {
        Seq::empty()
    } else {
        line_rows(visual_rows(lines, cuts, k - 1), lines[k - 1], cuts[k - 1], k < lines.len())
    }
}

proof fn lemma_with_row_text(rows: Seq<RowView>, text: Seq<char>, hard: bool)
    ensures
        rows_text(with_row(rows, text, hard)) == if hard {
            (rows_text(rows) + text).push('\n')
        } else {
            rows_text(rows) + text
        },
{
    let r = with_row(rows, text, hard);
    assert(r.drop_last() =~= rows);
    assert(r.last().text == text);
}

/// Whether rows begin where the text of those before them ends, and are as long as
/// what they show.
pub open spec fn rows_wf(rows: Seq<RowView>) -> bool {
    forall|i: int|
        0 <= i < rows.len() ==> (#[trigger] rows[i]).start == utf16_len(rows_text(rows.take(i)))
            && rows[i].len == utf16_len(rows[i].text)
}

proof fn lemma_with_row_wf(rows: Seq<RowView>, text: Seq<char>, hard: bool)
    requires
        rows_wf(rows),
    ensures
        rows_wf(with_row(rows, text, hard)),
{
    let r = with_row(rows, text, hard);
    assert forall|i: int| 0 <= i < r.len() implies (#[trigger] r[i]).start == utf16_len(
        rows_text(r.take(i)),
    ) && r[i].len == utf16_len(r[i].text) by {
        if i < rows.len() {
            assert(r.take(i) =~= rows.take(i));
            assert(r[i] == rows[i]);
        } else {
            assert(r.take(i) =~= rows);
        }
    }
}

proof fn lemma_cut_rows(rows: Seq<RowView>, line: Seq<char>, cuts: Seq<usize>)
    requires
        rows_wf(rows),
    ensures
        ({
            let (done, at) = cut_rows(rows, line, cuts);
            &&& 0 <= at <= line.len()
            &&& rows_text(done) == rows_text(rows) + line.take(at)
            &&& rows_wf(done)
        }),
    decreases cuts.len(),
{
    if cuts.len() == 0 {
        assert(rows_text(rows) + line.take(0) =~= rows_text(rows));
    } else {
        lemma_cut_rows(rows, line, cuts.drop_last());
        let (done, at) = cut_rows(rows, line, cuts.drop_last());
        let k = chars_in_utf8(line, cuts.last() as int) as int;
        lemma_chars_in_utf8(line, cuts.last() as int);
        if k > at {
            lemma_with_row_text(done, line.subrange(at, k), false);
            lemma_with_row_wf(done, line.subrange(at, k), false);
            assert(line.take(at) + line.subrange(at, k) =~= line.take(k));
            assert(rows_text(rows) + line.take(at) + line.subrange(at, k) =~= rows_text(rows)
                + line.take(k));
        }
    }
}

proof fn lemma_visual_rows(lines: Seq<Seq<char>>, cuts: Seq<Seq<usize>>, k: int)
    requires
        0 <= k <= lines.len(),
    ensures
        rows_text(visual_rows(lines, cuts, k)) == lines_text(lines, k),
        rows_wf(visual_rows(lines, cuts, k)),
    decreases k,
{
    if k > 0 {
        lemma_visual_rows(lines, cuts, k - 1);
        let rows = visual_rows(lines, cuts, k - 1);
        let line = lines[k - 1];
        lemma_cut_rows(rows, line, cuts[k - 1]);
        let (done, at) = cut_rows(rows, line, cuts[k - 1]);
        lemma_with_row_text(done, line.skip(at), k < lines.len());
        lemma_with_row_wf(done, line.skip(at), k < lines.len());
        assert(rows_text(rows) + line.take(at) + line.skip(at) =~= rows_text(rows) + line);
    }
}

/// The rows of a text show all of it and nothing else, in order, and each knows
/// where in the text it begins and how long it is, wherever the lines are cut.
pub proof fn law_rows_show_the_text(s: Seq<char>, cuts: Seq<Seq<usize>>)
    ensures
        ({
            let rows = visual_rows(split_lines(s), cuts, split_lines(s).len() as int);
            &&& rows_text(rows) == s
            &&& rows_wf(rows)
            &&& rows.len() >= 1
            &&& !rows.last().hard_break_after
        }),
{
    lemma_split_lines_nonempty(s);
    lemma_visual_rows(split_lines(s), cuts, split_lines(s).len() as int);
    lemma_lines_text_whole(s);
}

/// The cuts of lines, as sequences.
pub open spec fn cut_views(cuts: Seq<Vec<usize>>) -> Seq<Seq<usize>> {
    Seq::new(cuts.len(), |i: int| cuts[i]@)
}

/// Whether every cut of a line lies between two characters.
pub open spec fn cuts_fit(line: Seq<char>, cuts: Seq<usize>) -> bool {
    forall|i: int|
        0 <= i < cuts.len() ==> is_utf8_boundary(
            line,
            min_of(#[trigger] cuts[i] as int, utf8_len(line) as int),
        )
}

/// Appends the rows of one line, which begins at `cursor` in the text.
fn push_line_rows(
    rows: &mut Vec<VisualLine>,
    line: &[char],
    cuts: &[usize],
    hard: bool,
    cursor: u32,
)
    requires
        rows_wf(row_views(old(rows)@)),
        cursor == utf16_len(rows_text(row_views(old(rows)@))),
        cursor + utf16_len(line@) <= u32::MAX,
        cuts_fit(line@, cuts@),
    ensures
        row_views(final(rows)@) == line_rows(row_views(old(rows)@), line@, cuts@, hard),
{
    let ghost start = row_views(rows@);
    let ghost text0 = rows_text(start);
    let mut at: usize = 0;
    let mut pos: u32 = cursor;
    let mut i: usize = 0;
    proof {
        assert(cuts@.take(0) =~= Seq::<usize>::empty());
        lemma_cut_rows(start, line@, cuts@.take(0));
        assert(line@.take(0) =~= Seq::<char>::empty());
    }
    while i < cuts.len()
        invariant
            i <= cuts@.len(),
            rows_wf(start),
            text0 == rows_text(start),
            cursor == utf16_len(text0),
            cursor + utf16_len(line@) <= u32::MAX,
            (row_views(rows@), at as int) == cut_rows(start, line@, cuts@.take(i as int)),
            at <= line@.len(),
            pos == cursor + utf16_len(line@.take(at as int)),
            rows_text(row_views(rows@)) == text0 + line@.take(at as int),
        decreases cuts@.len() - i,
    {
        let cut: usize = cuts[i];
        let k: usize = chars_in_utf8_of(line, cut);
        proof {
            let next = cuts@.take(i + 1);
            assert(next.drop_last() =~= cuts@.take(i as int));
            assert(next.last() == cut);
            lemma_cut_rows(start, line@, next);
        }
        if k > at {
            let chunk = from_chars(line, at, k);
            let len: u32 = utf16_len_range(line, at, k);
            let ghost before = row_views(rows@);
            proof {
                lemma_utf16_concat(text0, line@.take(at as int));
                assert(line@.take(k as int) =~= line@.take(at as int) + line@.subrange(
                    at as int,
                    k as int,
                ));
                lemma_utf16_concat(line@.take(at as int), line@.subrange(at as int, k as int));
                lemma_utf16_split(line@, k as int);
            }
            rows.push(
                VisualLine { text: chunk, start_utf16: pos, len_utf16: len, hard_break_after: false },
            );
            proof {
                assert(row_views(rows@) =~= with_row(
                    before,
                    line@.subrange(at as int, k as int),
                    false,
                ));
            }
            pos = pos + len;
            at = k;
        }
        i = i + 1;
    }
    proof {
        assert(cuts@.take(i as int) =~= cuts@);
        lemma_utf16_concat(text0, line@.take(at as int));
        assert(line@.subrange(at as int, line@.len() as int) =~= line@.skip(at as int));
    }
    let tail = from_chars(line, at, line.len());
    let tail_len: u32 = utf16_len_range(line, at, line.len());
    let ghost before = row_views(rows@);
    rows.push(
        VisualLine {
            text: tail,
            start_utf16: pos,
            len_utf16: tail_len,
            hard_break_after: hard,
        },
    );
    assert(row_views(rows@) =~= with_row(before, line@.skip(at as int), hard));
}

/// The rows of a text, whose lines are cut at the given byte offsets.
pub fn build_visual_lines(text: &str, cuts: &[Vec<usize>]) -> (r: Vec<VisualLine>)
    requires
        utf16_len(text@) <= u32::MAX,
        cuts@.len() == split_lines(text@).len(),
        forall|i: int|
            0 <= i < cuts@.len() ==> cuts_fit(split_lines(text@)[i], (#[trigger] cuts@[i])@),
    ensures
        row_views(r@) == visual_rows(
            split_lines(text@),
            cut_views(cuts@),
            split_lines(text@).len() as int,
        ),
{
    let chars = to_chars(text);
    let lines = split_lines_of(chars.as_slice());
    let ghost ls = split_lines(text@);
    let ghost cs = cut_views(cuts@);
    let n: usize = lines.len();
    let mut rows: Vec<VisualLine> = Vec::new();
    let mut cursor: u32 = 0;
    let mut i: usize = 0;
    proof {
        assert(row_views(rows@) =~= visual_rows(ls, cs, 0));
        lemma_lines_text_whole(text@);
    }
    while i < n
        invariant
            i <= n,
            n == lines@.len(),
            n == ls.len(),
            n == cuts@.len(),
            cs == cut_views(cuts@),
            forall|j: int| 0 <= j < n ==> (#[trigger] lines@[j])@ == ls[j],
            forall|j: int| 0 <= j < n ==> cuts_fit(ls[j], (#[trigger] cuts@[j])@),
            row_views(rows@) == visual_rows(ls, cs, i as int),
            cursor == utf16_len(lines_text(ls, i as int)),
            utf16_len(lines_text(ls, n as int)) <= u32::MAX,
        decreases n - i,
    {
        let line: &Vec<char> = &lines[i];
        let hard: bool = i + 1 < n;
        proof {
            assert(line@ == ls[i as int]);
            assert(cs[i as int] == cuts@[i as int]@);
            lemma_visual_rows(ls, cs, i as int);
            lemma_lines_text_grows(ls, i + 1, n as int);
            lemma_utf16_concat(lines_text(ls, i as int), line@);
            lemma_utf16_push(lines_text(ls, i as int) + line@, '\n');
        }
        push_line_rows(&mut rows, line.as_slice(), cuts[i].as_slice(), hard, cursor);
        let len: u32 = {
            assert(utf16_len(line@) <= u32::MAX);
            assert(line@.subrange(0, line@.len() as int) =~= line@);
            utf16_len_range(line.as_slice(), 0, line.len())
        };
        cursor = cursor + len + if hard {
            1
        } else {
            0
        };
        i = i + 1;
    }
    rows
}

} // verus!
