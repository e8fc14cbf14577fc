//! Laws of what a session holds after each step: its rows, the open row and the caret.

use vstd::prelude::*;

verus! {

use crate::editor::edit::{deleted_backward, deleted_forward, lemma_several_lines};
use crate::editor::focus::{focus_target, refocused, trimmed, with_rows};
use crate::editor::moves::{
    jumped, landing, leaves_row, lemma_place_in, line_edge, neighbour, place_in, reordered, replaced_row,
    stepped_away, stepped_left, stepped_right,
};
use crate::editor::placement::left_target;
use crate::editor::rows::{
    content_of, lemma_same_ids, with_content, with_place, without_ids,
};
use crate::editor::selection::{head_at_utf16, tail_at_utf16};
use crate::editor::session::{closed_row, is_changed, ChangeView, SessionView};
use crate::editor::siblings::{children_of, lemma_children_of};
use crate::editor::tree::{may_delete, subtree_ids, top_rows, visible_ids};
use crate::editor::typing::{
    deleted, entered, input_result, new_row, tombstones, without_last_break, without_row,
};
use crate::models::{lemma_nav_index, nav_index, NavView};
use crate::text::{
    is_blank, lemma_chars_in_utf16, lemma_lines_text_whole, lemma_split_join_lines,
    lemma_split_lines_nonempty, lemma_utf16_concat, lines_text, min_of, split_lines,
    utf16_len,
};

// ---- rows and the open row ----

/// Whether rows have the same ids as others and differ from them at most in the rows
/// with a given id.
pub open spec fn others_kept(a: Seq<NavView>, b: Seq<NavView>, id: Seq<char>) -> bool {
    &&& a.len() == b.len()
    &&& forall|i: int|
        0 <= i < a.len() ==> (#[trigger] b[i]).id == a[i].id && (a[i].id != id ==> b[i] == a[i])
}

/// Whether a session has a row open, with a text and the caret at a position, and would
/// tell a change by that text.
pub open spec fn has_open(v: SessionView, id: Seq<char>, text: Seq<char>, caret: int) -> bool {
    &&& v.editing_id == Some(id)
    &&& v.editing_value == text
    &&& v.editing_snapshot == Some((id, text))
    &&& v.target_cursor_col matches Some(c) && c == caret
}

/// Whether a session has the row open that another has, with the same text and caret.
pub open spec fn same_open(v: SessionView, w: SessionView) -> bool {
    &&& v.editing_id == w.editing_id
    &&& v.editing_value == w.editing_value
    &&& v.editing_snapshot == w.editing_snapshot
    &&& v.target_cursor_col == w.target_cursor_col
}

/// Whether the edited text of a session is in a row, and else the rows are as they were.
pub open spec fn saved_to(v: SessionView, navs: Seq<NavView>, id: Seq<char>) -> bool {
    &&& others_kept(v.navs, navs, id)
    &&& nav_index(v.navs, id) matches Some(m) ==> navs[m] == (NavView {
        content: v.editing_value,
        ..v.navs[m]
    })
}

proof fn lemma_saved(v: SessionView, id: Seq<char>)
    ensures
        saved_to(v, with_content(v.navs, id, v.editing_value), id),
        forall|x: Seq<char>|
            nav_index(with_content(v.navs, id, v.editing_value), x) == #[trigger] nav_index(
                v.navs,
                x,
            ),
{
    let w = with_content(v.navs, id, v.editing_value);
    lemma_nav_index(v.navs, id);
    assert forall|x: Seq<char>| nav_index(w, x) == #[trigger] nav_index(v.navs, x) by {
        lemma_same_ids(v.navs, w, x);
    }
}

proof fn lemma_neighbour(ids: Seq<Seq<char>>, i: int, up: bool)
    requires
        ids.no_duplicates(),
        0 <= i < ids.len(),
    ensures
        ({
            let j = if up {
                i - 1
            } else {
                i + 1
            };
            neighbour(ids, ids[i], up) == (if 0 <= j < ids.len() {
                Some(ids[j])
            } else {
                None
            })
        }),
{
    lemma_place_in(ids, ids[i]);
    assert(ids.contains(ids[i]));
    let k = place_in(ids, ids[i])->0;
    assert(ids[k] == ids[i]);
    assert(k == i);
}

// ---- to the row above or below ----

/// Going up or down from a shown row saves the edited text in it and opens the shown row
/// right above or below, with the caret at its start. From the first row up and from the
/// last row down it leads nowhere.
pub proof fn law_jump_opens_the_row_beside(v: SessionView, i: int, up: bool)
    requires
        visible_ids(v.navs).no_duplicates(),
        0 <= i < visible_ids(v.navs).len(),
    ensures
        ({
            let ids = visible_ids(v.navs);
            let r = jumped(v, ids[i], up);
            let j = if up {
                i - 1
            } else {
                i + 1
            };
            &&& saved_to(v, r.navs, ids[i])
            &&& 0 <= j < ids.len() ==> (nav_index(v.navs, ids[j]) matches Some(k) ==> has_open(
                r,
                ids[j],
                v.navs[k].content,
                0,
            ))
            &&& !(0 <= j < ids.len()) ==> same_open(r, v)
        }),
{
    let ids = visible_ids(v.navs);
    lemma_neighbour(ids, i, up);
    lemma_saved(v, ids[i]);
    let j = if up {
        i - 1
    } else {
        i + 1
    };
    if 0 <= j < ids.len() {
        lemma_nav_index(v.navs, ids[j]);
        assert(nav_index(v.navs, ids[j]) == nav_index(v.navs, ids[j]));
        assert(ids[j] != ids[i]);
    }
}

/// An arrow key that leads to another row saves the edited text in the row it leaves and
/// opens the other, with the caret where it comes down.
pub proof fn law_step_opens_the_other_row(
    v: SessionView,
    id: Seq<char>,
    next: Seq<char>,
    up: bool,
    col: int,
)
    requires
        nav_index(v.navs, next) is Some,
        0 <= landing(v.navs[nav_index(v.navs, next)->0].content, up, col) <= u32::MAX,
    ensures
        ({
            let r = stepped_away(v, id, next, up, col);
            let text = v.navs[nav_index(v.navs, next)->0].content;
            &&& saved_to(v, r.navs, id)
            &&& has_open(r, next, text, landing(text, up, col))
        }),
{
    lemma_saved(v, id);
}

proof fn lemma_line_of(text: Seq<char>, line: int)
    requires
        0 <= line < split_lines(text).len(),
    ensures
        !split_lines(text)[line].contains('\n'),
        line == 0 ==> lines_text(split_lines(text), line).len() == 0,
        line > 0 ==> lines_text(split_lines(text), line).len() > 0 && lines_text(
            split_lines(text),
            line,
        ).last() == '\n',
        line + 1 == split_lines(text).len() ==> lines_text(split_lines(text), line)
            + split_lines(text)[line] == text,
{
    lemma_split_join_lines(text);
    lemma_lines_text_whole(text);
}

/// An arrow key up leads out of a row from its first line only, and one down from its last
/// line or from behind it.
pub proof fn law_rows_are_left_at_their_ends(line: u32, total: u32)
    ensures
        leaves_row(true, line, total) <==> line == 0,
        leaves_row(false, line, total) <==> total > 0 && line + 1 >= total,
{
}

/// Where the caret comes down in a row: in its last line when it comes from below, in its
/// first when it comes from above, in the column it had, or at the line's end where the
/// line is shorter.
pub proof fn law_caret_comes_down_in_its_column(text: Seq<char>, col: int)
    requires
        0 <= col,
    ensures
        exists|head: Seq<char>, last: Seq<char>|
            #[trigger] (head + last) == text && !last.contains('\n') && (head.len() == 0
                || head.last() == '\n') && landing(text, true, col) == utf16_len(head) + min_of(
                col,
                utf16_len(last) as int,
            ),
        exists|first: Seq<char>, rest: Seq<char>|
            #[trigger] (first + rest) == text && !first.contains('\n') && (rest.len() == 0
                || rest[0] == '\n') && landing(text, false, col) == min_of(
                col,
                utf16_len(first) as int,
            ),
{
    let lines = split_lines(text);
    lemma_split_lines_nonempty(text);
    let n = lines.len() - 1;
    lemma_line_of(text, n);
    let head = lines_text(lines, n);
    assert(head + lines[n] == text);
    lemma_line_of(text, 0);
    let first = lines[0];
    lemma_first_line(text);
    let rest = text.skip(first.len() as int);
    assert(first + rest =~= text);
    assert(lines_text(lines, 0) =~= Seq::<char>::empty());
}

proof fn lemma_first_line(s: Seq<char>)
    ensures
        split_lines(s).len() >= 1,
        split_lines(s)[0].is_prefix_of(s),
        split_lines(s)[0].len() < s.len() ==> s[split_lines(s)[0].len() as int] == '\n',
        split_lines(s).len() == 1 ==> split_lines(s)[0] == s,
        split_lines(s).len() > 1 ==> split_lines(s)[0].len() < s.len(),
    decreases s.len(),
{
    if s.len() > 0 {
        let p = s.drop_last();
        lemma_first_line(p);
        let q = split_lines(p);
        if s.last() != '\n' && q.len() == 1 {
            assert(q[0].push(s.last()) =~= s);
        }
    }
}

/// Where there is no row to go to, the caret goes to the start of the first line on the
/// way up.
pub proof fn law_line_edge_up_is_the_start(text: Seq<char>)
    ensures
        line_edge(text, true, 0) == 0,
{
    lemma_split_lines_nonempty(text);
    assert(lines_text(split_lines(text), 0) =~= Seq::<char>::empty());
}

/// Where there is no row to go to, the caret goes to the end of the text on the way down
/// from the last line.
pub proof fn law_line_edge_down_is_the_end(text: Seq<char>, line: u32)
    requires
        line + 1 == split_lines(text).len(),
        utf16_len(text) <= u32::MAX,
    ensures
        line_edge(text, false, line) == utf16_len(text),
{
    lemma_line_of(text, line as int);
    lemma_utf16_concat(lines_text(split_lines(text), line as int), split_lines(text)[line as int]);
}

// ---- to the row before or behind ----

/// The left arrow key at the start of a row saves the edited text in it and opens the row
/// to its left with the caret at the end. Without such a row nothing else happens.
pub proof fn law_left_opens_the_row_at_its_end(v: SessionView, id: Seq<char>)
    ensures
        ({
            let r = stepped_left(v, id);
            &&& saved_to(v, r.navs, id)
            &&& left_target(r.navs, id) is None ==> r.editing_id == v.editing_id && r.editing_value
                == v.editing_value && r.editing_snapshot == v.editing_snapshot
                && r.target_cursor_col is None
            &&& left_target(r.navs, id) matches Some(target) ==> (nav_index(
                r.navs,
                target,
            ) matches Some(k) ==> utf16_len(r.navs[k].content) <= u32::MAX ==> has_open(
                r,
                target,
                r.navs[k].content,
                utf16_len(r.navs[k].content) as int,
            ))
        }),
{
    lemma_saved(v, id);
}

/// The right arrow key at the end of a row saves the edited text in it and opens the row
/// to its right with the caret at the start. The row that it leaves is unfolded where
/// that is asked for.
pub proof fn law_right_opens_the_row_at_its_start(
    v: SessionView,
    id: Seq<char>,
    target: Seq<char>,
    open: bool,
)
    requires
        nav_index(v.navs, id) is Some,
        nav_index(v.navs, target) is Some,
    ensures
        ({
            let r = stepped_right(v, id, target, open);
            let m = nav_index(v.navs, id)->0;
            &&& others_kept(v.navs, r.navs, id)
            &&& r.navs[m] == (NavView {
                content: v.editing_value,
                is_display: open || v.navs[m].is_display,
                ..v.navs[m]
            })
            &&& has_open(r, target, v.navs[nav_index(v.navs, target)->0].content, 0)
        }),
{
    lemma_saved(v, id);
    lemma_nav_index(v.navs, id);
    assert(nav_index(v.navs, id) == nav_index(v.navs, id));
}

/// Closing a row that is open leaves no row open and nothing to tell a change by. The rows
/// and the text stay. Closing a row that is not open changes nothing.
pub proof fn law_only_the_open_row_is_closed(v: SessionView, id: Seq<char>)
    ensures
        ({
            let r = closed_row(v, id);
            &&& r.navs == v.navs
            &&& r.editing_value == v.editing_value
            &&& r.target_cursor_col == v.target_cursor_col
            &&& v.editing_id == Some(id) ==> r.editing_id is None && r.editing_snapshot is None
            &&& v.editing_id != Some(id) ==> same_open(r, v)
        }),
{
}

// ---- moving the row ----

/// A row that moves among its siblings gets the edited text and its new number. No other
/// row changes, and the row is open as before.
pub proof fn law_moved_row_stays_open(v: SessionView, id: Seq<char>, order: int)
    requires
        nav_index(v.navs, id) is Some,
    ensures
        ({
            let r = reordered(v, id, order);
            let m = nav_index(v.navs, id)->0;
            &&& others_kept(v.navs, r.navs, id)
            &&& r.navs[m] == (NavView {
                content: v.editing_value,
                same_deep_order: order,
                ..v.navs[m]
            })
            &&& r.editing_id == Some(id)
            &&& r.editing_value == v.editing_value
            &&& r.target_cursor_col == v.target_cursor_col
            &&& !is_changed(r, id, v.editing_value)
        }),
{
    lemma_saved(v, id);
    lemma_nav_index(v.navs, id);
    assert(nav_index(v.navs, id) == nav_index(v.navs, id));
}

/// A row that moves a level down or up gets its new parent and number and is open as
/// before. On the way down the new parent is unfolded. No other row changes.
pub proof fn law_tabbed_row_stays_open(
    v: SessionView,
    id: Seq<char>,
    parid: Seq<char>,
    order: int,
    down: bool,
)
    requires
        nav_index(v.navs, id) is Some,
        parid != id,
    ensures
        ({
            let r = replaced_row(v, id, parid, order, down);
            let m = nav_index(v.navs, id)->0;
            &&& r.navs.len() == v.navs.len()
            &&& r.navs[m] == (NavView { parid, same_deep_order: order, ..v.navs[m] })
            &&& forall|i: int|
                0 <= i < v.navs.len() && i != m ==> (#[trigger] r.navs[i]) == (if down
                    && nav_index(v.navs, parid) == Some(i) {
                    NavView { is_display: true, ..v.navs[i] }
                } else {
                    v.navs[i]
                })
            &&& r.editing_id == Some(id)
            &&& r.editing_value == v.editing_value
            &&& r.target_cursor_col == v.target_cursor_col
            &&& !is_changed(r, id, v.editing_value)
        }),
{
    lemma_nav_index(v.navs, id);
    lemma_nav_index(v.navs, parid);
    let placed = with_place(v.navs, id, parid, order);
    lemma_same_ids(v.navs, placed, parid);
}

// ---- deleting a row ----

/// Deleting a shown row takes it out with all that hangs below it, and opens the shown
/// row right above it, or the one below where there is none above, with the caret at the
/// end of its text.
pub proof fn law_delete_opens_the_row_above(v: SessionView, i: int)
    requires
        visible_ids(v.navs).no_duplicates(),
        0 <= i < visible_ids(v.navs).len(),
    ensures
        ({
            let ids = visible_ids(v.navs);
            let r = without_row(v, ids[i]);
            let j = if i > 0 {
                i - 1
            } else {
                i + 1
            };
            &&& r.navs == without_ids(v.navs, subtree_ids(v.navs, ids[i]))
            &&& ids.len() == 1 ==> r.editing_id is None
            &&& ids.len() > 1 ==> r.editing_id == Some(ids[j])
            &&& ids.len() > 1 ==> (nav_index(v.navs, ids[j]) matches Some(k) ==> r.editing_value
                == v.navs[k].content && (utf16_len(v.navs[k].content) <= u32::MAX ==> (
            r.target_cursor_col matches Some(c) && c == utf16_len(v.navs[k].content))))
        }),
{
    let ids = visible_ids(v.navs);
    lemma_neighbour(ids, i, true);
    lemma_neighbour(ids, i, false);
}

/// A row may be deleted exactly if it has an id, no live row has it as its parent, and it
/// is not the only row at the top.
pub proof fn law_rows_with_children_are_not_deleted(navs: Seq<NavView>, id: Seq<char>)
    ensures
        may_delete(navs, id) <==> !is_blank(id) && (forall|i: int|
            0 <= i < navs.len() && (#[trigger] navs[i]).parid == id ==> navs[i].is_delete) && !(
        top_rows(navs).len() == 1 && top_rows(navs)[0].id == id),
{
    let kids = children_of(navs, id, false);
    lemma_children_of(navs, id, false);
    if kids.len() > 0 {
        assert(navs.contains(kids[0]));
        let i = choose|i: int| 0 <= i < navs.len() && navs[i] == kids[0];
        assert(navs[i].parid == id && !navs[i].is_delete);
    } else {
        assert forall|i: int| 0 <= i < navs.len() && (#[trigger] navs[i]).parid
            == id implies navs[i].is_delete by {
            if !navs[i].is_delete {
                assert(kids.contains(navs[i]));
            }
        }
    }
}

/// Every row that goes is passed on as deleted, and nothing else is passed on.
pub proof fn law_tombstones_tell_what_is_gone(navs: Seq<NavView>, ids: Seq<Seq<char>>)
    ensures
        forall|j: int|
            0 <= j < tombstones(navs, ids).len() ==> (#[trigger] tombstones(
                navs,
                ids,
            )[j] matches ChangeView::Meta(n) && n.is_delete && ids.contains(n.id) && nav_index(
                navs,
                n.id,
            ) is Some && n == (NavView { is_delete: true, ..navs[nav_index(navs, n.id)->0] })),
        forall|k: int|
            0 <= k < ids.len() && nav_index(navs, #[trigger] ids[k]) is Some ==> tombstones(
                navs,
                ids,
            ).contains(
                ChangeView::Meta(NavView { is_delete: true, ..navs[nav_index(navs, ids[k])->0] }),
            ),
    decreases ids.len(),
{
    if ids.len() > 0 {
        let p = ids.drop_last();
        law_tombstones_tell_what_is_gone(navs, p);
        let tp = tombstones(navs, p);
        let t = tombstones(navs, ids);
        let last = ids[ids.len() - 1];
        lemma_nav_index(navs, last);
        assert forall|j: int| 0 <= j < t.len() implies (#[trigger] t[j] matches ChangeView::Meta(n)
            && n.is_delete && ids.contains(n.id) && nav_index(navs, n.id) is Some && n == (
        NavView { is_delete: true, ..navs[nav_index(navs, n.id)->0] })) by {
            if j < tp.len() {
                assert(t[j] == tp[j]);
                let n = tp[j]->Meta_0;
                let a = choose|a: int| 0 <= a < p.len() && p[a] == n.id;
                assert(ids[a] == n.id);
            } else {
                let n = t[j]->Meta_0;
                assert(n.id == last);
            }
        }
        assert forall|k: int|
            0 <= k < ids.len() && nav_index(navs, #[trigger] ids[k]) is Some implies t.contains(
            ChangeView::Meta(NavView { is_delete: true, ..navs[nav_index(navs, ids[k])->0] }),
        ) by {
            let x = ChangeView::Meta(
                NavView { is_delete: true, ..navs[nav_index(navs, ids[k])->0] },
            );
            if k < p.len() {
                assert(p[k] == ids[k]);
                let a = choose|a: int| 0 <= a < tp.len() && tp[a] == x;
                assert(t[a] == x);
            } else {
                assert(t[t.len() - 1] == x);
            }
        }
    }
}

// ---- typing ----

/// Enter splits the row exactly if Shift is not held, the caret is in the first line, and
/// the text has one line or is shown in rows. Otherwise it puts in a line end and leaves
/// the caret behind it: at the caret, but at the end of a text of several lines that is
/// not shown in rows, unless Shift is held.
pub proof fn law_enter_breaks_the_line_or_splits(
    text: Seq<char>,
    caret: int,
    shift: bool,
    in_rows: bool,
)
    requires
        0 <= caret,
    ensures
        ({
            let several = text.contains('\n');
            let at_end = !shift && !in_rows && several;
            let first_line = !head_at_utf16(text, caret).contains('\n');
            let head = if at_end {
                text
            } else {
                head_at_utf16(text, caret)
            };
            let tail = if at_end {
                Seq::empty()
            } else {
                tail_at_utf16(text, caret)
            };
            &&& entered(text, caret, shift, in_rows) is None <==> !shift && first_line && (in_rows
                || !several)
            &&& entered(text, caret, shift, in_rows) matches Some(r) ==> r.0 == head + seq!['\n']
                + tail && r.1 == (if at_end {
                utf16_len(text) as int
            } else {
                caret
            }) + 1
        }),
{
    let len = utf16_len(text) as int;
    lemma_whole_head(text);
    lemma_chars_in_utf16(text, caret);
    lemma_several_lines(head_at_utf16(text, caret));
    lemma_single_newline();
}

proof fn lemma_single_newline()
    ensures
        utf16_len(seq!['\n']) == 1,
{
    assert(seq!['\n'].drop_last() =~= Seq::<char>::empty());
    reveal_with_fuel(utf16_len, 2);
}

proof fn lemma_whole_head(text: Seq<char>)
    ensures
        head_at_utf16(text, utf16_len(text) as int) == text,
        tail_at_utf16(text, utf16_len(text) as int) == Seq::<char>::empty(),
{
    lemma_chars_in_utf16(text, utf16_len(text) as int);
}

/// A delete key takes out what is selected, in whichever direction it was selected, and
/// leaves the caret where the selection began. Without a selection it takes out one
/// character, the one before the caret or the one behind it.
pub proof fn law_delete_takes_the_selection_or_a_character(
    text: Seq<char>,
    start: int,
    end: int,
    back: bool,
)
    requires
        0 <= start,
        0 <= end,
    ensures
        ({
            let r = deleted(text, start, end, back);
            &&& start < end ==> r == (
                head_at_utf16(text, start) + tail_at_utf16(text, end),
                start,
            )
            &&& start > end ==> r == (head_at_utf16(text, end) + tail_at_utf16(text, start), end)
            &&& start == end && back ==> r == deleted_backward(text, start)
            &&& start == end && !back ==> r == deleted_forward(text, start)
        }),
{
    let r = deleted(text, start, end, back);
    if start < end {
        assert(r.0 =~= head_at_utf16(text, start) + tail_at_utf16(text, end));
    } else if end < start {
        assert(r.0 =~= head_at_utf16(text, end) + tail_at_utf16(text, start));
    }
}

/// Typed text and dropped text take the place of what is selected, with the caret left
/// behind them. Both delete events take out a selection alike. Events that neither
/// insert nor delete text are left alone, and so is one without a kind and without text.
pub proof fn law_input_replaces_the_selection(
    input_type: Seq<char>,
    data: Seq<char>,
    dropped: Seq<char>,
    text: Seq<char>,
    start: int,
    end: int,
)
    requires
        0 <= start <= end,
    ensures
        ({
            let typed = (
                head_at_utf16(text, start) + data + tail_at_utf16(text, end),
                start + utf16_len(data),
            );
            let cut = (head_at_utf16(text, start) + tail_at_utf16(text, end), start);
            &&& input_result("insertText"@, data, dropped, text, start, end) == Some(typed)
            &&& data.len() > 0 ==> input_result(Seq::empty(), data, dropped, text, start, end)
                == Some(typed)
            &&& input_result("insertFromDrop"@, dropped, data, text, start, end) == Some(typed)
            &&& start < end ==> input_result(
                "deleteContentBackward"@,
                data,
                dropped,
                text,
                start,
                end,
            ) == Some(cut)
            &&& start < end ==> input_result(
                "deleteContentForward"@,
                data,
                dropped,
                text,
                start,
                end,
            ) == Some(cut)
            &&& start <= utf16_len(text) ==> input_result(
                "deleteContentBackward"@,
                data,
                dropped,
                text,
                start,
                start,
            ) == Some(deleted_backward(text, start))
            &&& start <= utf16_len(text) ==> input_result(
                "deleteContentForward"@,
                data,
                dropped,
                text,
                start,
                start,
            ) == Some(deleted_forward(text, start))
            &&& input_type != "insertText"@ && input_type != "insertFromDrop"@ && input_type
                != "deleteContentBackward"@ && input_type != "deleteContentForward"@ && (
            input_type.len() > 0 || data.len() == 0) ==> input_result(
                input_type,
                data,
                dropped,
                text,
                start,
                end,
            ) is None
        }),
{
    reveal_strlit("insertText");
    reveal_strlit("insertFromDrop");
    reveal_strlit("deleteContentBackward");
    reveal_strlit("deleteContentForward");
    assert("insertText"@.len() != "insertFromDrop"@.len());
    assert("insertText"@.len() != "deleteContentBackward"@.len());
    assert("insertText"@.len() != "deleteContentForward"@.len());
    assert("insertFromDrop"@.len() != "deleteContentBackward"@.len());
    assert("insertFromDrop"@.len() != "deleteContentForward"@.len());
    assert("deleteContentBackward"@.len() != "deleteContentForward"@.len());
    law_delete_takes_the_selection_or_a_character(text, start, end, true);
}

/// A line end that a text ends in is taken off, and nothing else.
pub proof fn law_only_the_last_break_goes(text: Seq<char>)
    ensures
        without_last_break(text.push('\n')) == text,
        text.len() == 0 || text.last() != '\n' ==> without_last_break(text) == text,
{
    assert(text.push('\n').drop_last() =~= text);
}

/// The row that is split off is a live row of its own, unfolded, with the text, the parent
/// and the number that it was given.
pub proof fn law_split_off_row_is_live(
    id: Seq<char>,
    note_id: Seq<char>,
    parid: Seq<char>,
    order: int,
    content: Seq<char>,
)
    ensures
        ({
            let n = new_row(id, note_id, parid, order, content);
            &&& !n.is_delete
            &&& n.is_display
            &&& n.id == id && n.note_id == note_id && n.parid == parid
            &&& n.same_deep_order == order
            &&& n.content == content
            &&& n.properties is None
        }),
{
}

// ---- what is to be saved ----

/// Whether a text is a change is told by the text that the open row had when it was
/// opened. Of a row that is not open it is told by the text that the row has, and of no
/// row at all only a text that is not empty is one.
pub proof fn law_change_is_told_by_the_text_before(
    v: SessionView,
    id: Seq<char>,
    content: Seq<char>,
)
    ensures
        v.editing_snapshot matches Some(s) ==> s.0 == id ==> (is_changed(v, id, content)
            <==> content != s.1),
        (v.editing_snapshot matches Some(s) ==> s.0 != id) ==> (is_changed(v, id, content)
            <==> content_of(v.navs, id) != Some(content) && (nav_index(v.navs, id) is Some
            || content.len() > 0)),
{
}

// ---- coming back to a note ----

/// The row that is opened is the one that was asked for, if it is shown; or else the one
/// that was open last, where the caret was, if it is shown; or else the first.
pub proof fn law_focus_prefers_what_was_asked_for(
    visible: Seq<Seq<char>>,
    saved: Option<(Seq<char>, u32)>,
    preferred: Option<Seq<char>>,
)
    ensures
        ({
            let r = focus_target(visible, saved, preferred);
            let asked = preferred matches Some(p) && trimmed(p).len() > 0 && visible.contains(
                trimmed(p),
            );
            let known = saved matches Some(s) && visible.contains(s.0);
            &&& asked ==> r == Some((trimmed(preferred->0), 0u32))
            &&& !asked && known ==> r == saved
            &&& !asked && !known && visible.len() > 0 ==> r == Some((visible[0], 0u32))
        }),
{
}

/// A shown row that is open stays open as it is. Otherwise a shown row is opened, with
/// its text and the caret where it is to be, and the rows stay as they are.
pub proof fn law_open_row_stays_open(
    v: SessionView,
    navs: Seq<NavView>,
    saved: Option<(Seq<char>, u32)>,
    preferred: Option<Seq<char>>,
)
    ensures
        ({
            let visible = visible_ids(navs);
            let target = focus_target(visible, saved, preferred);
            let (w, restored) = refocused(v, navs, saved, preferred);
            let open = v.editing_id matches Some(id) && visible.contains(id);
            &&& w.navs == v.navs
            &&& open ==> w == v && restored is None
            &&& restored is None ==> w == v
            &&& restored is Some ==> target is Some && restored == Some((target->0).0)
                && visible.contains(restored->0) && nav_index(navs, restored->0) is Some
                && has_open(
                w,
                restored->0,
                navs[nav_index(navs, restored->0)->0].content,
                (target->0).1 as int,
            )
            &&& !open && target is Some && nav_index(navs, (target->0).0) is Some ==> restored is Some
        }),
{
    let visible = visible_ids(navs);
    if visible.len() > 0 {
        assert(visible.contains(visible[0]));
    }
}

/// A row that is open stays open when other rows come in, exactly if it is among them.
pub proof fn law_rows_that_come_in_close_what_is_gone(v: SessionView, navs: Seq<NavView>)
    ensures
        ({
            let r = with_rows(v, navs);
            let gone = v.editing_id matches Some(id) && nav_index(navs, id) is None;
            &&& r.navs == navs
            &&& r.editing_value == v.editing_value
            &&& !gone ==> same_open(r, v)
            &&& gone ==> r.editing_id is None && r.editing_snapshot is None
                && r.target_cursor_col is None
        }),
{
}

} // verus!
