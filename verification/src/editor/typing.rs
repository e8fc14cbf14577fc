//! What typing, deleting and Enter do to a session.

use crate::editor::edit::{reduce_editor_state, EditorIntent, EditorState};
use crate::editor::lines::{
    should_treat_beforeinput_as_insert_text, split_nav_content_for_enter,
};
use crate::editor::moves::{append_changes, find_place};
use crate::editor::ordering::OrderRule;
use crate::editor::placement::place_sibling_after;
use crate::editor::rows::{apply_nav_content, get_nav_content, remove_navs};
use crate::editor::session::{Change, Session};
use crate::editor::tree::{
    can_soft_delete_empty_nav, collect_subtree, collect_visible_preorder_ids,
};
use crate::models::{find_nav, Nav};
use crate::text::{from_chars, str_eq, to_chars, utf16_len_of};
use vstd::prelude::*;

verus! {

use crate::editor::edit::{deleted_backward, deleted_forward, line_index_at, replaced};
use crate::editor::forest::{is_forest, law_new_row_keeps_forest, law_same_shape_keeps_forest};
use crate::editor::lines::enter_split;
use crate::editor::moves::{neighbour, texts_fit};
use crate::editor::placement::sibling_after_rule;
use crate::editor::rows::{content_of, with_content, without_ids};
use crate::editor::session::{
    change_views, meta_change, opened_row, with_text, ChangeView, SessionView,
};
use crate::editor::tree::{
    may_delete, outline_ends, subtree_ends, subtree_ids, visible_ids,
};
use crate::models::{lemma_nav_index, nav_index, nav_views, opt_view, str_views, NavView};
use crate::text::{
    chars_in_utf16, is_blank, lemma_chars_in_utf16, lemma_prefix_lens_grow, min_of, utf16_len,
};

// ---- steps in the text ----

/// A step in the text of a row: the text and the caret that it leads to, and the change
/// to pass on.
#[derive(Debug, PartialEq, Eq)]
pub struct TextStep {
    pub state: EditorState,
    pub change: Change,
}

/// Whether a step leads to a text and a caret, in a row.
pub open spec fn leads_to(step: TextStep, id: Seq<char>, to: (Seq<char>, int)) -> bool {
    &&& step.state.text@ == to.0
    &&& step.state.caret_utf16 == to.1
    &&& step.state.remembered_caret_utf16 is None
    &&& step.change@ == (ChangeView::Content { id, content: to.0 })
}

/// A session in which another text is being edited.
pub open spec fn with_value(v: SessionView, text: Seq<char>) -> SessionView {
    SessionView { editing_value: text, ..v }
}

/// A session in which another text is being edited, with the caret at a position.
pub open spec fn with_value_at(v: SessionView, text: Seq<char>, caret: int) -> SessionView {
    SessionView { editing_value: text, target_cursor_col: Some(caret as u32), ..v }
}

fn text_step(id: &str, state: EditorState) -> (r: TextStep)
    requires
        state.remembered_caret_utf16 is None,
    ensures
        leads_to(r, id@, (state.text@, state.caret_utf16 as int)),
{
    let change = Change::Content { id: id.to_string(), content: state.text.clone() };
    TextStep { state, change }
}

/// What a delete key makes of a text: it takes out what is selected, or else the
/// character before the caret or behind it.
pub open spec fn deleted(text: Seq<char>, start: int, end: int, back: bool) -> (Seq<char>, int) {
    if start != end {
        replaced(text, start, end, Seq::empty())
    } else if back {
        deleted_backward(text, start)
    } else {
        deleted_forward(text, start)
    }
}

proof fn lemma_deleted_fits(text: Seq<char>, start: int, end: int, back: bool)
    requires
        0 <= start <= u32::MAX,
        0 <= end <= u32::MAX,
        utf16_len(text) <= u32::MAX,
    ensures
        deleted(text, start, end, back).1 <= u32::MAX,
{
    lemma_chars_in_utf16(text, start);
    let k = chars_in_utf16(text, start) as int;
    assert(text.take(text.len() as int) =~= text);
    if k > 0 {
        lemma_prefix_lens_grow(text, k - 1, text.len() as int);
    }
    lemma_prefix_lens_grow(text, k, text.len() as int);
}

fn delete_in(state: &EditorState, start: u32, end: u32, back: bool) -> (r: EditorState)
    requires
        utf16_len(state.text@) <= u32::MAX,
        start == end ==> state.caret_utf16 == start,
    ensures
        (r.text@, r.caret_utf16 as int) == deleted(state.text@, start as int, end as int, back),
        r.remembered_caret_utf16 is None,
{
    proof {
        lemma_deleted_fits(state.text@, start as int, end as int, back);
    }
    let intent = if start != end {
        EditorIntent::ReplaceRange { start_utf16: start, end_utf16: end, text: String::new() }
    } else if back {
        EditorIntent::Backspace
    } else {
        EditorIntent::Delete
    };
    reduce_editor_state(state, intent)
}

/// What an input event makes of a text. Nothing if it is none of those that insert or
/// delete text.
pub open spec fn input_result(
    input_type: Seq<char>,
    data: Seq<char>,
    dropped: Seq<char>,
    text: Seq<char>,
    start: int,
    end: int,
) -> Option<(Seq<char>, int)> {
    let caret = min_of(start, utf16_len(text) as int);
    if input_type == "insertText"@ || (input_type.len() == 0 && data.len() > 0) {
        Some(replaced(text, start, end, data))
    } else if input_type == "insertFromDrop"@ {
        Some(replaced(text, start, end, dropped))
    } else if input_type == "deleteContentBackward"@ || input_type == "deleteContentForward"@ {
        if start != end {
            Some(deleted(text, start, end, true))
        } else {
            Some(deleted(text, caret, caret, input_type == "deleteContentBackward"@))
        }
    } else {
        None
    }
}

impl Session {
    /// The text and the selection to work on: those of the shown element, or else the text
    /// that is being edited with the caret at its end.
    pub fn live_text(&self, live: Option<(String, u32, u32)>) -> (r: (String, u32, u32))
        requires
            utf16_len(self@.editing_value) <= u32::MAX,
        ensures
            match live {
                Some(l) => r == l,
                None => {
                    &&& r.0@ == self@.editing_value
                    &&& r.1 == utf16_len(self@.editing_value)
                    &&& r.2 == r.1
                },
            },
    {
        match live {
            Some(l) => l,
            None => {
                let end: u32 = utf16_len_of(self.editing_value.as_str());
                (self.editing_value.clone(), end, end)
            },
        }
    }

    /// Carries out an input event on `text`, with the selection from `start` to `end`.
    pub fn before_input(
        &mut self,
        id: &str,
        input_type: &str,
        data: &str,
        dropped: &str,
        text: &str,
        start: u32,
        end: u32,
    ) -> (r: Option<TextStep>)
        requires
            utf16_len(text@) <= u32::MAX,
            min_of(start as int, end as int) + utf16_len(data@) <= u32::MAX,
            min_of(start as int, end as int) + utf16_len(dropped@) <= u32::MAX,
        ensures
            match input_result(input_type@, data@, dropped@, text@, start as int, end as int) {
                None => r is None && final(self)@ == old(self)@,
                Some(to) => {
                    &&& r matches Some(step) && leads_to(step, id@, to)
                    &&& final(self)@ == with_value(old(self)@, to.0)
                },
            },
    {
        let state = EditorState::new(text.to_string(), start);
        let back: bool = str_eq(input_type, "deleteContentBackward");
        let next = if should_treat_beforeinput_as_insert_text(input_type, data) {
            reduce_editor_state(
                &state,
                EditorIntent::ReplaceRange {
                    start_utf16: start,
                    end_utf16: end,
                    text: data.to_string(),
                },
            )
        } else if str_eq(input_type, "insertFromDrop") {
            reduce_editor_state(
                &state,
                EditorIntent::ReplaceRange {
                    start_utf16: start,
                    end_utf16: end,
                    text: dropped.to_string(),
                },
            )
        } else if back || str_eq(input_type, "deleteContentForward") {
            if start != end {
                delete_in(&state, start, end, true)
            } else {
                delete_in(&state, state.caret_utf16, state.caret_utf16, back)
            }
        } else {
            return None;
        };
        self.editing_value = next.text.clone();
        Some(text_step(id, next))
    }

    /// Puts a text from the clipboard in place of what is selected. An empty one changes
    /// nothing.
    pub fn paste(&mut self, id: &str, pasted: &str, text: &str, start: u32, end: u32) -> (r: Option<
        TextStep,
    >)
        requires
            utf16_len(text@) <= u32::MAX,
            min_of(start as int, end as int) + utf16_len(pasted@) <= u32::MAX,
        ensures
            if pasted@.len() == 0 {
                r is None && final(self)@ == old(self)@
            } else {
                let to = replaced(text@, start as int, end as int, pasted@);
                &&& r matches Some(step) && leads_to(step, id@, to)
                &&& final(self)@ == with_value(old(self)@, to.0)
            },
    {
        proof {
            reveal_strlit("");
            assert(pasted@.len() == 0 ==> pasted@ =~= ""@);
        }
        if str_eq(pasted, "") {
            return None;
        }
        let next = reduce_editor_state(
            &EditorState::new(text.to_string(), start),
            EditorIntent::ReplaceRange {
                start_utf16: start,
                end_utf16: end,
                text: pasted.to_string(),
            },
        );
        self.editing_value = next.text.clone();
        Some(text_step(id, next))
    }

    /// Takes up a text that was typed without an input event to carry out. The caret is
    /// moved back to its end where it lies behind it.
    pub fn take_up(&mut self, id: &str, text: &str, caret: u32) -> (r: TextStep)
        requires
            utf16_len(text@) <= u32::MAX,
        ensures
            leads_to(r, id@, (text@, min_of(caret as int, utf16_len(text@) as int))),
            final(self)@ == with_value(old(self)@, text@),
    {
        self.editing_value = text.to_string();
        text_step(id, EditorState::new(text.to_string(), caret))
    }

    /// Carries out a delete key on `text`, with the selection from `start` to `end`. There
    /// is no step if neither the text nor the caret changes.
    pub fn delete_text(&mut self, id: &str, text: &str, start: u32, end: u32, back: bool) -> (r:
        Option<TextStep>)
        requires
            utf16_len(text@) <= u32::MAX,
        ensures
            ({
                let to = deleted(text@, start as int, end as int, back);
                if to == (text@, start as int) {
                    r is None && final(self)@ == old(self)@
                } else {
                    &&& r matches Some(step) && leads_to(step, id@, to)
                    &&& final(self)@ == with_value_at(old(self)@, to.0, to.1)
                }
            }),
    {
        let state = EditorState {
            text: text.to_string(),
            caret_utf16: start,
            remembered_caret_utf16: None,
        };
        let next = delete_in(&state, start, end, back);
        if str_eq(next.text.as_str(), text) && next.caret_utf16 == start {
            return None;
        }
        self.editing_value = next.text.clone();
        self.target_cursor_col = Some(next.caret_utf16);
        Some(text_step(id, next))
    }

    /// Takes out the last line end of a text that holds nothing else, and tells where the
    /// caret is then.
    pub fn drop_break(&mut self, text: &str) -> (r: (String, u32))
        requires
            utf16_len(text@) <= u32::MAX,
        ensures
            r.0@ == without_last_break(text@),
            r.1 == utf16_len(r.0@),
            final(self)@ == with_value_at(old(self)@, r.0@, r.1 as int),
    {
        let chars = to_chars(text);
        let n: usize = chars.len();
        let keep: usize = if n > 0 && chars[n - 1] == '\n' {
            n - 1
        } else {
            n
        };
        let next = from_chars(chars.as_slice(), 0, keep);
        proof {
            assert(next@ =~= without_last_break(text@));
            lemma_prefix_lens_grow(text@, keep as int, n as int);
            assert(text@.take(keep as int) =~= next@);
            assert(text@.take(n as int) =~= text@);
        }
        let end: u32 = utf16_len_of(next.as_str());
        self.editing_value = next.clone();
        self.target_cursor_col = Some(end);
        (next, end)
    }
}

/// A text without the line end that it ends in, if it does.
pub open spec fn without_last_break(text: Seq<char>) -> Seq<char> {
    if text.len() > 0 && text.last() == '\n' {
        text.drop_last()
    } else {
        text
    }
}

/// Where the caret is once a composed text is in place: behind the text, if there is any,
/// and otherwise where the element says.
pub fn composed_caret(start: Option<u32>, committed: u32, shown_caret: u32, len: u32) -> (r: u32)
    ensures
        r == (match start {
            Some(s) if committed > 0 => min_of(s + committed, len as int),
            _ => min_of(shown_caret as int, len as int),
        }),
{
    if let Some(s) = start {
        if committed > 0 {
            let pos: u64 = s as u64 + committed as u64;
            return if pos <= len as u64 {
                pos as u32
            } else {
                len
            };
        }
    }
    if shown_caret <= len {
        shown_caret
    } else {
        len
    }
}

// ---- Enter ----

/// What Enter makes of a text: a line end at its end where it has several lines and is not
/// shown in rows; one at the caret with Shift or below the first line. Elsewhere the text
/// is left alone, and the row is split.
pub open spec fn entered(text: Seq<char>, caret: int, shift: bool, in_rows: bool) -> Option<
    (Seq<char>, int),
> {
    let len = utf16_len(text) as int;
    if !in_rows && !shift && text.contains('\n') {
        Some(replaced(text, len, len, seq!['\n']))
    } else if shift || line_index_at(text, caret) > 0 {
        Some(replaced(text, caret, caret, seq!['\n']))
    } else {
        None
    }
}

fn has_newline(text: &str) -> (r: bool)
    ensures
        r == text@.contains('\n'),
{
    let chars = to_chars(text);
    let mut i: usize = 0;
    while i < chars.len()
        invariant
            i <= chars@.len(),
            chars@ == text@,
            forall|j: int| 0 <= j < i ==> text@[j] != '\n',
        decreases chars@.len() - i,
    {
        if chars[i] == '\n' {
            assert(text@[i as int] == '\n');
            return true;
        }
        i = i + 1;
    }
    false
}

/// What a row is split into: the text of the new row, its parent, and how its order number
/// is made.
#[derive(Debug, PartialEq, Eq)]
pub struct SplitPlan {
    pub right: String,
    pub parid: String,
    pub rule: OrderRule,
}

/// The change of a text.
pub open spec fn content_change(id: Seq<char>, content: Seq<char>) -> Seq<ChangeView> {
    seq![ChangeView::Content { id, content }]
}

fn content_change_of(id: &str, content: &str) -> (r: Vec<Change>)
    ensures
        change_views(r@) == content_change(id@, content@),
{
    let mut out: Vec<Change> = Vec::new();
    out.push(Change::Content { id: id.to_string(), content: content.to_string() });
    assert(change_views(out@) =~= content_change(id@, content@));
    out
}

/// A new row.
pub open spec fn new_row(
    id: Seq<char>,
    note_id: Seq<char>,
    parid: Seq<char>,
    order: int,
    content: Seq<char>,
) -> NavView {
    NavView {
        id,
        note_id,
        parid,
        same_deep_order: order,
        content,
        is_display: true,
        is_delete: false,
        properties: None,
    }
}

impl Session {
    /// Carries out Enter on `text` with the caret at `caret`, if it leads to a line end.
    /// `in_rows` tells whether the text is shown in rows.
    pub fn enter_text(&mut self, id: &str, text: &str, caret: u32, shift: bool, in_rows: bool) -> (r:
        Option<TextStep>)
        requires
            utf16_len(text@) < u32::MAX,
            caret < u32::MAX,
        ensures
            match entered(text@, caret as int, shift, in_rows) {
                None => r is None && final(self)@ == old(self)@,
                Some(to) => {
                    &&& r matches Some(step) && leads_to(step, id@, to)
                    &&& final(self)@ == with_value_at(old(self)@, to.0, to.1)
                },
            },
    {
        proof {
            reveal_strlit("\n");
            assert("\n"@ =~= seq!['\n']);
            crate::text::lemma_utf16_push(Seq::<char>::empty(), '\n');
            assert(Seq::<char>::empty().push('\n') =~= seq!['\n']);
        }
        let next = if !in_rows && !shift && has_newline(text) {
            let end: u32 = utf16_len_of(text);
            reduce_editor_state(
                &EditorState {
                    text: text.to_string(),
                    caret_utf16: end,
                    remembered_caret_utf16: None,
                },
                EditorIntent::ReplaceRange {
                    start_utf16: end,
                    end_utf16: end,
                    text: "\n".to_string(),
                },
            )
        } else {
            let state = EditorState {
                text: text.to_string(),
                caret_utf16: caret,
                remembered_caret_utf16: None,
            };
            let next = reduce_editor_state(&state, EditorIntent::Enter { shift });
            let same = str_eq(next.text.as_str(), text) && next.caret_utf16 == caret;
            proof {
                // A line end that was put in moves the caret.
                assert(shift || line_index_at(text@, caret as int) > 0 ==> next.caret_utf16
                    == caret + 1);
            }
            if same {
                return None;
            }
            next
        };
        self.editing_value = next.text.clone();
        self.target_cursor_col = Some(next.caret_utf16);
        Some(text_step(id, next))
    }

    /// Splits a row whose text is `content` at the caret. The row keeps the first part.
    /// There is nothing to go on with if there is no such row.
    pub fn plan_split(&mut self, id: &str, content: &str, caret: u32) -> (r: (
        Vec<Change>,
        Option<SplitPlan>,
    ))
        requires
            utf16_len(content@) <= u32::MAX,
        ensures
            ({
                let (left, right) = enter_split(content@, caret as int);
                let v = with_text(old(self)@, id@, left);
                &&& final(self)@ == v
                &&& change_views(r.0@) == content_change(id@, left)
                &&& match r.1 {
                    Some(plan) => {
                        &&& nav_index(v.navs, id@) matches Some(m) && plan.parid@
                            == v.navs[m].parid
                        &&& plan.right@ == right
                        &&& sibling_after_rule(v.navs, id@) == Some(plan.rule)
                    },
                    None => nav_index(v.navs, id@) is None,
                }
            }),
    {
        let (left, right) = split_nav_content_for_enter(content, caret);
        apply_nav_content(self.navs.as_mut_slice(), id, left.as_str());
        let changes = content_change_of(id, left.as_str());
        match place_sibling_after(self.navs.as_slice(), id) {
            Some((parid, rule)) => (changes, Some(SplitPlan { right, parid, rule })),
            None => (changes, None),
        }
    }

    /// Adds the second part of a split row as a row, and opens it.
    pub fn finish_split(
        &mut self,
        new_id: &str,
        note_id: &str,
        parid: &str,
        order: i32,
        right: &str,
    ) -> (r: Vec<Change>)
        ensures
            ({
                let row = new_row(new_id@, note_id@, parid@, order as int, right@);
                let v = SessionView { navs: old(self)@.navs.push(row), ..old(self)@ };
                &&& final(self)@ == opened_row(v, new_id@, right@, Some(0))
                &&& change_views(r@) == meta_change(v.navs, new_id@) + content_change(
                    new_id@,
                    right@,
                )
            }),
    {
        let ghost before = self@.navs;
        let row = Nav {
            id: new_id.to_string(),
            note_id: note_id.to_string(),
            parid: parid.to_string(),
            same_deep_order: order,
            content: right.to_string(),
            is_display: true,
            is_delete: false,
            properties: None,
        };
        let ghost rv = row@;
        self.navs.push(row);
        assert(nav_views(self.navs@) =~= before.push(rv));
        self.open_row(new_id, right, Some(0));
        let mut changes = self.meta_change_of(new_id);
        append_changes(&mut changes, content_change_of(new_id, right));
        changes
    }
}

// ---- deleting a row ----

/// The rows with the given ids, deleted, as changes.
pub open spec fn tombstones(navs: Seq<NavView>, ids: Seq<Seq<char>>) -> Seq<ChangeView>
    decreases ids.len(),
{
    if ids.len() == 0 {
        Seq::empty()
    } else {
        let before = tombstones(navs, ids.drop_last());
        match nav_index(navs, ids.last()) {
            Some(i) => before.push(ChangeView::Meta(NavView { is_delete: true, ..navs[i] })),
            None => before,
        }
    }
}

fn tombstones_of(navs: &[Nav], ids: &[String]) -> (r: Vec<Change>)
    ensures
        change_views(r@) == tombstones(nav_views(navs@), str_views(ids@)),
{
    let ghost vs = nav_views(navs@);
    let ghost gone = str_views(ids@);
    let mut out: Vec<Change> = Vec::new();
    let mut i: usize = 0;
    assert(change_views(out@) =~= tombstones(vs, gone.take(0)));
    while i < ids.len()
        invariant
            i <= ids@.len(),
            vs == nav_views(navs@),
            gone == str_views(ids@),
            change_views(out@) == tombstones(vs, gone.take(i as int)),
        decreases ids@.len() - i,
    {
        assert(gone.take(i + 1).drop_last() =~= gone.take(i as int));
        assert(gone.take(i + 1).last() == ids@[i as int]@);
        let ghost before = out@;
        if let Some(k) = find_nav(navs, ids[i].as_str()) {
            assert(vs[k as int] == navs@[k as int]@);
            let mut row = navs[k].clone();
            row.is_delete = true;
            let ghost rv = row@;
            out.push(Change::Meta(row));
            assert(change_views(out@) =~= change_views(before).push(ChangeView::Meta(rv)));
        }
        i = i + 1;
    }
    assert(gone.take(i as int) =~= gone);
    out
}

/// Where the caret goes from a row that is deleted: to the row above, or else to the one
/// below.
pub open spec fn focus_after(ids: Seq<Seq<char>>, id: Seq<char>) -> Option<Seq<char>> {
    match neighbour(ids, id, true) {
        Some(above) => Some(above),
        None => neighbour(ids, id, false),
    }
}

/// A session once a row and all that hangs below it is gone.
pub open spec fn without_row(v: SessionView, id: Seq<char>) -> SessionView {
    let focus = focus_after(visible_ids(v.navs), id);
    let rest = SessionView {
        navs: without_ids(v.navs, subtree_ids(v.navs, id)),
        editing_id: focus,
        ..v
    };
    match focus {
        None => rest,
        Some(next) => match content_of(v.navs, next) {
            None => rest,
            Some(text) => with_value_at(rest, text, utf16_len(text) as int),
        },
    }
}

impl Session {
    /// Deletes an empty row, if it may be deleted. Tells the ids of the rows that are gone
    /// and the changes to pass on.
    pub fn delete_row(&mut self, id: &str) -> (r: Option<(Vec<String>, Vec<Change>)>)
        requires
            outline_ends(old(self)@.navs),
            subtree_ends(old(self)@.navs, id@),
            texts_fit(old(self)@.navs),
        ensures
            ({
                let v = old(self)@;
                if !may_delete(v.navs, id@) {
                    r is None && final(self)@ == v
                } else {
                    let gone = subtree_ids(v.navs, id@);
                    &&& final(self)@ == without_row(v, id@)
                    &&& r matches Some((ids, changes)) && {
                        &&& str_views(ids@) == gone
                        &&& change_views(changes@) == tombstones(v.navs, gone)
                    }
                }
            }),
    {
        let ghost v = self@;
        if !can_soft_delete_empty_nav(self.navs.as_slice(), id) {
            return None;
        }
        let visible = collect_visible_preorder_ids(self.navs.as_slice());
        let gone = collect_subtree(self.navs.as_slice(), id);
        let changes = tombstones_of(self.navs.as_slice(), gone.as_slice());
        let focus: Option<String> = match find_place(visible.as_slice(), id) {
            None => None,
            Some(i) => {
                if i > 0 {
                    Some(visible[i - 1].clone())
                } else if i < visible.len() - 1 {
                    Some(visible[i + 1].clone())
                } else {
                    None
                }
            },
        };
        assert(opt_view(focus) == focus_after(visible_ids(v.navs), id@));
        if let Some(next) = &focus {
            if let Some(text) = get_nav_content(self.navs.as_slice(), next.as_str()) {
                proof {
                    lemma_nav_index(v.navs, next@);
                }
                let end: u32 = utf16_len_of(text.as_str());
                self.target_cursor_col = Some(end);
                self.editing_value = text;
            }
        }
        let rest = remove_navs(self.navs.as_slice(), gone.as_slice());
        self.navs = rest;
        self.editing_id = focus;
        Some((gone, changes))
    }
}

// ---- laws ----

/// Splitting a row keeps trees trees, if the new row has an id that no row and no parent
/// has.
pub proof fn law_split_keeps_forest(
    v: SessionView,
    id: Seq<char>,
    left: Seq<char>,
    row: NavView,
)
    requires
        is_forest(v.navs),
        nav_index(v.navs, id) matches Some(m) && row.parid == v.navs[m].parid,
        !is_blank(row.id),
        forall|i: int|
            0 <= i < v.navs.len() ==> (#[trigger] v.navs[i]).id != row.id && v.navs[i].parid
                != row.id,
    ensures
        is_forest(with_text(v, id, left).navs.push(row)),
{
    let texted = with_content(v.navs, id, left);
    lemma_nav_index(v.navs, id);
    law_same_shape_keeps_forest(v.navs, texted);
    assert forall|i: int| 0 <= i < texted.len() implies (#[trigger] texted[i]).id != row.id
        && texted[i].parid != row.id by {
        assert(texted[i].id == v.navs[i].id && texted[i].parid == v.navs[i].parid);
    }
    law_new_row_keeps_forest(texted, row);
}

} // verus!
