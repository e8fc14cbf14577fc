//! What the keys that move the caret between rows, and rows among others, do to a session.

use crate::editor::lines::{utf16_line_col_at_pos, utf16_pos_for_line_col};
use crate::editor::ordering::OrderRule;
use crate::editor::placement::{
    arrow_left_boundary_target_id, arrow_right_boundary_target, move_among_siblings,
    place_indented, place_outdented,
};
use crate::editor::rows::{
    apply_nav_content, apply_nav_display, apply_nav_order, apply_nav_place, get_nav_content,
};
use crate::editor::session::{Change, Session};
use crate::editor::tree::collect_visible_preorder_ids;
use crate::text::{split_lines_of, str_eq, to_chars, utf16_len_of};
use vstd::prelude::*;

verus! {

use crate::editor::edit::line_start_at;
use crate::editor::lines::pos_of_line_col;
use crate::editor::placement::{
    indent_target, law_indent_keeps_forest, law_outdent_keeps_forest, left_target, move_rule,
    outdent_target, right_target,
};
use crate::editor::rows::{
    content_of, lemma_same_ids, with_content, with_display, with_order, with_place,
};
use crate::editor::session::{
    change_views, kept_open, meta_change, opened_row, text_change, with_text, SessionView,
};
use crate::editor::shape::{law_texts_do_not_shape_the_outline, lemma_content_is_no_shape};
use crate::editor::forest::{is_forest, law_same_shape_keeps_forest};
use crate::editor::tree::{outline_ends, visible_ids};
use crate::models::{lemma_nav_index, opt_view, str_views, NavView};
use crate::text::{min_of, split_lines, utf16_len};

// ---- neighbours ----

/// The first place of an id in a list.
pub open spec fn place_in(ids: Seq<Seq<char>>, id: Seq<char>) -> Option<int>
    decreases ids.len(),
{
    if ids.len() == 0 {
        None
    } else {
        match place_in(ids.drop_last(), id) {
            Some(i) => Some(i),
            None => if ids.last() == id {
                Some(ids.len() - 1)
            } else {
                None
            },
        }
    }
}

proof fn lemma_place_in_prefix(ids: Seq<Seq<char>>, k: int, id: Seq<char>)
    requires
        0 <= k <= ids.len(),
        place_in(ids.take(k), id) is Some,
    ensures
        place_in(ids, id) == place_in(ids.take(k), id),
    decreases ids.len() - k,
{
    if k < ids.len() {
        assert(ids.take(k + 1).drop_last() =~= ids.take(k));
        lemma_place_in_prefix(ids, k + 1, id);
    } else {
        assert(ids.take(k) =~= ids);
    }
}

/// The first place of an id in a list.
pub(crate) fn find_place(ids: &[String], id: &str) -> (r: Option<usize>)
    ensures
        match r {
            Some(i) => i < ids@.len() && place_in(str_views(ids@), id@) == Some(i as int),
            None => place_in(str_views(ids@), id@) is None,
        },
{
    let ghost vs = str_views(ids@);
    let mut i: usize = 0;
    while i < ids.len()
        invariant
            i <= ids@.len(),
            vs == str_views(ids@),
            place_in(vs.take(i as int), id@) is None,
        decreases ids@.len() - i,
    {
        assert(vs.take(i + 1).drop_last() =~= vs.take(i as int));
        assert(vs.take(i + 1).last() == ids@[i as int]@);
        if str_eq(ids[i].as_str(), id) {
            proof {
                lemma_place_in_prefix(vs, i + 1, id@);
            }
            return Some(i);
        }
        i = i + 1;
    }
    assert(vs.take(i as int) =~= vs);
    None
}

/// The id before, or behind, another in a list.
pub open spec fn neighbour(ids: Seq<Seq<char>>, id: Seq<char>, up: bool) -> Option<Seq<char>> {
    match place_in(ids, id) {
        None => None,
        Some(i) => if up {
            if i == 0 {
                None
            } else {
                Some(ids[i - 1])
            }
        } else {
            if i + 1 >= ids.len() {
                None
            } else {
                Some(ids[i + 1])
            }
        },
    }
}

fn neighbour_at(ids: &[String], i: usize, up: bool) -> (r: Option<String>)
    requires
        i < ids@.len(),
    ensures
        forall|id: Seq<char>|
            #[trigger] place_in(str_views(ids@), id) == Some(i as int) ==> opt_view(r)
                == neighbour(str_views(ids@), id, up),
{
    if up {
        if i == 0 {
            None
        } else {
            Some(ids[i - 1].clone())
        }
    } else {
        if i >= ids.len() - 1 {
            None
        } else {
            Some(ids[i + 1].clone())
        }
    }
}

// ---- to the row above or below ----

/// The text that is being edited is saved, and the row above or below is opened with the
/// caret at its start, if there is one.
pub open spec fn jumped(v: SessionView, id: Seq<char>, up: bool) -> SessionView {
    let saved = with_text(v, id, v.editing_value);
    match neighbour(visible_ids(v.navs), id, up) {
        None => saved,
        Some(next) => match content_of(saved.navs, next) {
            None => saved,
            Some(text) => opened_row(saved, next, text, Some(0)),
        },
    }
}

/// What an arrow key in the first or last line of a row comes to.
#[derive(Debug, PartialEq, Eq)]
pub enum LineStep {
    /// The caret stays in the row, and nothing is to be done.
    Inside,
    /// The caret went to another row.
    Away(Vec<Change>),
    /// The caret goes to this position of the row.
    Caret(u32),
}

/// Where the caret comes down in a text that is entered from below or from above.
pub open spec fn landing(text: Seq<char>, up: bool, col: int) -> int {
    if up {
        pos_of_line_col(text, split_lines(text).len() - 1, col)
    } else {
        pos_of_line_col(text, 0, col)
    }
}

/// The column of a position in its line.
pub open spec fn column_at(text: Seq<char>, pos: int) -> int {
    min_of(pos, utf16_len(text) as int) - line_start_at(text, pos)
}

/// Whether an arrow key leads out of a row, in line `line` of `total`.
pub open spec fn leaves_row(up: bool, line: u32, total: u32) -> bool {
    if up {
        line == 0
    } else {
        total > 0 && line >= total - 1
    }
}

/// Whether positions in all texts fit their type.
pub open spec fn texts_fit(navs: Seq<NavView>) -> bool {
    forall|i: int| 0 <= i < navs.len() ==> utf16_len((#[trigger] navs[i]).content) < u32::MAX
}

/// The position in a row at the end of the way: its line's start or end.
pub open spec fn line_edge(text: Seq<char>, up: bool, line: u32) -> int {
    pos_of_line_col(
        text,
        line as int,
        if up {
            0
        } else {
            u32::MAX as int
        },
    )
}

/// A session once an arrow key led from a row to another.
pub open spec fn stepped_away(
    v: SessionView,
    id: Seq<char>,
    next: Seq<char>,
    up: bool,
    col: int,
) -> SessionView {
    let saved = with_text(v, id, v.editing_value);
    match content_of(v.navs, next) {
        None => saved,
        Some(text) => opened_row(saved, next, text, Some(landing(text, up, col) as u32)),
    }
}

proof fn lemma_pos_fits(text: Seq<char>, line: int, col: int)
    requires
        0 <= line,
        0 <= col,
    ensures
        0 <= pos_of_line_col(text, line, col) <= utf16_len(text),
{
    let lines = split_lines(text);
    crate::text::lemma_lines_text_whole(text);
    if line < lines.len() {
        crate::text::lemma_lines_text_grows(lines, line + 1, lines.len() as int);
        let before = crate::text::lines_text(lines, line);
        crate::text::lemma_utf16_concat(before, lines[line]);
        crate::text::lemma_utf16_push(before + lines[line], '\n');
    }
}

impl Session {
    /// Goes to the row above or below.
    pub fn jump(&mut self, id: &str, up: bool) -> (r: Vec<Change>)
        requires
            outline_ends(old(self)@.navs),
        ensures
            final(self)@ == jumped(old(self)@, id@, up),
            change_views(r@) == text_change(
                with_text(old(self)@, id@, old(self)@.editing_value),
                id@,
                old(self)@.editing_value,
            ),
    {
        let ghost v = self@;
        let changes = self.save_current(id);
        proof {
            lemma_content_is_no_shape(v.navs, id@, v.editing_value);
            law_texts_do_not_shape_the_outline(v.navs, self@.navs, id@);
        }
        let visible = collect_visible_preorder_ids(self.navs.as_slice());
        if let Some(i) = find_place(visible.as_slice(), id) {
            if let Some(next) = neighbour_at(visible.as_slice(), i, up) {
                if let Some(text) = get_nav_content(self.navs.as_slice(), next.as_str()) {
                    self.open_row(next.as_str(), text.as_str(), Some(0));
                }
            }
        }
        changes
    }

    /// Carries out an arrow key up or down, with the caret at position `cursor` of `text`,
    /// in line `line` of `total`.
    pub fn step_line(
        &mut self,
        id: &str,
        up: bool,
        line: u32,
        total: u32,
        text: &str,
        cursor: u32,
    ) -> (r: LineStep)
        requires
            outline_ends(old(self)@.navs),
            utf16_len(text@) < u32::MAX,
            texts_fit(old(self)@.navs),
        ensures
            ({
                let v = old(self)@;
                let visible = visible_ids(v.navs);
                if !leaves_row(up, line, total) || place_in(visible, id@) is None {
                    r is Inside && final(self)@ == v
                } else {
                    match neighbour(visible, id@, up) {
                        Some(next) => {
                            &&& final(self)@ == stepped_away(
                                v,
                                id@,
                                next,
                                up,
                                column_at(text@, cursor as int),
                            )
                            &&& r matches LineStep::Away(changes) && change_views(changes@)
                                == text_change(
                                with_text(v, id@, v.editing_value),
                                id@,
                                v.editing_value,
                            )
                        },
                        None => {
                            let pos = line_edge(text@, up, line);
                            &&& r matches LineStep::Caret(p) && p == pos
                            &&& final(self)@ == (SessionView {
                                target_cursor_col: Some(column_at(text@, pos) as u32),
                                ..v
                            })
                        },
                    }
                }
            }),
    {
        let ghost v = self@;
        let leaves = if up {
            line == 0
        } else {
            total > 0 && line >= total - 1
        };
        if !leaves {
            return LineStep::Inside;
        }
        let visible = collect_visible_preorder_ids(self.navs.as_slice());
        let i: usize = match find_place(visible.as_slice(), id) {
            Some(i) => i,
            None => {
                return LineStep::Inside;
            },
        };
        match neighbour_at(visible.as_slice(), i, up) {
            Some(next) => {
                let (_line, col) = utf16_line_col_at_pos(text, cursor);
                let found = get_nav_content(self.navs.as_slice(), next.as_str());
                let changes = self.save_current(id);
                if let Some(content) = found {
                    proof {
                        lemma_nav_index(v.navs, next@);
                    }
                    let pos: u32 = landing_of(content.as_str(), up, col);
                    proof {
                        crate::text::lemma_split_lines_nonempty(content@);
                        lemma_pos_fits(content@, split_lines(content@).len() - 1, col as int);
                        lemma_pos_fits(content@, 0, col as int);
                    }
                    self.open_row(next.as_str(), content.as_str(), Some(pos));
                }
                LineStep::Away(changes)
            },
            None => {
                let pos: u32 = utf16_pos_for_line_col(
                    text,
                    line,
                    if up {
                        0
                    } else {
                        u32::MAX
                    },
                );
                let (_line, col) = utf16_line_col_at_pos(text, pos);
                self.target_cursor_col = Some(col);
                LineStep::Caret(pos)
            },
        }
    }
}

fn landing_of(text: &str, up: bool, col: u32) -> (r: u32)
    requires
        utf16_len(text@) < u32::MAX,
    ensures
        r == landing(text@, up, col as int),
{
    if up {
        let chars = to_chars(text);
        let count: usize = split_lines_of(chars.as_slice()).len();
        proof {
            crate::text::lemma_split_lines_nonempty(text@);
            crate::text::lemma_len_bounds(text@);
        }
        utf16_pos_for_line_col(text, (count - 1) as u32, col)
    } else {
        utf16_pos_for_line_col(text, 0, col)
    }
}

// ---- to the row before or behind ----

/// A session once the caret went from the start of a row to the one before it, or stayed
/// for want of one.
pub open spec fn stepped_left(v: SessionView, id: Seq<char>) -> SessionView {
    let saved = SessionView {
        target_cursor_col: None,
        ..with_text(v, id, v.editing_value)
    };
    match left_target(saved.navs, id) {
        None => saved,
        Some(target) => match content_of(saved.navs, target) {
            None => saved,
            Some(text) => opened_row(saved, target, text, Some(utf16_len(text) as u32)),
        },
    }
}

/// A session once the caret went from the end of a row to its first child. The row is
/// opened for that where it is closed.
pub open spec fn stepped_right(
    v: SessionView,
    id: Seq<char>,
    target: Seq<char>,
    open: bool,
) -> SessionView {
    let saved = SessionView {
        target_cursor_col: None,
        ..with_text(v, id, v.editing_value)
    };
    let shown = if open {
        SessionView { navs: with_display(saved.navs, id, true), ..saved }
    } else {
        saved
    };
    match content_of(v.navs, target) {
        None => shown,
        Some(text) => opened_row(shown, target, text, Some(0)),
    }
}

impl Session {
    /// Carries out the left arrow key, with the selection from `start` to `end`. Only at
    /// the start of the row there is something to do.
    pub fn step_left(&mut self, id: &str, start: u32, end: u32) -> (r: Option<Vec<Change>>)
        requires
            texts_fit(with_text(old(self)@, id@, old(self)@.editing_value).navs),
        ensures
            match r {
                None => final(self)@ == old(self)@ && !(start == end && start == 0),
                Some(changes) => {
                    &&& start == end && start == 0
                    &&& final(self)@ == stepped_left(old(self)@, id@)
                    &&& change_views(changes@) == text_change(
                        with_text(old(self)@, id@, old(self)@.editing_value),
                        id@,
                        old(self)@.editing_value,
                    )
                },
            },
    {
        if start != end || start != 0 {
            return None;
        }
        let ghost v = self@;
        let changes = self.save_current(id);
        self.target_cursor_col = None;
        if let Some(target) = arrow_left_boundary_target_id(self.navs.as_slice(), id) {
            if let Some(text) = get_nav_content(self.navs.as_slice(), target.as_str()) {
                proof {
                    lemma_nav_index(self@.navs, target@);
                }
                let len: u32 = utf16_len_of(text.as_str());
                self.open_row(target.as_str(), text.as_str(), Some(len));
            }
        }
        Some(changes)
    }

    /// Carries out the right arrow key, with the selection from `start` to `end` in a text
    /// of length `len`. Only at the end of a row with children there is something to do.
    pub fn step_right(&mut self, id: &str, start: u32, end: u32, len: u32) -> (r: Option<Vec<Change>>)
        ensures
            ({
                let v = old(self)@;
                let saved = with_text(v, id@, v.editing_value);
                let text_part = text_change(saved, id@, v.editing_value);
                match right_target(v.navs, id@) {
                    Some((target, open)) if start == end && start == len => {
                        &&& final(self)@ == stepped_right(v, id@, target, open)
                        &&& r matches Some(changes) && change_views(changes@) == if open {
                            text_part + meta_change(with_display(saved.navs, id@, true), id@)
                        } else {
                            text_part
                        }
                    },
                    _ => r is None && final(self)@ == v,
                }
            }),
    {
        if start != end || start != len {
            return None;
        }
        let ghost v = self@;
        match arrow_right_boundary_target(self.navs.as_slice(), id) {
            None => None,
            Some((target, open)) => {
                let found = get_nav_content(self.navs.as_slice(), target.as_str());
                let mut changes = self.save_current(id);
                self.target_cursor_col = None;
                if open {
                    apply_nav_display(self.navs.as_mut_slice(), id, true);
                    let more = self.meta_change_of(id);
                    append_changes(&mut changes, more);
                }
                if let Some(text) = found {
                    self.open_row(target.as_str(), text.as_str(), Some(0));
                }
                Some(changes)
            },
        }
    }
}

/// Appends changes to others.
pub(crate) fn append_changes(changes: &mut Vec<Change>, more: Vec<Change>)
    ensures
        change_views(final(changes)@) == change_views(old(changes)@) + change_views(more@),
{
    let mut more = more;
    let ghost start = changes@;
    let ghost added = more@;
    changes.append(&mut more);
    assert(change_views(changes@) =~= change_views(start) + change_views(added));
}

// ---- moving the row ----

/// A session once a row has another order number. The text that is being edited is put
/// in the row, which stays open.
pub open spec fn reordered(v: SessionView, id: Seq<char>, order: int) -> SessionView {
    kept_open(
        SessionView {
            navs: with_order(with_content(v.navs, id, v.editing_value), id, order),
            ..v
        },
        id,
    )
}

/// A session once a row has another parent, which is opened where the row moved down.
pub open spec fn replaced_row(
    v: SessionView,
    id: Seq<char>,
    parid: Seq<char>,
    order: int,
    down: bool,
) -> SessionView {
    let placed = with_place(v.navs, id, parid, order);
    kept_open(
        SessionView {
            navs: if down {
                with_display(placed, parid, true)
            } else {
                placed
            },
            ..v
        },
        id,
    )
}

/// The parent and the order number of a row that moves one level down or up.
pub open spec fn tab_target(navs: Seq<NavView>, id: Seq<char>, down: bool) -> Option<
    (Seq<char>, OrderRule),
> {
    if down {
        indent_target(navs, id)
    } else {
        outdent_target(navs, id)
    }
}

impl Session {
    /// How the order number of a row that moves up or down among its siblings is made. The
    /// caret is to stay where it is.
    pub fn plan_move(&mut self, id: &str, up: bool, cursor: u32) -> (r: Option<OrderRule>)
        ensures
            final(self)@ == (SessionView { target_cursor_col: Some(cursor), ..old(self)@ }),
            r == move_rule(old(self)@.navs, id@, up),
    {
        self.target_cursor_col = Some(cursor);
        move_among_siblings(self.navs.as_slice(), id, up)
    }

    /// Moves a row among its siblings.
    pub fn finish_move(&mut self, id: &str, order: i32) -> (r: Vec<Change>)
        ensures
            final(self)@ == reordered(old(self)@, id@, order as int),
            change_views(r@) == meta_change(final(self)@.navs, id@),
    {
        let content = self.editing_value.clone();
        apply_nav_content(self.navs.as_mut_slice(), id, content.as_str());
        apply_nav_order(self.navs.as_mut_slice(), id, order);
        self.keep_open(id);
        self.meta_change_of(id)
    }

    /// The parent and the order number of a row that moves one level down or up. The text
    /// that is being edited is put in the row.
    pub fn plan_tab(&mut self, id: &str, down: bool) -> (r: Option<(String, OrderRule)>)
        ensures
            final(self)@ == with_text(old(self)@, id@, old(self)@.editing_value),
            match r {
                Some((parid, rule)) => tab_target(old(self)@.navs, id@, down) == Some(
                    (parid@, rule),
                ),
                None => tab_target(old(self)@.navs, id@, down) is None,
            },
    {
        let target = if down {
            place_indented(self.navs.as_slice(), id)
        } else {
            place_outdented(self.navs.as_slice(), id)
        };
        let content = self.editing_value.clone();
        apply_nav_content(self.navs.as_mut_slice(), id, content.as_str());
        target
    }

    /// Moves a row one level down or up.
    pub fn finish_tab(&mut self, id: &str, parid: &str, order: i32, down: bool) -> (r: Vec<Change>)
        ensures
            final(self)@ == replaced_row(old(self)@, id@, parid@, order as int, down),
            change_views(r@) == meta_change(final(self)@.navs, id@),
    {
        apply_nav_place(self.navs.as_mut_slice(), id, parid, order);
        if down {
            apply_nav_display(self.navs.as_mut_slice(), parid, true);
        }
        self.keep_open(id);
        self.meta_change_of(id)
    }
}

// ---- laws ----

/// Moving the caret from row to row changes no row but for the text that was being edited.
pub proof fn law_stepping_keeps_the_rows(v: SessionView, id: Seq<char>, next: Seq<char>, up: bool, col: int)
    ensures
        jumped(v, id, up).navs == with_content(v.navs, id, v.editing_value),
        stepped_away(v, id, next, up, col).navs == with_content(v.navs, id, v.editing_value),
        stepped_left(v, id).navs == with_content(v.navs, id, v.editing_value),
{
}

/// Going to the row below and then to the one above, or the other way round, leads back.
pub proof fn law_jump_back(ids: Seq<Seq<char>>, id: Seq<char>, up: bool)
    requires
        ids.no_duplicates(),
        neighbour(ids, id, up) is Some,
    ensures
        neighbour(ids, neighbour(ids, id, up)->0, !up) == Some(id),
{
    lemma_place_in(ids, id);
    let next = neighbour(ids, id, up)->0;
    lemma_place_in(ids, next);
    let i = place_in(ids, id)->0;
    let j = if up {
        i - 1
    } else {
        i + 1
    };
    assert(ids[j] == next);
    assert(ids.contains(next));
    let k = place_in(ids, next)->0;
    assert(k == j) by {
        assert(ids[k] == ids[j]);
    }
}

pub proof fn lemma_place_in(ids: Seq<Seq<char>>, id: Seq<char>)
    ensures
        match place_in(ids, id) {
            Some(i) => 0 <= i < ids.len() && ids[i] == id,
            None => !ids.contains(id),
        },
    decreases ids.len(),
{
    if ids.len() > 0 {
        let p = ids.drop_last();
        lemma_place_in(p, id);
        if let Some(i) = place_in(p, id) {
            assert(ids[i] == p[i]);
        } else if ids.last() != id && ids.contains(id) {
            let j = choose|j: int| 0 <= j < ids.len() && ids[j] == id;
            assert(p[j] == id);
        }
    }
}

/// Moving a row one level down or up, or among its siblings, keeps trees trees.
pub proof fn law_moving_keeps_forest(v: SessionView, id: Seq<char>, order: int, down: bool)
    requires
        is_forest(v.navs),
    ensures
        is_forest(reordered(v, id, order).navs),
        tab_target(v.navs, id, down) matches Some((parid, _)) ==> is_forest(
            replaced_row(with_text(v, id, v.editing_value), id, parid, order, down).navs,
        ),
{
    let texted = with_content(v.navs, id, v.editing_value);
    lemma_nav_index(v.navs, id);
    lemma_nav_index(texted, id);
    lemma_same_ids(v.navs, texted, id);
    law_same_shape_keeps_forest(v.navs, reordered(v, id, order).navs);
    if let Some((parid, _)) = tab_target(v.navs, id, down) {
        if down {
            law_indent_keeps_forest(v.navs, id, order);
        } else {
            law_outdent_keeps_forest(v.navs, id, order);
        }
        let placed = with_place(v.navs, id, parid, order);
        let both = with_place(texted, id, parid, order);
        lemma_nav_index(both, parid);
        law_same_shape_keeps_forest(
            placed,
            replaced_row(with_text(v, id, v.editing_value), id, parid, order, down).navs,
        );
    }
}

} // verus!
