//! How rows look and what the pointer does to them.

use crate::editor::placement::{compute_reorder_target, ReorderTarget};
use crate::editor::rows::apply_nav_place;
use crate::editor::session::{Change, Session};
use crate::editor::tree::is_ancestor_of;
use crate::models::{find_nav, Nav};
use crate::text::{is_blank_str, split_lines_of, to_chars};
use vstd::prelude::*;

verus! {

use crate::editor::placement::reorder_target;
use crate::editor::rows::with_place;
use crate::editor::session::{change_views, meta_change, SessionView};
use crate::editor::tree::is_ancestor;
use crate::models::{nav_index, nav_views, opt_view};
use crate::text::{is_blank, split_lines};

// ---- classes ----

/// The classes of a row that is open for editing and marked.
pub const ROW_EDITING_MARKED: &'static str =
    "group outline-row outline-row--editing outline-row--focus-flash -ml-10 pl-10 flex items-start gap-0.5 py-0 rounded-md";

/// The classes of a row that is open for editing.
pub const ROW_EDITING: &'static str =
    "group outline-row outline-row--editing -ml-10 pl-10 flex items-start gap-0.5 py-0";

/// The classes of a row that is being dragged.
pub const ROW_DRAGGED: &'static str =
    "group outline-row -ml-10 pl-10 flex items-start gap-0.5 py-0 rounded-md bg-muted/30 opacity-40";

/// The classes of a row that another is dragged over.
pub const ROW_DRAGGED_OVER: &'static str =
    "group outline-row -ml-10 pl-10 flex items-start gap-0.5 py-0 rounded-md bg-muted ring-1 ring-ring/40";

/// The classes of a row that is marked.
pub const ROW_MARKED: &'static str =
    "group outline-row outline-row--focus-flash -ml-10 pl-10 flex items-start gap-0.5 py-0 rounded-md";

/// The classes of any other row.
pub const ROW_PLAIN: &'static str = "group outline-row -ml-10 pl-10 flex items-start gap-0.5 py-0";

/// The classes of a row. Editing comes before dragging, and dragging before a mark.
pub fn outline_row_class(
    is_editing: bool,
    is_focused_once: bool,
    is_dragging: bool,
    is_drag_source: bool,
    is_drag_over: bool,
) -> (r: &'static str)
    ensures
        r@ == (if is_editing && is_focused_once {
            ROW_EDITING_MARKED@
        } else if is_editing {
            ROW_EDITING@
        } else if is_dragging && is_drag_source {
            ROW_DRAGGED@
        } else if is_dragging && is_drag_over {
            ROW_DRAGGED_OVER@
        } else if is_focused_once {
            ROW_MARKED@
        } else {
            ROW_PLAIN@
        }),
{
    if is_editing {
        if is_focused_once {
            return ROW_EDITING_MARKED;
        }
        return ROW_EDITING;
    }
    if is_dragging && is_drag_source {
        return ROW_DRAGGED;
    }
    if is_dragging && is_drag_over {
        return ROW_DRAGGED_OVER;
    }
    if is_focused_once {
        return ROW_MARKED;
    }
    ROW_PLAIN
}

/// The text to show in a row that is not open, and the number of its lines. Of a blank
/// text nothing is shown.
pub fn shown_content(content: &str) -> (r: (String, usize))
    ensures
        r.0@ == if is_blank(content@) {
            Seq::empty()
        } else {
            content@
        },
        r.1 == split_lines(r.0@).len(),
{
    let text = if is_blank_str(content) {
        let none = String::new();
        assert(none@ =~= Seq::<char>::empty());
        none
    } else {
        content.to_string()
    };
    let chars = to_chars(text.as_str());
    let lines: usize = split_lines_of(chars.as_slice()).len();
    (text, lines)
}

// ---- leaving a row ----

/// What an element that is clicked or focused is part of.
#[derive(Debug, Clone, Copy, PartialEq, Eq, Structural)]
pub struct Surroundings {
    /// The outline.
    pub in_outline: bool,
    /// The editable part of a row.
    pub in_editor: bool,
    /// A row.
    pub in_row: bool,
    /// A control such as an input or a button.
    pub in_control: bool,
}

/// Whether the focus leaves the outline: it goes to an element, and that is not in it.
pub fn should_exit_edit_on_focusout_related_target(related: Option<Surroundings>) -> (r: bool)
    ensures
        r == (related matches Some(s) && !s.in_outline),
{
    match related {
        Some(s) => !s.in_outline,
        None => false,
    }
}

/// Whether a click leaves the row that is open: one on an element that is neither part of
/// a row nor a control.
pub fn should_exit_edit_on_click_target(target: Option<Surroundings>) -> (r: bool)
    ensures
        r == (target matches Some(s) && !s.in_editor && !s.in_row && !s.in_control),
{
    match target {
        Some(s) => !s.in_editor && !s.in_row && !s.in_control,
        None => false,
    }
}

/// Whether an element is a control outside of the outline.
pub fn is_external_control(s: Surroundings) -> (r: bool)
    ensures
        r == (s.in_control && !s.in_outline),
{
    s.in_control && !s.in_outline
}

// ---- pointing at a row ----

/// The row whose connector is hidden while the pointer is on a row with children: its
/// parent, if that has a name.
pub fn hovered_parent(navs: &[Nav], id: &str, has_kids: bool) -> (r: Option<String>)
    ensures
        opt_view(r) == match nav_index(nav_views(navs@), id@) {
            Some(i) if has_kids && !is_blank(nav_views(navs@)[i].parid) => Some(
                nav_views(navs@)[i].parid,
            ),
            _ => None,
        },
{
    if !has_kids {
        return None;
    }
    match find_nav(navs, id) {
        Some(i) => {
            assert(nav_views(navs@)[i as int] == navs@[i as int]@);
            if is_blank_str(navs[i].parid.as_str()) {
                None
            } else {
                Some(navs[i].parid.clone())
            }
        },
        None => None,
    }
}

/// Whether a row that is dragged may be dropped on another: not on one that hangs below it.
pub fn may_drop_on(navs: &[Nav], dragged: &str, target: &str) -> (r: bool)
    ensures
        r == (is_blank(dragged@) || !is_ancestor(nav_views(navs@), dragged@, target@)),
{
    is_blank_str(dragged) || !is_ancestor_of(navs, dragged, target)
}

/// What a drop comes to.
#[derive(Debug, PartialEq, Eq)]
pub enum DropStep {
    /// Nothing is dragged, or not to a place where it may go. Dragging goes on.
    Refused,
    /// Dragging is over, and nothing moves.
    Over,
    /// Dragging is over, and the row moves.
    Move(ReorderTarget),
}

impl Session {
    /// What dropping a row before or behind another comes to.
    pub fn plan_drop(&self, dragged: &str, target: &str, insert_after: bool) -> (r: DropStep)
        ensures
            if is_blank(dragged@) || is_ancestor(self@.navs, dragged@, target@) {
                r is Refused
            } else {
                match r {
                    DropStep::Refused => false,
                    DropStep::Over => reorder_target(
                        self@.navs,
                        dragged@,
                        target@,
                        insert_after,
                    ) is None,
                    DropStep::Move(to) => reorder_target(
                        self@.navs,
                        dragged@,
                        target@,
                        insert_after,
                    ) == Some(to@),
                }
            },
    {
        if is_blank_str(dragged) || is_ancestor_of(self.navs.as_slice(), dragged, target) {
            return DropStep::Refused;
        }
        match compute_reorder_target(self.navs.as_slice(), dragged, target, insert_after) {
            Some(to) => DropStep::Move(to),
            None => DropStep::Over,
        }
    }

    /// Moves a row that was dropped.
    pub fn finish_drop(&mut self, dragged: &str, parid: &str, order: i32) -> (r: Vec<Change>)
        ensures
            final(self)@ == (SessionView {
                navs: with_place(old(self)@.navs, dragged@, parid@, order as int),
                ..old(self)@
            }),
            change_views(r@) == meta_change(final(self)@.navs, dragged@),
    {
        apply_nav_place(self.navs.as_mut_slice(), dragged, parid, order);
        self.meta_change_of(dragged)
    }
}

// ---- the list of suggestions ----

/// How far a list is scrolled so that a row of it can be seen: as little as it takes.
pub open spec fn scrolled(row_top: int, row_height: int, view_top: int, view_height: int) -> int {
    if row_top < view_top {
        row_top
    } else if row_top + row_height > view_top + view_height {
        row_top + row_height - view_height
    } else {
        view_top
    }
}

/// How far to scroll a list so that a row of it can be seen.
pub fn scroll_to_row(row_top: i32, row_height: i32, view_top: i32, view_height: i32) -> (r: i32)
    requires
        i32::MIN <= scrolled(
            row_top as int,
            row_height as int,
            view_top as int,
            view_height as int,
        ) <= i32::MAX,
    ensures
        r == scrolled(row_top as int, row_height as int, view_top as int, view_height as int),
{
    let row_bottom: i64 = row_top as i64 + row_height as i64;
    let view_bottom: i64 = view_top as i64 + view_height as i64;
    if row_top < view_top {
        row_top
    } else if row_bottom > view_bottom {
        (row_bottom - view_height as i64) as i32
    } else {
        view_top
    }
}

/// A row that is no higher than the list can be seen whole once the list is scrolled, and
/// a list in which it can be seen is not scrolled.
pub proof fn law_scrolled_row_is_seen(
    row_top: int,
    row_height: int,
    view_top: int,
    view_height: int,
)
    requires
        0 <= row_height <= view_height,
    ensures
        ({
            let top = scrolled(row_top, row_height, view_top, view_height);
            &&& top <= row_top
            &&& row_top + row_height <= top + view_height
            &&& view_top <= row_top && row_top + row_height <= view_top + view_height ==> top
                == view_top
        }),
{
}

} // verus!
