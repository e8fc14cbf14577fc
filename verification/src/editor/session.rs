//! An outline that is being edited: its rows, which of them is open for editing, and the
//! text that is being edited there.

use crate::editor::rows::{apply_nav_content, apply_nav_display, get_nav_content};
use crate::models::{find_nav, Nav};
use crate::text::{is_blank_str, opt_str_eq, str_eq};
use vstd::prelude::*;

verus! {

use crate::editor::rows::{
    content_of, law_content_read_after_write, lemma_same_ids, with_content, with_display,
};
use crate::models::{lemma_nav_index, nav_index, nav_views, opt_view, NavView};
use crate::text::is_blank;

// ---- the session ----

/// An outline that is being edited.
#[derive(Debug, PartialEq, Eq)]
pub struct Session {
    pub navs: Vec<Nav>,
    /// The row that is open for editing.
    pub editing_id: Option<String>,
    /// The text that is being edited.
    pub editing_value: String,
    /// A row and the text that it had when it was opened.
    pub editing_snapshot: Option<(String, String)>,
    /// Where the caret goes once the row is shown.
    pub target_cursor_col: Option<u32>,
}

/// What a session holds.
#[verifier::ext_equal]
pub struct SessionView {
    pub navs: Seq<NavView>,
    pub editing_id: Option<Seq<char>>,
    pub editing_value: Seq<char>,
    pub editing_snapshot: Option<(Seq<char>, Seq<char>)>,
    pub target_cursor_col: Option<u32>,
}

impl View for Session {
    type V = SessionView;

    open spec fn view(&self) -> SessionView {
        SessionView {
            navs: nav_views(self.navs@),
            editing_id: opt_view(self.editing_id),
            editing_value: self.editing_value@,
            editing_snapshot: match self.editing_snapshot {
                Some((id, text)) => Some((id@, text@)),
                None => None,
            },
            target_cursor_col: self.target_cursor_col,
        }
    }
}

/// A change to pass on to the drafts.
#[derive(Debug, PartialEq, Eq)]
pub enum Change {
    /// The text of a row.
    Content { id: String, content: String },
    /// Place and state of a row.
    Meta(Nav),
}

/// What a change holds.
pub enum ChangeView {
    Content { id: Seq<char>, content: Seq<char> },
    Meta(NavView),
}

impl View for Change {
    type V = ChangeView;

    open spec fn view(&self) -> ChangeView {
        match self {
            Change::Content { id, content } => ChangeView::Content { id: id@, content: content@ },
            Change::Meta(n) => ChangeView::Meta(n@),
        }
    }
}

pub open spec fn change_views(changes: Seq<Change>) -> Seq<ChangeView> {
    Seq::new(changes.len(), |i: int| changes[i]@)
}

/// The place and state of a row as a change, if there is such a row.
pub open spec fn meta_change(navs: Seq<NavView>, id: Seq<char>) -> Seq<ChangeView> {
    match nav_index(navs, id) {
        Some(i) => seq![ChangeView::Meta(navs[i])],
        None => Seq::empty(),
    }
}

// ---- what is to be saved ----

/// Whether a text is not the one that a row had when it was opened, or else not the one
/// that it has.
pub open spec fn is_changed(v: SessionView, id: Seq<char>, content: Seq<char>) -> bool {
    match v.editing_snapshot {
        Some((row, text)) if row == id => text != content,
        _ => match content_of(v.navs, id) {
            Some(text) => text != content,
            None => content.len() > 0,
        },
    }
}

/// The change of a text, if it is one.
pub open spec fn text_change(v: SessionView, id: Seq<char>, content: Seq<char>) -> Seq<ChangeView> {
    if is_changed(v, id, content) {
        seq![ChangeView::Content { id, content }]
    } else {
        Seq::empty()
    }
}

/// A session with a text put in a row.
pub open spec fn with_text(v: SessionView, id: Seq<char>, content: Seq<char>) -> SessionView {
    SessionView { navs: with_content(v.navs, id, content), ..v }
}

/// A session with a row open for editing.
pub open spec fn opened_row(
    v: SessionView,
    id: Seq<char>,
    content: Seq<char>,
    col: Option<u32>,
) -> SessionView {
    SessionView {
        editing_id: Some(id),
        editing_value: content,
        editing_snapshot: Some((id, content)),
        target_cursor_col: col,
        ..v
    }
}

/// A session in which a row stays open as it is.
pub open spec fn kept_open(v: SessionView, id: Seq<char>) -> SessionView {
    SessionView {
        editing_id: Some(id),
        editing_snapshot: Some((id, v.editing_value)),
        ..v
    }
}

/// A session once a row is no longer open.
pub open spec fn closed_row(v: SessionView, id: Seq<char>) -> SessionView {
    if v.editing_id == Some(id) {
        SessionView { editing_id: None, editing_snapshot: None, ..v }
    } else {
        v
    }
}

/// The rows with one of them opened where it was closed, and the other way round.
pub open spec fn toggled(navs: Seq<NavView>, id: Seq<char>) -> Seq<NavView> {
    match nav_index(navs, id) {
        Some(i) => with_display(navs, id, !navs[i].is_display),
        None => navs,
    }
}

impl Session {
    /// A session without rows.
    pub fn new() -> (r: Self)
        ensures
            r@ == (SessionView {
                navs: Seq::empty(),
                editing_id: None,
                editing_value: Seq::empty(),
                editing_snapshot: None,
                target_cursor_col: None,
            }),
    {
        let r = Session {
            navs: Vec::new(),
            editing_id: None,
            editing_value: String::new(),
            editing_snapshot: None,
            target_cursor_col: None,
        };
        assert(nav_views(r.navs@) =~= Seq::<NavView>::empty());
        r
    }

    /// Whether a text is a change to a row.
    fn is_changed_by(&self, id: &str, content: &str) -> (r: bool)
        ensures
            r == is_changed(self@, id@, content@),
    {
        if let Some((row, text)) = &self.editing_snapshot {
            if str_eq(row.as_str(), id) {
                return !str_eq(text.as_str(), content);
            }
        }
        match get_nav_content(self.navs.as_slice(), id) {
            Some(text) => !str_eq(text.as_str(), content),
            None => {
                proof {
                    reveal_strlit("");
                    if content@.len() == 0 {
                        assert(content@ =~= ""@);
                    }
                }
                !str_eq(content, "")
            },
        }
    }

    pub(crate) fn text_change_of(&self, id: &str, content: &str) -> (r: Vec<Change>)
        ensures
            change_views(r@) == text_change(self@, id@, content@),
    {
        let mut out: Vec<Change> = Vec::new();
        if self.is_changed_by(id, content) {
            out.push(Change::Content { id: id.to_string(), content: content.to_string() });
        }
        assert(change_views(out@) =~= text_change(self@, id@, content@));
        out
    }

    pub(crate) fn meta_change_of(&self, id: &str) -> (r: Vec<Change>)
        ensures
            change_views(r@) == meta_change(self@.navs, id@),
    {
        let mut out: Vec<Change> = Vec::new();
        if let Some(i) = find_nav(self.navs.as_slice(), id) {
            out.push(Change::Meta(self.navs[i].clone()));
        }
        assert(change_views(out@) =~= meta_change(self@.navs, id@));
        out
    }

    /// Puts a text in a row. The change is told by what the row holds then.
    pub fn save_row(&mut self, id: &str, content: &str) -> (r: Vec<Change>)
        ensures
            final(self)@ == with_text(old(self)@, id@, content@),
            change_views(r@) == text_change(final(self)@, id@, content@),
    {
        apply_nav_content(self.navs.as_mut_slice(), id, content);
        self.text_change_of(id, content)
    }

    /// Puts the text that is being edited in a row.
    pub fn save_current(&mut self, id: &str) -> (r: Vec<Change>)
        ensures
            final(self)@ == with_text(old(self)@, id@, old(self)@.editing_value),
            change_views(r@) == text_change(final(self)@, id@, old(self)@.editing_value),
    {
        let content = self.editing_value.clone();
        self.save_row(id, content.as_str())
    }

    /// Puts a text in a row. The change is told by what the row held before.
    pub fn commit_edit(&mut self, id: &str, content: &str) -> (r: Vec<Change>)
        ensures
            final(self)@ == with_text(old(self)@, id@, content@),
            change_views(r@) == text_change(old(self)@, id@, content@),
    {
        let changes = self.text_change_of(id, content);
        apply_nav_content(self.navs.as_mut_slice(), id, content);
        changes
    }

    /// Opens a row for editing.
    pub fn open_row(&mut self, id: &str, content: &str, col: Option<u32>)
        ensures
            final(self)@ == opened_row(old(self)@, id@, content@, col),
    {
        self.editing_id = Some(id.to_string());
        self.editing_value = content.to_string();
        self.editing_snapshot = Some((id.to_string(), content.to_string()));
        self.target_cursor_col = col;
    }

    /// Keeps a row open as it is.
    pub(crate) fn keep_open(&mut self, id: &str)
        ensures
            final(self)@ == kept_open(old(self)@, id@),
    {
        self.editing_id = Some(id.to_string());
        self.editing_snapshot = Some((id.to_string(), self.editing_value.clone()));
    }

    /// Closes a row if it is open.
    pub fn close_row(&mut self, id: &str)
        ensures
            final(self)@ == closed_row(old(self)@, id@),
    {
        if opt_str_eq(&self.editing_id, id) {
            self.editing_id = None;
            self.editing_snapshot = None;
        }
    }

    /// Shows or hides what is below a row.
    pub fn toggle(&mut self, id: &str) -> (r: Vec<Change>)
        ensures
            final(self)@ == (SessionView { navs: toggled(old(self)@.navs, id@), ..old(self)@ }),
            change_views(r@) == meta_change(final(self)@.navs, id@),
    {
        if let Some(i) = find_nav(self.navs.as_slice(), id) {
            let is_display: bool = !self.navs[i].is_display;
            apply_nav_display(self.navs.as_mut_slice(), id, is_display);
        }
        self.meta_change_of(id)
    }
}

/// The row and the note that an edit belongs to: as the shown element tells, or else as
/// known before. There is no edit without names.
pub fn edit_scope(
    nav_attr: &str,
    note_attr: &str,
    nav_known: &str,
    note_known: &str,
) -> (r: Option<(String, String)>)
    ensures
        ({
            let nav = if is_blank(nav_attr@) {
                nav_known@
            } else {
                nav_attr@
            };
            let note = if is_blank(note_attr@) {
                note_known@
            } else {
                note_attr@
            };
            match r {
                Some((a, b)) => a@ == nav && b@ == note && !is_blank(nav) && !is_blank(note),
                None => is_blank(nav) || is_blank(note),
            }
        }),
{
    let nav: &str = if is_blank_str(nav_attr) {
        nav_known
    } else {
        nav_attr
    };
    let note: &str = if is_blank_str(note_attr) {
        note_known
    } else {
        note_attr
    };
    if is_blank_str(nav) || is_blank_str(note) {
        None
    } else {
        Some((nav.to_string(), note.to_string()))
    }
}

// ---- laws ----

/// What was saved is not a change any more: saving the same text again, with the row
/// opened anew or without it open, passes nothing on.
pub proof fn law_saved_text_is_no_change(
    v: SessionView,
    id: Seq<char>,
    content: Seq<char>,
    col: Option<u32>,
)
    requires
        nav_index(v.navs, id) is Some,
    ensures
        ({
            let saved = with_text(v, id, content);
            &&& !is_changed(opened_row(saved, id, content, col), id, content)
            &&& !is_changed((SessionView { editing_snapshot: None, ..saved }), id, content)
        }),
{
    law_content_read_after_write(v.navs, id, id, content);
}

/// Toggling a row twice gives the rows back.
pub proof fn law_toggle_twice(navs: Seq<NavView>, id: Seq<char>)
    ensures
        toggled(toggled(navs, id), id) == navs,
{
    lemma_nav_index(navs, id);
    let once = toggled(navs, id);
    if nav_index(navs, id) is Some {
        lemma_same_ids(navs, once, id);
        assert(toggled(once, id) =~= navs);
    }
}

} // verus!
