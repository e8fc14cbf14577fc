//! Which row is opened when an outline comes in.

use crate::drafts::note::NoteDraft;
use crate::drafts::overlay::apply_local_draft_overlay;
use crate::editor::rows::should_clear_stale_editing_id;
use crate::editor::session::Session;
use crate::editor::tree::collect_visible_preorder_ids;
use crate::models::{contains_str, find_nav, Nav};
use crate::text::{from_chars, str_eq, to_chars};
use vstd::prelude::*;

verus! {

use crate::drafts::overlay::{content_over, meta_over};
use crate::editor::session::{opened_row, SessionView};
use crate::editor::tree::{outline_ends, visible_ids};
use crate::models::{nav_index, nav_views, opt_view, str_views, NavView};
use crate::text::{is_blank, is_white_space};

// ---- trimming ----

/// A text without the white space that it begins with.
pub open spec fn trimmed_front(s: Seq<char>) -> Seq<char>
    decreases s.len(),
{
    if s.len() > 0 && is_white_space(s[0]) {
        trimmed_front(s.drop_first())
    } else {
        s
    }
}

/// A text without the white space that it ends in.
pub open spec fn trimmed_back(s: Seq<char>) -> Seq<char>
    decreases s.len(),
{
    if s.len() > 0 && is_white_space(s.last()) {
        trimmed_back(s.drop_last())
    } else {
        s
    }
}

/// A text without the white space around it.
pub open spec fn trimmed(s: Seq<char>) -> Seq<char> {
    trimmed_back(trimmed_front(s))
}

/// A text without the white space around it.
fn trim_of(s: &str) -> (r: String)
    ensures
        r@ == trimmed(s@),
{
    let chars = to_chars(s);
    let mut from: usize = 0;
    assert(chars@.skip(0) =~= chars@);
    while from < chars.len() && chars[from].is_whitespace()
        invariant
            from <= chars@.len(),
            chars@ == s@,
            trimmed_front(chars@.skip(from as int)) == trimmed_front(s@),
        decreases chars@.len() - from,
    {
        assert(chars@.skip(from as int)[0] == chars@[from as int]);
        assert(chars@.skip(from as int).drop_first() =~= chars@.skip(from + 1));
        from = from + 1;
    }
    let ghost rest = chars@.skip(from as int);
    assert(trimmed_front(rest) == rest) by {
        if rest.len() > 0 {
            assert(rest[0] == chars@[from as int]);
        }
    }
    let mut to: usize = chars.len();
    assert(chars@.subrange(from as int, to as int) =~= rest);
    while to > from && chars[to - 1].is_whitespace()
        invariant
            from <= to <= chars@.len(),
            trimmed_back(chars@.subrange(from as int, to as int)) == trimmed_back(rest),
        decreases to - from,
    {
        assert(chars@.subrange(from as int, to as int).last() == chars@[to - 1]);
        assert(chars@.subrange(from as int, to as int).drop_last() =~= chars@.subrange(
            from as int,
            to - 1,
        ));
        to = to - 1;
    }
    assert(trimmed_back(chars@.subrange(from as int, to as int)) == chars@.subrange(
        from as int,
        to as int,
    )) by {
        if to > from {
            assert(chars@.subrange(from as int, to as int).last() == chars@[to - 1]);
        }
    }
    from_chars(chars.as_slice(), from, to)
}

// ---- which row ----

/// Whether a list of ids holds the one that is open.
pub fn should_skip_focus_restore_for_visible_editing(
    current_editing_id: Option<&str>,
    visible_ids: &[String],
) -> (r: bool)
    ensures
        r == (current_editing_id matches Some(id) && str_views(visible_ids@).contains(id@)),
{
    match current_editing_id {
        Some(id) => contains_str(visible_ids, id),
        None => false,
    }
}

/// The row to open and where to put the caret: a row that is asked for, or else the one
/// that was open last, or else the first, whichever of them is shown.
pub open spec fn focus_target(
    visible: Seq<Seq<char>>,
    saved: Option<(Seq<char>, u32)>,
    preferred: Option<Seq<char>>,
) -> Option<(Seq<char>, u32)> {
    let asked = match preferred {
        Some(id) => trimmed(id),
        None => Seq::empty(),
    };
    if asked.len() > 0 && visible.contains(asked) {
        Some((asked, 0))
    } else if saved is Some && visible.contains((saved->0).0) {
        saved
    } else if visible.len() > 0 {
        Some((visible[0], 0))
    } else {
        None
    }
}

/// What a row and a place in it are.
pub open spec fn place_view(p: Option<(String, u32)>) -> Option<(Seq<char>, u32)> {
    match p {
        Some((id, col)) => Some((id@, col)),
        None => None,
    }
}

/// The text of an optional string slice.
pub open spec fn opt_str_view(s: Option<&str>) -> Option<Seq<char>> {
    match s {
        Some(x) => Some(x@),
        None => None,
    }
}

/// The row to open and where to put the caret.
pub fn pick_editor_focus_target(
    visible_ids: &[String],
    saved_cursor: Option<(String, u32)>,
    preferred_nav_id: Option<&str>,
) -> (r: Option<(String, u32)>)
    ensures
        place_view(r) == focus_target(
            str_views(visible_ids@),
            place_view(saved_cursor),
            opt_str_view(preferred_nav_id),
        ),
{
    let ghost visible = str_views(visible_ids@);
    if let Some(id) = preferred_nav_id {
        let asked = trim_of(id);
        proof {
            reveal_strlit("");
            assert(asked@.len() == 0 ==> asked@ =~= ""@);
        }
        if !str_eq(asked.as_str(), "") && contains_str(visible_ids, asked.as_str()) {
            return Some((asked, 0));
        }
    }
    if let Some((id, col)) = saved_cursor {
        if contains_str(visible_ids, id.as_str()) {
            return Some((id, col));
        }
    }
    if visible_ids.len() > 0 {
        assert(visible[0] == visible_ids@[0]@);
        Some((visible_ids[0].clone(), 0))
    } else {
        None
    }
}

/// A session once a row of an outline that comes in is opened, and which. A shown row that
/// is open stays open.
pub open spec fn refocused(
    v: SessionView,
    navs: Seq<NavView>,
    saved: Option<(Seq<char>, u32)>,
    preferred: Option<Seq<char>>,
) -> (SessionView, Option<Seq<char>>) {
    let visible = visible_ids(navs);
    if v.editing_id is Some && visible.contains(v.editing_id->0) {
        (v, None)
    } else {
        match focus_target(visible, saved, preferred) {
            None => (v, None),
            Some((id, col)) => match nav_index(navs, id) {
                None => (v, None),
                Some(i) => (opened_row(v, id, navs[i].content, Some(col)), Some(id)),
            },
        }
    }
}

/// A session with other rows. A row that is open and is not among them is closed.
pub open spec fn with_rows(v: SessionView, navs: Seq<NavView>) -> SessionView {
    if v.editing_id is Some && nav_index(navs, v.editing_id->0) is None {
        SessionView {
            navs,
            editing_id: None,
            editing_snapshot: None,
            target_cursor_col: None,
            ..v
        }
    } else {
        SessionView { navs, ..v }
    }
}

/// A session once an outline came in: a row that was made to start with is opened, or
/// else the one to come back to, if rows may be opened; and the local changes are put
/// over the rows.
pub open spec fn taken_in(
    v: SessionView,
    navs: Seq<NavView>,
    start: Option<Seq<char>>,
    may_focus: bool,
    saved: Option<(Seq<char>, u32)>,
    preferred: Option<Seq<char>>,
    shown: Seq<NavView>,
) -> (SessionView, Option<Seq<char>>) {
    if !may_focus {
        (with_rows(v, shown), None)
    } else {
        let started = match start {
            Some(id) => opened_row(v, id, Seq::empty(), Some(0)),
            None => v,
        };
        let (focused, restored) = refocused(started, navs, saved, preferred);
        (with_rows(focused, shown), restored)
    }
}

impl Session {
    /// Opens a row of an outline that comes in, and tells which.
    pub fn restore_editor_focus_for_note(
        &mut self,
        navs: &[Nav],
        saved_cursor: Option<(String, u32)>,
        preferred_nav_id: Option<&str>,
    ) -> (r: Option<String>)
        requires
            outline_ends(nav_views(navs@)),
        ensures
            ({
                let done = refocused(
                    old(self)@,
                    nav_views(navs@),
                    place_view(saved_cursor),
                    opt_str_view(preferred_nav_id),
                );
                final(self)@ == done.0 && opt_view(r) == done.1
            }),
    {
        let visible = collect_visible_preorder_ids(navs);
        let current: Option<&str> = match &self.editing_id {
            Some(id) => Some(id.as_str()),
            None => None,
        };
        if should_skip_focus_restore_for_visible_editing(current, visible.as_slice()) {
            return None;
        }
        match pick_editor_focus_target(visible.as_slice(), saved_cursor, preferred_nav_id) {
            None => None,
            Some((id, col)) => match find_nav(navs, id.as_str()) {
                None => None,
                Some(i) => {
                    assert(nav_views(navs@)[i as int] == navs@[i as int]@);
                    self.open_row(id.as_str(), navs[i].content.as_str(), Some(col));
                    Some(id)
                },
            },
        }
    }

    /// Takes up other rows.
    pub fn set_navs_with_reconciled_editing(&mut self, next_navs: Vec<Nav>)
        ensures
            final(self)@ == with_rows(old(self)@, nav_views(next_navs@)),
    {
        let current: Option<&str> = match &self.editing_id {
            Some(id) => Some(id.as_str()),
            None => None,
        };
        if should_clear_stale_editing_id(current, next_navs.as_slice()) {
            self.editing_id = None;
            self.editing_snapshot = None;
            self.target_cursor_col = None;
        }
        self.navs = next_navs;
    }

    /// Takes in an outline. `start_node` is the id of a row that was made for a note
    /// without rows. Tells which row was opened to come back to.
    pub fn take_in(
        &mut self,
        navs: Vec<Nav>,
        start_node: Option<&str>,
        may_focus: bool,
        saved_cursor: Option<(String, u32)>,
        preferred_nav_id: Option<&str>,
        draft: &NoteDraft,
    ) -> (r: Option<String>)
        requires
            outline_ends(nav_views(navs@)),
            draft@.wf(),
        ensures
            ({
                let done = taken_in(
                    old(self)@,
                    nav_views(navs@),
                    opt_str_view(start_node),
                    may_focus,
                    place_view(saved_cursor),
                    opt_str_view(preferred_nav_id),
                    nav_views(navs@).map_values(
                        |n: NavView| meta_over(draft@, content_over(draft@, n)),
                    ),
                );
                final(self)@ == done.0 && opt_view(r) == done.1
            }),
    {
        let mut rows = navs;
        let mut restored: Option<String> = None;
        if may_focus {
            if let Some(id) = start_node {
                proof {
                    reveal_strlit("");
                    assert(""@ =~= Seq::<char>::empty());
                }
                self.open_row(id, "", Some(0));
            }
            restored = self.restore_editor_focus_for_note(
                rows.as_slice(),
                saved_cursor,
                preferred_nav_id,
            );
        }
        apply_local_draft_overlay(draft, &mut rows);
        self.set_navs_with_reconciled_editing(rows);
        restored
    }
}

// ---- laws ----

/// Once rows were taken up, a row that is open is among them.
pub proof fn law_open_row_is_there(v: SessionView, navs: Seq<NavView>)
    ensures
        with_rows(v, navs).editing_id matches Some(id) ==> nav_index(navs, id) is Some,
{
}

/// The row that is opened is a shown one, and without an outline to show none is.
pub proof fn law_focus_is_on_a_shown_row(
    visible: Seq<Seq<char>>,
    saved: Option<(Seq<char>, u32)>,
    preferred: Option<Seq<char>>,
)
    ensures
        match focus_target(visible, saved, preferred) {
            Some((id, _)) => visible.contains(id),
            None => visible.len() == 0,
        },
{
    if visible.len() > 0 {
        assert(visible.contains(visible[0]));
    }
}

proof fn lemma_trimmed_front(s: Seq<char>) -> (a: Seq<char>)
    ensures
        a + trimmed_front(s) == s,
        is_blank(a),
        trimmed_front(s).len() > 0 ==> !is_white_space(trimmed_front(s)[0]),
    decreases s.len(),
{
    if s.len() > 0 && is_white_space(s[0]) {
        let b = lemma_trimmed_front(s.drop_first());
        let a = seq![s[0]] + b;
        let t = trimmed_front(s);
        assert forall|i: int| 0 <= i < s.len() implies (a + t)[i] == s[i] by {
            if i > 0 {
                assert(s.drop_first()[i - 1] == (b + t)[i - 1]);
            }
        }
        assert(a + t =~= s);
        assert forall|i: int| 0 <= i < a.len() implies is_white_space(#[trigger] a[i]) by {
            if i > 0 {
                assert(a[i] == b[i - 1]);
            }
        }
        a
    } else {
        assert(Seq::<char>::empty() + s =~= s);
        Seq::empty()
    }
}

proof fn lemma_trimmed_back(s: Seq<char>) -> (b: Seq<char>)
    ensures
        trimmed_back(s) + b == s,
        is_blank(b),
        trimmed_back(s).len() > 0 ==> !is_white_space(trimmed_back(s).last()),
    decreases s.len(),
{
    if s.len() > 0 && is_white_space(s.last()) {
        let c = lemma_trimmed_back(s.drop_last());
        let b = c.push(s.last());
        let t = trimmed_back(s);
        assert(t + b =~= (t + c).push(s.last()));
        assert(s.drop_last().push(s.last()) =~= s);
        b
    } else {
        assert(s + Seq::<char>::empty() =~= s);
        Seq::empty()
    }
}

/// Trimming takes off white space at both ends, all of it and nothing else.
pub proof fn law_trimming_takes_off_white_space(s: Seq<char>)
    ensures
        exists|a: Seq<char>, b: Seq<char>|
            #[trigger] (a + trimmed(s) + b) == s && is_blank(a) && is_blank(b),
        trimmed(s).len() > 0 ==> !is_white_space(trimmed(s)[0]) && !is_white_space(
            trimmed(s).last(),
        ),
{
    let f = trimmed_front(s);
    let t = trimmed(s);
    let a = lemma_trimmed_front(s);
    let b = lemma_trimmed_back(f);
    assert(a + t + b =~= a + (t + b));
    if t.len() > 0 {
        assert((t + b)[0] == t[0]);
    }
}

/// A note that comes in with a first row of its own has that row open, empty, with the
/// caret at its start. Where no row may be opened, none is.
pub proof fn law_first_row_of_a_note_is_opened(
    v: SessionView,
    navs: Seq<NavView>,
    id: Seq<char>,
    saved: Option<(Seq<char>, u32)>,
    preferred: Option<Seq<char>>,
    shown: Seq<NavView>,
)
    requires
        visible_ids(navs).contains(id),
        nav_index(shown, id) is Some,
    ensures
        ({
            let (w, restored) = taken_in(v, navs, Some(id), true, saved, preferred, shown);
            let (kept, none) = taken_in(v, navs, Some(id), false, saved, preferred, shown);
            &&& w.navs == shown
            &&& w.editing_id == Some(id)
            &&& w.editing_value.len() == 0
            &&& w.target_cursor_col == Some(0u32)
            &&& restored is None
            &&& none is None
            &&& kept.navs == shown
            &&& kept.editing_id is Some ==> kept.editing_id == v.editing_id
            &&& kept.editing_value == v.editing_value
        }),
{
}

} // verus!
