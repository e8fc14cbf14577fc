//! Local changes put over the server's data.

use crate::drafts::note::{find_state, NoteDraft};
use crate::models::{clone_opt, Nav};
use crate::text::is_blank_str;
use vstd::prelude::*;

verus! {

use crate::drafts::note::{
    later, law_put_then_lookup, lookup, meta_of, meta_touched, nav_synced, nav_touched, opened,
    state_of, title_touched, DraftView, NavStateView,
};
use crate::models::{nav_views, opt_view, NavView};
use crate::text::{is_blank, is_white_space};

/// The title to show: the local one, unless it is blank.
pub open spec fn resolved_title(d: DraftView, server: Seq<char>) -> Seq<char> {
    match d.title {
        Some(f) => if is_blank(f.value) {
            server
        } else {
            f.value
        },
        None => server,
    }
}

/// The text of a row to show: the local one, unless it is blank.
pub open spec fn resolved_content(d: DraftView, id: Seq<char>, server: Seq<char>) -> Seq<char> {
    match lookup(d.nav_state, id) {
        Some(s) => if is_blank(s.content) {
            server
        } else {
            s.content
        },
        None => server,
    }
}

/// The title to show.
pub fn resolve_local_note_title(d: &NoteDraft, server_title: &str) -> (r: String)
    ensures
        r@ == resolved_title(d@, server_title@),
{
    if let Some(f) = &d.title {
        if !is_blank_str(f.value.as_str()) {
            return f.value.clone();
        }
    }
    server_title.to_string()
}

/// The text of a row to show. A row without an id has none of its own.
pub fn resolve_local_nav_content(d: &NoteDraft, nav_id: &str, server_content: &str) -> (r: String)
    requires
        d@.wf(),
    ensures
        r@ == (if is_blank(nav_id@) {
            server_content@
        } else {
            resolved_content(d@, nav_id@, server_content@)
        }),
{
    if is_blank_str(nav_id) {
        return server_content.to_string();
    }
    if let Some(i) = find_state(d.nav_state.as_slice(), nav_id) {
        if !is_blank_str(d.nav_state[i].state.content.as_str()) {
            return d.nav_state[i].state.content.clone();
        }
    }
    server_content.to_string()
}

/// The text of a row that has local changes, if it has.
pub open spec fn dirty_content(d: DraftView, id: Seq<char>) -> Option<Seq<char>> {
    match lookup(d.nav_state, id) {
        Some(s) => if s.content_dirty {
            Some(s.content)
        } else {
            None
        },
        None => None,
    }
}

/// The text of a row that has local changes, if it has.
pub fn local_content(d: &NoteDraft, nav_id: &str) -> (r: Option<String>)
    requires
        d@.wf(),
    ensures
        opt_view(r) == dirty_content(d@, nav_id@),
{
    match find_state(d.nav_state.as_slice(), nav_id) {
        Some(i) => if d.nav_state[i].state.content_dirty {
            Some(d.nav_state[i].state.content.clone())
        } else {
            None
        },
        None => None,
    }
}

/// A row with the local change of its text.
pub open spec fn content_over(d: DraftView, n: NavView) -> NavView {
    match dirty_content(d, n.id) {
        Some(content) => NavView { content, ..n },
        None => n,
    }
}

/// A row with the local change of its place and state.
pub open spec fn meta_over(d: DraftView, n: NavView) -> NavView {
    match lookup(d.nav_state, n.id) {
        Some(s) => match s.meta {
            Some(m) => NavView {
                parid: m.parid,
                same_deep_order: m.same_deep_order,
                is_display: m.is_display,
                is_delete: m.is_delete,
                properties: m.properties,
                ..n
            },
            None => n,
        },
        None => n,
    }
}

/// Puts the local changes of texts over rows.
pub fn reconcile_local_nav_content(d: &NoteDraft, navs: &mut Vec<Nav>)
    requires
        d@.wf(),
    ensures
        nav_views(final(navs)@) == nav_views(old(navs)@).map_values(
            |n: NavView| content_over(d@, n),
        ),
{
    let ghost start = nav_views(navs@);
    let ghost want = start.map_values(|n: NavView| content_over(d@, n));
    let n: usize = navs.len();
    let mut i: usize = 0;
    while i < n
        invariant
            i <= n,
            n == navs@.len(),
            start.len() == n,
            want == start.map_values(|n: NavView| content_over(d@, n)),
            d@.wf(),
            forall|j: int| 0 <= j < i ==> (#[trigger] navs@[j])@ == want[j],
            forall|j: int| i <= j < n ==> (#[trigger] navs@[j])@ == start[j],
        decreases n - i,
    {
        assert(navs@[i as int]@ == start[i as int]);
        let local = local_content(d, navs[i].id.as_str());
        if let Some(content) = local {
            let mut row = navs[i].clone();
            row.content = content;
            navs.set(i, row);
        }
        i = i + 1;
    }
    assert(nav_views(navs@) =~= want);
}

/// Puts the local changes of places and states over rows.
pub fn reconcile_local_nav_meta(d: &NoteDraft, navs: &mut Vec<Nav>)
    requires
        d@.wf(),
    ensures
        nav_views(final(navs)@) == nav_views(old(navs)@).map_values(
            |n: NavView| meta_over(d@, n),
        ),
{
    let ghost start = nav_views(navs@);
    let ghost want = start.map_values(|n: NavView| meta_over(d@, n));
    let n: usize = navs.len();
    let mut i: usize = 0;
    while i < n
        invariant
            i <= n,
            n == navs@.len(),
            start.len() == n,
            want == start.map_values(|n: NavView| meta_over(d@, n)),
            d@.wf(),
            forall|j: int| 0 <= j < i ==> (#[trigger] navs@[j])@ == want[j],
            forall|j: int| i <= j < n ==> (#[trigger] navs@[j])@ == start[j],
        decreases n - i,
    {
        assert(navs@[i as int]@ == start[i as int]);
        if let Some(k) = find_state(d.nav_state.as_slice(), navs[i].id.as_str()) {
            if let Some(meta) = &d.nav_state[k].state.meta {
                let mut row = navs[i].clone();
                row.parid = meta.parid.clone();
                row.same_deep_order = meta.same_deep_order;
                row.is_display = meta.is_display;
                row.is_delete = meta.is_delete;
                row.properties = clone_opt(&meta.properties);
                navs.set(i, row);
            }
        }
        i = i + 1;
    }
    assert(nav_views(navs@) =~= want);
}

/// Puts all local changes over rows: first the texts, then places and states.
pub fn apply_local_draft_overlay(d: &NoteDraft, navs: &mut Vec<Nav>)
    requires
        d@.wf(),
    ensures
        nav_views(final(navs)@) == nav_views(old(navs)@).map_values(
            |n: NavView| meta_over(d@, content_over(d@, n)),
        ),
{
    let ghost start = nav_views(navs@);
    reconcile_local_nav_content(d, navs);
    reconcile_local_nav_meta(d, navs);
    assert(nav_views(navs@) =~= start.map_values(
        |n: NavView| meta_over(d@, content_over(d@, n)),
    ));
}

// ---- laws ----

/// A text that was changed locally is the one that is shown, unless it is blank.
pub proof fn law_changed_text_is_shown(
    d: DraftView,
    id: Seq<char>,
    content: Seq<char>,
    now: i64,
    server: Seq<char>,
)
    requires
        d.wf(),
        !is_blank(content),
    ensures
        resolved_content(nav_touched(d, id, content, now), id, server) == content,
{
    let s1 = NavStateView {
        content,
        updated_ms: now,
        content_dirty: true,
        ..state_of(d.nav_state, id)
    };
    law_put_then_lookup(d.nav_state, id, s1, id);
}

/// A title that was changed locally is the one that is shown, unless it is blank.
pub proof fn law_changed_title_is_shown(
    d: DraftView,
    title: Seq<char>,
    now: i64,
    server: Seq<char>,
)
    requires
        !is_blank(title),
    ensures
        resolved_title(title_touched(d, title, now), server) == title,
{
}

/// Once the draft of a note is gone, what the server has is shown.
pub proof fn law_without_draft_the_server_is_shown(
    db: Seq<char>,
    note: Seq<char>,
    id: Seq<char>,
    server: Seq<char>,
    n: NavView,
)
    ensures
        resolved_title(opened(None, db, note), server) == server,
        resolved_content(opened(None, db, note), id, server) == server,
        meta_over(opened(None, db, note), content_over(opened(None, db, note), n)) == n,
{
}

/// A row that was changed locally is shown with its changes when the rows come again from
/// elsewhere, deletion included; the rows that were not changed come as they are.
pub proof fn law_changes_survive_a_reload(
    d: DraftView,
    changed: NavView,
    now: i64,
    reloaded: NavView,
)
    requires
        d.wf(),
    ensures
        ({
            let shown = meta_over(meta_touched(d, changed, now), reloaded);
            if reloaded.id == changed.id {
                shown == (NavView {
                    id: reloaded.id,
                    note_id: reloaded.note_id,
                    content: reloaded.content,
                    ..changed
                })
            } else {
                shown == meta_over(d, reloaded)
            }
        }),
{
    let s1 = NavStateView {
        meta: Some(meta_of(changed)),
        updated_ms: now,
        ..state_of(d.nav_state, changed.id)
    };
    law_put_then_lookup(d.nav_state, changed.id, s1, reloaded.id);
}

/// A row whose text was changed locally is shown with that text when the rows come again
/// from elsewhere, even where the text is empty, until the server has it. The rows whose
/// texts were not changed come as they are.
pub proof fn law_changed_text_survives_a_reload(
    d: DraftView,
    id: Seq<char>,
    content: Seq<char>,
    now: i64,
    synced_ms: i64,
    later_ms: i64,
    reloaded: NavView,
)
    requires
        d.wf(),
    ensures
        ({
            let changed = nav_touched(d, id, content, now);
            let sent = nav_synced(changed, id, synced_ms, later_ms);
            &&& reloaded.id == id ==> content_over(changed, reloaded) == (NavView {
                content,
                ..reloaded
            })
            &&& reloaded.id == id ==> content_over(sent, reloaded) == reloaded
            &&& reloaded.id != id ==> content_over(changed, reloaded) == content_over(d, reloaded)
            &&& reloaded.id != id ==> content_over(sent, reloaded) == content_over(d, reloaded)
        }),
{
    let changed = nav_touched(d, id, content, now);
    let s1 = NavStateView {
        content,
        updated_ms: now,
        content_dirty: true,
        ..state_of(d.nav_state, id)
    };
    law_put_then_lookup(d.nav_state, id, s1, id);
    law_put_then_lookup(d.nav_state, id, s1, reloaded.id);
    let s2 = NavStateView {
        synced_ms: later(s1.synced_ms, synced_ms),
        content_dirty: false,
        retry_count: 0,
        next_retry_ms: 0,
        ..s1
    };
    law_put_then_lookup(changed.nav_state, id, s2, id);
    law_put_then_lookup(changed.nav_state, id, s2, reloaded.id);
}

/// A local text or title that holds nothing but white space gives way to the server's, and
/// a text of a row leaves those of other rows alone.
pub proof fn law_blank_changes_give_way(
    d: DraftView,
    id: Seq<char>,
    blank: Seq<char>,
    now: i64,
    other: Seq<char>,
    server: Seq<char>,
)
    requires
        d.wf(),
        forall|i: int| 0 <= i < blank.len() ==> is_white_space(#[trigger] blank[i]),
    ensures
        resolved_content(nav_touched(d, id, blank, now), id, server) == server,
        resolved_title(title_touched(d, blank, now), server) == server,
        other != id ==> resolved_content(nav_touched(d, id, blank, now), other, server)
            == resolved_content(d, other, server),
{
    let s1 = NavStateView {
        content: blank,
        updated_ms: now,
        content_dirty: true,
        ..state_of(d.nav_state, id)
    };
    law_put_then_lookup(d.nav_state, id, s1, id);
    law_put_then_lookup(d.nav_state, id, s1, other);
}

} // verus!
