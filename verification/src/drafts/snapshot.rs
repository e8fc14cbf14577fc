//! The outline of a note as it was last seen, for when the server cannot be reached.

use crate::models::{contains_str, Nav};
use crate::text::is_blank_str;
use vstd::prelude::*;

verus! {

use crate::models::{nav_views, str_views, NavView};
use crate::text::is_blank;

/// The form of snapshots that is written.
pub const NOTE_SNAPSHOT_SCHEMA_VERSION: u32 = 20260217;

/// The outline of a note at a time.
#[derive(Debug, PartialEq, Eq)]
pub struct NoteSnapshot {
    pub schema_version: u32,
    pub saved_ms: i64,
    pub db_id: String,
    pub note_id: String,
    pub title: Option<String>,
    pub navs: Vec<Nav>,
}

/// The name under which the snapshot of a note is stored.
pub fn snapshot_key(db_id: &str, note_id: &str) -> (r: String)
    ensures
        r@ == "hulunote_note_snapshot::"@ + db_id@ + "::"@ + note_id@,
{
    let mut out = String::new();
    out.append("hulunote_note_snapshot::");
    out.append(db_id);
    out.append("::");
    out.append(note_id);
    assert(out@ =~= "hulunote_note_snapshot::"@ + db_id@ + "::"@ + note_id@);
    out
}

/// The snapshot to store. There is none without names.
pub fn save_note_snapshot(
    db_id: &str,
    note_id: &str,
    title: Option<String>,
    navs: Vec<Nav>,
    saved_ms: i64,
) -> (r: Option<NoteSnapshot>)
    ensures
        match r {
            None => is_blank(db_id@) || is_blank(note_id@),
            Some(s) => {
                &&& !is_blank(db_id@)
                &&& !is_blank(note_id@)
                &&& s.schema_version == NOTE_SNAPSHOT_SCHEMA_VERSION
                &&& s.saved_ms == saved_ms
                &&& s.db_id@ == db_id@
                &&& s.note_id@ == note_id@
                &&& s.title == title
                &&& s.navs == navs
            },
        },
{
    if is_blank_str(db_id) || is_blank_str(note_id) {
        return None;
    }
    Some(
        NoteSnapshot {
            schema_version: NOTE_SNAPSHOT_SCHEMA_VERSION,
            saved_ms,
            db_id: db_id.to_string(),
            note_id: note_id.to_string(),
            title,
            navs,
        },
    )
}

/// A row, deleted if its id is in a list.
pub open spec fn tombstoned(n: NavView, ids: Seq<Seq<char>>) -> NavView {
    NavView { is_delete: n.is_delete || ids.contains(n.id), ..n }
}

/// Marks the rows in a list as deleted. Tells whether any was not deleted before.
pub fn apply_snapshot_tombstones(navs: &mut Vec<Nav>, ids: &[String]) -> (r: bool)
    ensures
        nav_views(final(navs)@) == nav_views(old(navs)@).map_values(
            |n: NavView| tombstoned(n, str_views(ids@)),
        ),
        r == (nav_views(final(navs)@) != nav_views(old(navs)@)),
{
    let ghost start = nav_views(navs@);
    let ghost gone = str_views(ids@);
    let ghost want = start.map_values(|n: NavView| tombstoned(n, gone));
    let n: usize = navs.len();
    let mut changed: bool = false;
    let mut i: usize = 0;
    while i < n
        invariant
            i <= n,
            n == navs@.len(),
            start.len() == n,
            gone == str_views(ids@),
            want == start.map_values(|n: NavView| tombstoned(n, gone)),
            forall|j: int| 0 <= j < i ==> (#[trigger] navs@[j])@ == want[j],
            forall|j: int| i <= j < n ==> (#[trigger] navs@[j])@ == start[j],
            changed == exists|j: int| 0 <= j < i && #[trigger] want[j] != start[j],
        decreases n - i,
    {
        assert(navs@[i as int]@ == start[i as int]);
        let hit: bool = contains_str(ids, navs[i].id.as_str());
        if hit && !navs[i].is_delete {
            let mut row = navs[i].clone();
            row.is_delete = true;
            navs.set(i, row);
            changed = true;
            assert(want[i as int].is_delete != start[i as int].is_delete);
        } else {
            assert(want[i as int] == start[i as int]);
        }
        i = i + 1;
    }
    proof {
        assert(nav_views(navs@) =~= want);
        if !changed {
            assert forall|j: int| 0 <= j < n implies want[j] == start[j] by {}
            assert(want =~= start);
        }
    }
    changed
}

/// The snapshot to store once rows of it were deleted. There is none without names,
/// without rows to delete, without a snapshot, or where nothing changes.
pub fn mark_navs_deleted_in_snapshot(
    stored: Option<NoteSnapshot>,
    db_id: &str,
    note_id: &str,
    ids: &[String],
) -> (r: Option<NoteSnapshot>)
    ensures
        match r {
            Some(s) => {
                &&& !is_blank(db_id@)
                &&& !is_blank(note_id@)
                &&& stored matches Some(old_snap) && {
                    &&& nav_views(s.navs@) == nav_views(old_snap.navs@).map_values(
                        |n: NavView| tombstoned(n, str_views(ids@)),
                    )
                    &&& nav_views(s.navs@) != nav_views(old_snap.navs@)
                    &&& s.title == old_snap.title
                    &&& s.saved_ms == old_snap.saved_ms
                    &&& s.schema_version == NOTE_SNAPSHOT_SCHEMA_VERSION
                    &&& s.db_id@ == db_id@
                    &&& s.note_id@ == note_id@
                }
            },
            None => is_blank(db_id@) || is_blank(note_id@) || (stored matches Some(old_snap)
                ==> nav_views(old_snap.navs@).map_values(
                |n: NavView| tombstoned(n, str_views(ids@)),
            ) == nav_views(old_snap.navs@)),
        },
{
    if is_blank_str(db_id) || is_blank_str(note_id) {
        return None;
    }
    match stored {
        None => None,
        Some(snap) => {
            let mut navs = snap.navs;
            if apply_snapshot_tombstones(&mut navs, ids) {
                save_note_snapshot(db_id, note_id, snap.title, navs, snap.saved_ms)
            } else {
                None
            }
        },
    }
}

/// Deleting rows twice is the same as deleting them once, and leaves the others alone.
pub proof fn law_tombstones_are_idempotent(n: NavView, ids: Seq<Seq<char>>)
    ensures
        tombstoned(tombstoned(n, ids), ids) == tombstoned(n, ids),
        ids.contains(n.id) ==> tombstoned(n, ids).is_delete,
        !ids.contains(n.id) ==> tombstoned(n, ids) == n,
{
}

} // verus!
