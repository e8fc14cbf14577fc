use hulunote_app::drafts::index::{
    index_remove_note, index_touch_note, indexed_notes, list_dirty_notes, note_index_key,
    parse_index_key,
};
use hulunote_app::drafts::note::{
    compute_retry_delay_ms, draft_key, find_state, load_note_draft, mark_nav_meta_sync_failed,
    mark_nav_meta_synced, mark_nav_sync_failed, mark_nav_synced, mark_title_sync_failed,
    mark_title_synced, save_note_draft, touch_nav, touch_nav_meta, touch_title, FieldDraft,
    NavDraftState, NavEntry, NavMetaDraft, NoteDraft, NOTE_DRAFT_SCHEMA_CURRENT,
};
use hulunote_app::drafts::overlay::{
    apply_local_draft_overlay, local_content, resolve_local_nav_content, resolve_local_note_title,
};
use hulunote_app::drafts::queue::{
    get_due_unsynced_nav_drafts, get_due_unsynced_nav_meta_drafts, get_pending_nav_ids,
    get_unsynced_nav_drafts, is_note_fully_synced,
};
use hulunote_app::drafts::snapshot::{
    apply_snapshot_tombstones, mark_navs_deleted_in_snapshot, save_note_snapshot, snapshot_key,
    NOTE_SNAPSHOT_SCHEMA_VERSION,
};
use hulunote_app::drafts::store::DraftStore;
use hulunote_app::models::Nav;

fn base_draft() -> NoteDraft {
    NoteDraft {
        schema_version: NOTE_DRAFT_SCHEMA_CURRENT,
        db_id: "db".to_string(),
        note_id: "note".to_string(),
        updated_ms: 1,
        title: None,
        nav_state: Vec::new(),
    }
}

fn insert(d: &mut NoteDraft, id: &str, state: NavDraftState) {
    d.nav_state.push(NavEntry {
        id: id.to_string(),
        state,
    });
    d.nav_state.sort_by(|a, b| a.id.cmp(&b.id));
}

fn state<'a>(d: &'a NoteDraft, id: &str) -> &'a NavDraftState {
    let i = find_state(&d.nav_state, id).unwrap();
    &d.nav_state[i].state
}

#[test]
fn is_note_fully_synced_requires_meta_cleared() {
    let mut d = base_draft();
    insert(
        &mut d,
        "n1",
        NavDraftState {
            content: "x".to_string(),
            meta: Some(NavMetaDraft::default()),
            updated_ms: 10,
            synced_ms: 10,
            content_dirty: false,
            retry_count: 0,
            next_retry_ms: 0,
        },
    );

    assert!(!is_note_fully_synced(&d));
}

#[test]
fn due_content_drafts_ignore_meta_only_rows() {
    let mut d = base_draft();
    insert(
        &mut d,
        "meta-only",
        NavDraftState {
            content: String::new(),
            meta: Some(NavMetaDraft::default()),
            updated_ms: 20,
            synced_ms: 0,
            content_dirty: false,
            retry_count: 0,
            next_retry_ms: 0,
        },
    );
    insert(
        &mut d,
        "content",
        NavDraftState {
            content: "hello".to_string(),
            meta: None,
            updated_ms: 30,
            synced_ms: 0,
            content_dirty: true,
            retry_count: 0,
            next_retry_ms: 0,
        },
    );

    let mut out: Vec<String> = get_due_unsynced_nav_drafts(&d, 0, 10)
        .into_iter()
        .map(|(id, _, _)| id)
        .collect();
    out.sort();

    assert_eq!(out, vec!["content".to_string()]);
}

#[test]
fn pending_ids_include_meta_and_content_channels() {
    let mut d = base_draft();
    insert(
        &mut d,
        "meta-only",
        NavDraftState {
            content: String::new(),
            meta: Some(NavMetaDraft::default()),
            updated_ms: 1,
            synced_ms: 1,
            content_dirty: false,
            retry_count: 0,
            next_retry_ms: 0,
        },
    );
    insert(
        &mut d,
        "content-only",
        NavDraftState {
            content: "x".to_string(),
            meta: None,
            updated_ms: 2,
            synced_ms: 0,
            content_dirty: true,
            retry_count: 0,
            next_retry_ms: 0,
        },
    );

    let pending = get_pending_nav_ids(&d);

    assert!(pending.contains(&"meta-only".to_string()));
    assert!(pending.contains(&"content-only".to_string()));
}

fn nav(id: &str, deleted: bool) -> Nav {
    Nav {
        id: id.to_string(),
        note_id: "n1".to_string(),
        parid: "root".to_string(),
        same_deep_order: 0,
        content: String::new(),
        is_display: true,
        is_delete: deleted,
        properties: None,
    }
}

#[test]
fn apply_snapshot_tombstones_marks_only_targets() {
    let mut navs = vec![nav("a", false), nav("b", false), nav("c", true)];
    let ids = vec!["b".to_string(), "c".to_string()];

    let changed = apply_snapshot_tombstones(&mut navs, &ids);

    assert!(changed);
    assert!(!navs[0].is_delete);
    assert!(navs[1].is_delete);
    assert!(navs[2].is_delete);
}

#[test]
fn apply_snapshot_tombstones_noop_when_already_deleted() {
    let mut navs = vec![nav("a", true)];
    let ids = vec!["a".to_string()];

    let changed = apply_snapshot_tombstones(&mut navs, &ids);

    assert!(!changed);
}

#[test]
fn snapshot_is_built_only_with_names() {
    assert!(save_note_snapshot(" ", "n", None, vec![], 5).is_none());
    assert!(save_note_snapshot("d", "\t", None, vec![], 5).is_none());
    let snap = save_note_snapshot("d", "n", Some("T".to_string()), vec![nav("a", false)], 5).unwrap();
    assert_eq!(snap.schema_version, NOTE_SNAPSHOT_SCHEMA_VERSION);
    assert_eq!(snap.schema_version, 20260217);
    assert_eq!(snap.saved_ms, 5);
    assert_eq!(snap.title.as_deref(), Some("T"));
    assert_eq!(snap.navs, vec![nav("a", false)]);
    assert_eq!(snapshot_key("d", "n"), "hulunote_note_snapshot::d::n");
}

#[test]
fn deleting_in_a_snapshot_keeps_the_rest() {
    let ids = vec!["a".to_string()];
    let snap = || save_note_snapshot("d", "n", None, vec![nav("a", false), nav("b", false)], 7);
    let changed = mark_navs_deleted_in_snapshot(snap(), "d", "n", &ids).unwrap();
    assert_eq!(changed.navs, vec![nav("a", true), nav("b", false)]);
    assert_eq!(changed.saved_ms, 7);
    assert!(mark_navs_deleted_in_snapshot(Some(changed), "d", "n", &ids).is_none());
    assert!(mark_navs_deleted_in_snapshot(snap(), "d", "n", &[]).is_none());
    assert!(mark_navs_deleted_in_snapshot(snap(), "", "n", &ids).is_none());
    assert!(mark_navs_deleted_in_snapshot(None, "d", "n", &ids).is_none());
}

#[test]
fn retry_delay_doubles_up_to_a_minute() {
    let delays: Vec<i64> = (0..8).map(compute_retry_delay_ms).collect();
    assert_eq!(
        delays,
        vec![1000, 2000, 4000, 8000, 16000, 32000, 60000, 60000]
    );
    assert_eq!(compute_retry_delay_ms(u32::MAX), 60000);
}

#[test]
fn touched_text_waits_until_it_is_synced() {
    let mut d = base_draft();
    touch_nav(&mut d, "a", "hello", 10);
    assert_eq!(
        get_unsynced_nav_drafts(&d),
        vec![("a".to_string(), "hello".to_string(), 10)]
    );
    assert!(!is_note_fully_synced(&d));
    mark_nav_synced(&mut d, "a", 10, 11);
    assert!(get_unsynced_nav_drafts(&d).is_empty());
    assert!(get_pending_nav_ids(&d).is_empty());
    assert!(is_note_fully_synced(&d));
    assert_eq!(state(&d, "a").content, "hello");
    assert_eq!(d.updated_ms, 11);
}

#[test]
fn place_and_text_are_synced_apart() {
    let mut d = base_draft();
    touch_nav(&mut d, "a", "hello", 10);
    touch_nav_meta(&mut d, &nav("a", true), 12);
    mark_nav_synced(&mut d, "a", 10, 13);
    assert_eq!(get_pending_nav_ids(&d), vec!["a".to_string()]);
    let metas = get_due_unsynced_nav_meta_drafts(&d, 100, 10);
    assert_eq!(metas.len(), 1);
    assert!(metas[0].1.is_delete);
    assert_eq!(metas[0].2, 12);
    mark_nav_meta_synced(&mut d, "a", 14);
    assert!(is_note_fully_synced(&d));
}

#[test]
fn failed_sync_is_tried_again_later() {
    let mut d = base_draft();
    touch_nav(&mut d, "a", "x", 10);
    mark_nav_sync_failed(&mut d, "a", 100, 101);
    assert_eq!(state(&d, "a").retry_count, 1);
    assert_eq!(state(&d, "a").next_retry_ms, 2100);
    assert!(get_due_unsynced_nav_drafts(&d, 2099, 10).is_empty());
    assert_eq!(get_due_unsynced_nav_drafts(&d, 2100, 10).len(), 1);
    mark_nav_meta_sync_failed(&mut d, "a", 200, 201);
    assert_eq!(state(&d, "a").retry_count, 2);
    assert_eq!(state(&d, "a").next_retry_ms, 4200);
    assert_eq!(get_pending_nav_ids(&d), vec!["a".to_string()]);
    mark_title_sync_failed(&mut d, i64::MAX, 300);
    let f = d.title.as_ref().unwrap();
    assert_eq!(f.retry_count, 1);
    assert_eq!(f.next_retry_ms, i64::MAX);
}

#[test]
fn title_is_synced_as_of_its_change() {
    let mut d = base_draft();
    touch_title(&mut d, "T", 20);
    mark_title_synced(&mut d, 19, 21);
    assert!(!is_note_fully_synced(&d));
    mark_title_synced(&mut d, 20, 22);
    assert!(is_note_fully_synced(&d));
    assert_eq!(
        d.title,
        Some(FieldDraft {
            value: "T".to_string(),
            updated_ms: 20,
            synced_ms: 20,
            retry_count: 0,
            next_retry_ms: 0,
        })
    );
}

#[test]
fn due_drafts_are_limited() {
    let mut d = base_draft();
    for id in ["b", "a", "c"] {
        touch_nav(&mut d, id, id, 5);
    }
    let ids = |limit| -> Vec<String> {
        get_due_unsynced_nav_drafts(&d, 10, limit)
            .into_iter()
            .map(|(id, _, _)| id)
            .collect()
    };
    assert_eq!(ids(2), vec!["a".to_string(), "b".to_string()]);
    assert_eq!(ids(9).len(), 3);
    assert_eq!(ids(0).len(), 1);
}

#[test]
fn local_values_are_shown_unless_blank() {
    let mut d = base_draft();
    assert_eq!(resolve_local_note_title(&d, "server"), "server");
    touch_title(&mut d, "local", 1);
    assert_eq!(resolve_local_note_title(&d, "server"), "local");
    touch_title(&mut d, " \n", 2);
    assert_eq!(resolve_local_note_title(&d, "server"), "server");
    touch_nav(&mut d, "a", "text", 3);
    assert_eq!(resolve_local_nav_content(&d, "a", "server"), "text");
    assert_eq!(resolve_local_nav_content(&d, "b", "server"), "server");
    assert_eq!(resolve_local_nav_content(&d, " ", "server"), "server");
    assert_eq!(local_content(&d, "a").as_deref(), Some("text"));
    mark_nav_synced(&mut d, "a", 3, 4);
    assert_eq!(local_content(&d, "a"), None);
    assert_eq!(resolve_local_nav_content(&d, "a", "server"), "text");
}

#[test]
fn deletion_survives_a_reload() {
    let mut d = base_draft();
    touch_nav_meta(&mut d, &nav("a", true), 3);
    touch_nav(&mut d, "b", "new", 4);
    let mut rows = vec![nav("a", false), nav("b", false), nav("c", false)];
    apply_local_draft_overlay(&d, &mut rows);
    assert!(rows[0].is_delete);
    assert_eq!(rows[1].content, "new");
    assert_eq!(rows[2], nav("c", false));
}

#[test]
fn stored_draft_gets_its_names() {
    assert_eq!(load_note_draft(None, "", "n"), NoteDraft::default());
    let fresh = load_note_draft(None, "d", "n");
    assert_eq!((fresh.db_id.as_str(), fresh.note_id.as_str()), ("d", "n"));
    let mut stored = base_draft();
    stored.db_id = " ".to_string();
    let opened = load_note_draft(Some(stored), "d", "n");
    assert_eq!((opened.db_id.as_str(), opened.note_id.as_str()), ("d", "note"));
    assert!(save_note_draft(NoteDraft::default()).is_none());
    assert!(save_note_draft(base_draft()).is_some());
    assert_eq!(draft_key("d", "n"), "hulunote_draft_note::d::n");
}

#[test]
fn index_keeps_names_in_order() {
    let mut index: Vec<String> = Vec::new();
    index_touch_note(&mut index, "d", "b");
    index_touch_note(&mut index, "d", "a");
    index_touch_note(&mut index, "d", "b");
    index_touch_note(&mut index, " ", "x");
    assert_eq!(index, vec!["d::a".to_string(), "d::b".to_string()]);
    index_remove_note(&mut index, "d", "a");
    index_remove_note(&mut index, "d", "zz");
    assert_eq!(index, vec!["d::b".to_string()]);
    assert_eq!(
        parse_index_key(&note_index_key("d", "b")),
        Some(("d".to_string(), "b".to_string()))
    );
    assert_eq!(parse_index_key("nothing"), None);
    assert_eq!(
        indexed_notes(&["x".to_string(), "d::n::rest".to_string()]),
        vec![("d".to_string(), "n".to_string())]
    );
}

#[test]
fn dirty_notes_come_latest_first() {
    let notes = |xs: &[(&str, i64)]| -> Vec<(String, String, i64)> {
        xs.iter()
            .map(|(n, t)| ("d".to_string(), n.to_string(), *t))
            .collect()
    };
    let listed = list_dirty_notes(notes(&[("a", 1), ("b", 9), ("c", 9), ("e", 5)]), 3);
    let ids: Vec<String> = listed.into_iter().map(|(_, n)| n).collect();
    assert_eq!(ids, vec!["b".to_string(), "c".to_string(), "e".to_string()]);
    assert!(list_dirty_notes(notes(&[("a", 1)]), 0).is_empty());
}

fn store(index: &[&str], draft: Option<NoteDraft>) -> DraftStore {
    DraftStore {
        index: index.iter().map(|s| s.to_string()).collect(),
        draft,
    }
}

#[test]
fn a_change_is_written_and_indexed() {
    let w = store(&[], None).touch_nav("d", "n", "a", "hello", 10);
    assert_eq!(w.index, vec!["d::n".to_string()]);
    assert!(!w.remove);
    let d = w.write.unwrap();
    assert_eq!(local_content(&d, "a").as_deref(), Some("hello"));
    let w = store(&["d::n"], Some(d)).touch_title("d", "n", "T", 11);
    assert_eq!(w.index, vec!["d::n".to_string()]);
    let d = w.write.unwrap();
    assert_eq!(resolve_local_note_title(&d, "x"), "T");
    assert_eq!(local_content(&d, "a").as_deref(), Some("hello"));
}

#[test]
fn sent_changes_leave_nothing_stored() {
    let w = store(&["d::m"], None).touch_nav("d", "n", "a", "hello", 10);
    assert_eq!(w.index, vec!["d::m".to_string(), "d::n".to_string()]);
    let w = store(&["d::m", "d::n"], w.write).mark_nav_synced("d", "n", "a", 10, 11);
    assert_eq!(w.index, vec!["d::m".to_string()]);
    assert!(w.remove);
    let w = store(&["d::n"], None).touch_nav_meta("d", "n", &nav("a", false), 10);
    let w = store(&["d::n"], w.write).mark_nav_synced("d", "n", "a", 10, 11);
    assert!(!w.remove);
    assert_eq!(w.index, vec!["d::n".to_string()]);
    let w = store(&["d::n"], w.write).mark_nav_meta_synced("d", "n", "a", 12);
    assert!(w.remove);
    assert!(w.index.is_empty());
}

#[test]
fn failures_are_written_and_indexed() {
    let w = store(&[], None).mark_nav_sync_failed("d", "n", "a", 0, 1);
    assert_eq!(w.index, vec!["d::n".to_string()]);
    assert_eq!(state(w.write.as_ref().unwrap(), "a").next_retry_ms, 2000);
    let w = store(&[], None).mark_title_sync_failed("d", "n", 0, 1);
    assert_eq!(w.write.unwrap().title.unwrap().retry_count, 1);
    let w = store(&["d::n"], Some(base_draft())).mark_title_synced("d", "n", 5, 6);
    assert!(w.remove);
}

#[test]
fn nothing_is_written_without_names() {
    let w = store(&["x::y"], None).touch_nav("d", "n", " ", "c", 1);
    assert_eq!(w.index, vec!["x::y".to_string()]);
    assert!(w.write.is_none() && !w.remove);
    assert!(store(&[], None).touch_title("", "n", "T", 1).write.is_none());
    assert!(store(&[], None).touch_nav_meta("d", "", &nav("a", false), 1).write.is_none());
    assert!(store(&[], None).mark_nav_synced("d", "n", "", 1, 1).write.is_none());
    assert!(store(&[], None).mark_title_synced("", "", 1, 1).write.is_none());
}

#[test]
fn notes_that_share_a_storage_name_share_what_is_stored() {
    assert_eq!(draft_key("a", "b::c"), draft_key("a::b", "c"));
    let w = store(&[], None).touch_nav("a", "b::c", "x", "hello", 10);
    assert_eq!(w.index, vec!["a::b::c".to_string()]);
    let w = store(&["a::b::c"], w.write).mark_nav_synced("a::b", "c", "x", 10, 11);
    assert!(w.remove);
    assert!(w.index.is_empty());
    assert_eq!(w.write.unwrap().db_id, "a");
}

#[test]
fn a_draft_under_another_storage_name_is_not_what_is_pruned() {
    let w = store(&[], None).touch_nav("d", "n", "x", "hello", 10);
    let w = store(&["e::m"], w.write).mark_nav_synced("e", "m", "x", 10, 11);
    assert!(!w.remove);
    assert_eq!(w.index, vec!["e::m".to_string()]);
}

#[test]
fn a_sent_title_leaves_nothing_stored() {
    let mut d = base_draft();
    d.db_id = "d".to_string();
    d.note_id = "n".to_string();
    let w = store(&["d::m"], Some(d)).touch_title("d", "n", "T", 10);
    assert_eq!(w.index, vec!["d::m".to_string(), "d::n".to_string()]);
    let early = store(&["d::n"], w.write).mark_title_synced("d", "n", 9, 11);
    assert!(!early.remove);
    let w = store(&["d::m", "d::n"], early.write).mark_title_synced("d", "n", 10, 12);
    assert!(w.remove);
    assert_eq!(w.index, vec!["d::m".to_string()]);
}
