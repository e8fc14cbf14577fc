use hulunote_app::drafts::note::{touch_nav, touch_nav_meta, NoteDraft};
use hulunote_app::editor::focus::pick_editor_focus_target;
use hulunote_app::editor::load::{
    can_keep_cursor, flash_step, may_focus_row, FlashStep, LoadAction, LoadState,
    OFFLINE_MISSING_NOTICE, OFFLINE_NOTICE,
};
use hulunote_app::editor::moves::LineStep;
use hulunote_app::editor::ordering::{midpoint_or_append, OrderRule};
use hulunote_app::editor::placement::settle_reorder;
use hulunote_app::editor::siblings::sort_navs_by_same_deep_order;
use hulunote_app::editor::session::{edit_scope, Change, Session};
use hulunote_app::editor::tree::{
    collect_subtree, collect_visible_preorder_ids, is_ancestor_of, outline_within, subtree_within,
};
use hulunote_app::editor::typing::composed_caret;
use hulunote_app::editor::view::{
    hovered_parent, is_external_control, may_drop_on, outline_row_class, scroll_to_row,
    should_exit_edit_on_click_target, should_exit_edit_on_focusout_related_target, shown_content,
    DropStep, Surroundings,
};
use hulunote_app::models::{Nav, ROOT_CONTAINER_PARENT_ID};

fn nav(id: &str, parid: &str, order: i32, content: &str) -> Nav {
    Nav {
        id: id.to_string(),
        note_id: "note".to_string(),
        parid: parid.to_string(),
        same_deep_order: order,
        content: content.to_string(),
        is_display: true,
        is_delete: false,
        properties: None,
    }
}

/// root > a (a1, a2), b, c
fn outline() -> Vec<Nav> {
    vec![
        nav("root", ROOT_CONTAINER_PARENT_ID, 0, ""),
        nav("a", "root", 10, "alpha"),
        nav("b", "root", 20, "b1\nb22"),
        nav("c", "root", 30, ""),
        nav("a1", "a", 1, "one"),
        nav("a2", "a", 3, "two"),
    ]
}

fn editing(id: &str) -> Session {
    let mut s = Session::new();
    s.navs = outline();
    let content = s.navs.iter().find(|n| n.id == id).unwrap().content.clone();
    s.open_row(id, &content, Some(0));
    s
}

fn row<'a>(s: &'a Session, id: &str) -> &'a Nav {
    s.navs.iter().find(|n| n.id == id).unwrap()
}

fn content(id: &str, text: &str) -> Change {
    Change::Content {
        id: id.to_string(),
        content: text.to_string(),
    }
}

#[test]
fn saving_passes_on_what_changed() {
    let mut s = editing("a");
    assert!(s.save_current("a").is_empty());
    s.editing_value = "alpha!".to_string();
    assert_eq!(s.save_current("a"), vec![content("a", "alpha!")]);
    assert_eq!(row(&s, "a").content, "alpha!");
    s.open_row("a", "alpha!", None);
    assert!(s.save_current("a").is_empty());
    s.editing_snapshot = None;
    assert!(s.save_row("b", "other").is_empty());
    assert_eq!(row(&s, "b").content, "other");
    assert_eq!(s.save_row("gone", "x"), vec![content("gone", "x")]);
    assert!(s.save_row("gone", "").is_empty());
    assert_eq!(s.commit_edit("b", "again"), vec![content("b", "again")]);
    assert!(s.commit_edit("b", "again").is_empty());
}

#[test]
fn closing_concerns_the_open_row() {
    let mut s = editing("a");
    s.close_row("b");
    assert_eq!(s.editing_id.as_deref(), Some("a"));
    s.close_row("a");
    assert_eq!(s.editing_id, None);
    assert_eq!(s.editing_snapshot, None);
    assert_eq!(s.editing_value, "alpha");
}

#[test]
fn toggle_twice_gives_the_rows_back() {
    let mut s = editing("a");
    let changes = s.toggle("a");
    assert!(!row(&s, "a").is_display);
    assert_eq!(changes, vec![Change::Meta(row(&s, "a").clone())]);
    s.toggle("a");
    assert_eq!(s.navs, outline());
    assert!(s.toggle("gone").is_empty());
}

#[test]
fn edit_needs_names() {
    let both = Some(("x".to_string(), "y".to_string()));
    assert_eq!(edit_scope("x", "y", "n", "m"), both);
    assert_eq!(edit_scope(" ", "", "x", "y"), both);
    assert_eq!(edit_scope("", "y", " ", "m"), None);
    assert_eq!(edit_scope("x", "", "n", ""), None);
}

#[test]
fn jump_goes_to_the_next_shown_row_and_back() {
    let mut s = editing("a");
    s.editing_value = "changed".to_string();
    assert_eq!(s.jump("a", false), vec![content("a", "changed")]);
    assert_eq!(s.editing_id.as_deref(), Some("a1"));
    assert_eq!(s.editing_value, "one");
    assert_eq!(s.target_cursor_col, Some(0));
    s.jump("a1", true);
    assert_eq!(s.editing_id.as_deref(), Some("a"));
    assert_eq!(s.editing_value, "changed");
    s.jump("a", true);
    assert_eq!(s.editing_id.as_deref(), Some("a"));
}

#[test]
fn arrow_keys_keep_the_column_between_rows() {
    let mut s = editing("b");
    assert_eq!(s.step_line("b", true, 1, 2, "b1\nb22", 4), LineStep::Inside);
    assert_eq!(
        s.step_line("b", true, 0, 2, "b1\nb22", 1),
        LineStep::Away(vec![])
    );
    assert_eq!(s.editing_id.as_deref(), Some("a2"));
    assert_eq!(s.target_cursor_col, Some(1));

    let mut s = editing("c");
    assert_eq!(s.step_line("c", true, 0, 1, "", 0), LineStep::Away(vec![]));
    assert_eq!(s.editing_id.as_deref(), Some("b"));
    assert_eq!(s.target_cursor_col, Some(3));

    let mut s = editing("c");
    s.editing_value = "end".to_string();
    assert_eq!(s.step_line("c", false, 0, 1, "end", 1), LineStep::Caret(3));
    assert_eq!(s.target_cursor_col, Some(3));
    assert_eq!(s.editing_id.as_deref(), Some("c"));

    let mut s = editing("a");
    assert_eq!(s.step_line("a", true, 0, 1, "alpha", 3), LineStep::Caret(0));
    assert_eq!(s.target_cursor_col, Some(0));
    assert_eq!(s.step_line("gone", true, 0, 1, "", 0), LineStep::Inside);
    assert_eq!(s.step_line("a", false, 0, 0, "", 0), LineStep::Inside);
}

#[test]
fn left_from_the_start_goes_to_the_row_before() {
    let mut s = editing("b");
    assert_eq!(s.step_left("b", 1, 1), None);
    assert_eq!(s.step_left("b", 0, 2), None);
    assert_eq!(s.step_left("b", 0, 0), Some(vec![]));
    assert_eq!(s.editing_id.as_deref(), Some("a"));
    assert_eq!(s.target_cursor_col, Some(5));
    let mut s = editing("a1");
    s.step_left("a1", 0, 0);
    assert_eq!(s.editing_id.as_deref(), Some("a"));
    let mut s = editing("a");
    assert_eq!(s.step_left("a", 0, 0), Some(vec![]));
    assert_eq!(s.editing_id.as_deref(), Some("a"));
    assert_eq!(s.target_cursor_col, None);
}

#[test]
fn right_from_the_end_opens_the_row() {
    let mut s = editing("a");
    s.toggle("a");
    assert_eq!(s.step_right("a", 4, 4, 5), None);
    let changes = s.step_right("a", 5, 5, 5).unwrap();
    assert_eq!(changes, vec![Change::Meta(row(&s, "a").clone())]);
    assert!(row(&s, "a").is_display);
    assert_eq!(s.editing_id.as_deref(), Some("a1"));
    assert_eq!(s.target_cursor_col, Some(0));
    let mut s = editing("c");
    assert_eq!(s.step_right("c", 0, 0, 0), None);
}

#[test]
fn rows_move_among_their_siblings() {
    let mut s = editing("b");
    assert_eq!(s.plan_move("b", true, 2), Some(OrderRule::HalfBefore(10)));
    assert_eq!(s.target_cursor_col, Some(2));
    assert_eq!(s.plan_move("b", false, 2), Some(OrderRule::HalfAfter(30)));
    assert_eq!(s.plan_move("c", true, 2), Some(OrderRule::Between(10, 20)));
    assert_eq!(s.plan_move("a", true, 0), None);
    assert_eq!(s.plan_move("c", false, 0), None);
    s.editing_value = "new".to_string();
    let changes = s.finish_move("b", 5);
    assert_eq!(changes, vec![Change::Meta(row(&s, "b").clone())]);
    assert_eq!(row(&s, "b").same_deep_order, 5);
    assert_eq!(row(&s, "b").content, "new");
    assert_eq!(
        s.editing_snapshot,
        Some(("b".to_string(), "new".to_string()))
    );
    assert_eq!(
        collect_visible_preorder_ids(&s.navs),
        vec!["b", "a", "a1", "a2", "c"]
    );
    assert_eq!(midpoint_or_append(3, Some(9)), OrderRule::Between(3, 9));
    assert_eq!(midpoint_or_append(3, None), OrderRule::OneAfter(3));
}

#[test]
fn tab_moves_a_row_one_level() {
    let mut s = editing("b");
    s.navs[1].is_display = false;
    let (parid, rule) = s.plan_tab("b", true).unwrap();
    assert_eq!((parid.as_str(), rule), ("a", OrderRule::OneAfter(3)));
    s.finish_tab("b", &parid, 4, true);
    assert_eq!(row(&s, "b").parid, "a");
    assert!(row(&s, "a").is_display);
    let (parid, rule) = s.plan_tab("b", false).unwrap();
    assert_eq!(
        (parid.as_str(), rule),
        ("root", OrderRule::Between(10, 30))
    );
    s.finish_tab("b", &parid, 20, false);
    assert_eq!(s.navs, outline());
    assert_eq!(s.plan_tab("a", true), None);
    assert_eq!(s.plan_tab("a", false), None);
    assert_eq!(s.plan_tab("gone", true), None);
    let mut s = editing("c");
    let (parid, rule) = s.plan_tab("c", true).unwrap();
    assert_eq!((parid.as_str(), rule), ("b", OrderRule::AfterFirst));
}

#[test]
fn input_events_change_the_text() {
    let mut s = editing("a");
    let step = s
        .before_input("a", "insertText", "X", "", "alpha", 1, 3)
        .unwrap();
    assert_eq!(step.state.text, "aXha");
    assert_eq!(step.state.caret_utf16, 2);
    assert_eq!(step.change, content("a", "aXha"));
    assert_eq!(s.editing_value, "aXha");
    let step = s.before_input("a", "", "[", "", "a", 1, 1).unwrap();
    assert_eq!(step.state.text, "a[");
    let step = s
        .before_input("a", "insertFromDrop", "", "drop", "ab", 1, 1)
        .unwrap();
    assert_eq!(step.state.text, "adropb");
    let step = s
        .before_input("a", "deleteContentForward", "", "", "abcd", 1, 3)
        .unwrap();
    assert_eq!(step.state.text, "ad");
    let step = s
        .before_input("a", "deleteContentBackward", "", "", "ab", 9, 9)
        .unwrap();
    assert_eq!((step.state.text.as_str(), step.state.caret_utf16), ("a", 1));
    let step = s
        .before_input("a", "deleteContentForward", "", "", "ab", 0, 0)
        .unwrap();
    assert_eq!((step.state.text.as_str(), step.state.caret_utf16), ("b", 0));
    assert!(s.before_input("a", "formatBold", "", "", "ab", 0, 0).is_none());
    assert!(s.before_input("a", "", "", "", "ab", 0, 0).is_none());
}

#[test]
fn pasting_replaces_the_selection() {
    let mut s = editing("a");
    assert!(s.paste("a", "", "alpha", 0, 5).is_none());
    let step = s.paste("a", "x\ny", "alpha", 0, 5).unwrap();
    assert_eq!(step.state.text, "x\ny");
    assert_eq!(step.state.caret_utf16, 3);
    assert_eq!(s.editing_value, "x\ny");
    let step = s.take_up("a", "abc", 9);
    assert_eq!(step.state.caret_utf16, 3);
    assert_eq!(s.live_text(None), ("abc".to_string(), 3, 3));
    assert_eq!(
        s.live_text(Some(("q".to_string(), 0, 1))),
        ("q".to_string(), 0, 1)
    );
}

#[test]
fn composed_text_moves_the_caret() {
    assert_eq!(composed_caret(Some(2), 3, 0, 9), 5);
    assert_eq!(composed_caret(Some(2), 3, 0, 4), 4);
    assert_eq!(composed_caret(Some(2), 0, 1, 4), 1);
    assert_eq!(composed_caret(None, 3, 7, 4), 4);
    assert_eq!(composed_caret(Some(u32::MAX), u32::MAX, 0, 4), 4);
}

#[test]
fn delete_keys_change_the_text() {
    let mut s = editing("a");
    assert!(s.delete_text("a", "ab", 0, 0, true).is_none());
    assert!(s.delete_text("a", "ab", 2, 2, false).is_none());
    let step = s.delete_text("a", "a😀b", 3, 3, true).unwrap();
    assert_eq!((step.state.text.as_str(), step.state.caret_utf16), ("ab", 1));
    assert_eq!(s.target_cursor_col, Some(1));
    let step = s.delete_text("a", "abc", 0, 2, true).unwrap();
    assert_eq!((step.state.text.as_str(), step.state.caret_utf16), ("c", 0));
    assert_eq!(s.drop_break("\n\n"), ("\n".to_string(), 1));
    assert_eq!(s.editing_value, "\n");
    assert_eq!(s.drop_break("x"), ("x".to_string(), 1));
}

#[test]
fn enter_starts_a_line_or_splits() {
    let mut s = editing("b");
    let step = s.enter_text("b", "b1\nb22", 4, false, true).unwrap();
    assert_eq!(step.state.text, "b1\nb\n22");
    assert_eq!(step.state.caret_utf16, 5);
    assert!(s.enter_text("b", "b1\nb22", 1, false, true).is_none());
    let step = s.enter_text("b", "b1", 1, true, true).unwrap();
    assert_eq!(step.state.text, "b\n1");
    let step = s.enter_text("b", "b1\nb22", 1, false, false).unwrap();
    assert_eq!(step.state.text, "b1\nb22\n");
    assert_eq!(step.state.caret_utf16, 7);
    assert!(s.enter_text("b", "b1", 1, false, false).is_none());
}

#[test]
fn split_row_keeps_all_text() {
    let mut s = editing("a");
    let (changes, plan) = s.plan_split("a", "alpha", 2);
    assert_eq!(changes, vec![content("a", "al")]);
    let plan = plan.unwrap();
    assert_eq!(plan.right, "pha");
    assert_eq!(plan.parid, "root");
    assert_eq!(plan.rule, OrderRule::Between(10, 20));
    let changes = s.finish_split("new", "note", &plan.parid, 15, &plan.right);
    assert_eq!(
        changes,
        vec![Change::Meta(row(&s, "new").clone()), content("new", "pha")]
    );
    assert_eq!(s.editing_id.as_deref(), Some("new"));
    assert_eq!(s.target_cursor_col, Some(0));
    assert_eq!(
        collect_visible_preorder_ids(&s.navs),
        vec!["a", "a1", "a2", "new", "b", "c"]
    );
    let (_, plan) = s.plan_split("gone", "x", 0);
    assert!(plan.is_none());
}

#[test]
fn deleted_row_leaves_an_open_one() {
    let mut s = editing("c");
    let (ids, changes) = s.delete_row("c").unwrap();
    assert_eq!(ids, vec!["c"]);
    let mut gone = nav("c", "root", 30, "");
    gone.is_delete = true;
    assert_eq!(changes, vec![Change::Meta(gone)]);
    assert_eq!(s.editing_id.as_deref(), Some("b"));
    assert_eq!(s.editing_value, "b1\nb22");
    assert_eq!(s.target_cursor_col, Some(6));
    assert!(s.navs.iter().all(|n| n.id != "c"));
    assert!(s.delete_row("a").is_none());
    assert_eq!(s.navs.len(), 5);
    s.delete_row("a1").unwrap();
    assert_eq!(s.editing_id.as_deref(), Some("a"));
}

#[test]
fn deleting_takes_deleted_children_along() {
    let mut s = editing("a");
    for id in ["a1", "a2"] {
        let i = s.navs.iter().position(|n| n.id == id).unwrap();
        s.navs[i].is_delete = true;
    }
    let (ids, _) = s.delete_row("a").unwrap();
    assert_eq!(ids, vec!["a", "a1", "a2"]);
    assert_eq!(s.editing_id.as_deref(), Some("b"));
    assert_eq!(collect_visible_preorder_ids(&s.navs), vec!["b", "c"]);
}

#[test]
fn depth_of_outlines() {
    let mut navs = outline();
    assert!(outline_within(&navs, 1));
    assert!(!outline_within(&navs, 0));
    assert!(subtree_within(&navs, "root", 1));
    assert_eq!(collect_subtree(&navs, "a"), vec!["a", "a1", "a2"]);
    assert!(is_ancestor_of(&navs, "root", "a2"));
    assert!(is_ancestor_of(&navs, "a", "a"));
    assert!(!is_ancestor_of(&navs, "b", "a2"));
    navs.push(nav("x", "y", 1, ""));
    navs.push(nav("y", "x", 1, ""));
    assert!(!subtree_within(&navs, "x", 50));
    assert!(outline_within(&navs, 1));
}

#[test]
fn rows_are_dropped_where_they_may_go() {
    let mut s = editing("a");
    assert_eq!(s.plan_drop("a", "a1", true), DropStep::Refused);
    assert_eq!(s.plan_drop("a", "a", true), DropStep::Refused);
    assert_eq!(s.plan_drop(" ", "a", true), DropStep::Refused);
    assert_eq!(s.plan_drop("gone", "a", true), DropStep::Over);
    assert!(!may_drop_on(&s.navs, "a", "a1"));
    assert!(may_drop_on(&s.navs, "", "a1"));
    let DropStep::Move(to) = s.plan_drop("c", "a1", true) else {
        panic!("the row moves");
    };
    assert_eq!(to.parid, "a");
    assert_eq!(to.rule, OrderRule::Between(1, 3));
    assert_eq!(to.from_order, None);
    let (parid, order) = settle_reorder(to, 2, false).unwrap();
    let changes = s.finish_drop("c", &parid, order);
    assert_eq!(changes, vec![Change::Meta(row(&s, "c").clone())]);
    assert_eq!(
        collect_visible_preorder_ids(&s.navs),
        vec!["a", "a1", "c", "a2", "b"]
    );
    let DropStep::Move(to) = s.plan_drop("a2", "a1", false) else {
        panic!("the row moves");
    };
    assert_eq!(to.rule, OrderRule::OneBefore(1));
    assert_eq!(to.from_order, Some(3));
    assert_eq!(settle_reorder(to, 3, true), None);
}

#[test]
fn an_outline_that_comes_in_opens_a_row() {
    let mut s = Session::new();
    let draft = NoteDraft::default();
    let saved = Some(("a2".to_string(), 2));
    assert_eq!(
        s.take_in(outline(), None, true, saved, Some(" b "), &draft)
            .as_deref(),
        Some("b")
    );
    assert_eq!(s.editing_value, "b1\nb22");
    assert_eq!(s.target_cursor_col, Some(0));
    assert_eq!(
        s.take_in(outline(), None, true, None, Some("c"), &draft),
        None
    );
    assert_eq!(s.editing_id.as_deref(), Some("b"));
    let rest: Vec<Nav> = outline().into_iter().filter(|n| n.id != "b").collect();
    assert_eq!(s.take_in(rest, None, false, None, None, &draft), None);
    assert_eq!(s.editing_id, None);
    assert_eq!(s.editing_snapshot, None);
    assert_eq!(s.target_cursor_col, None);
    let saved = Some(("a2".to_string(), 2));
    s.take_in(outline(), None, true, saved, None, &draft);
    assert_eq!(s.editing_id.as_deref(), Some("a2"));
    assert_eq!(s.target_cursor_col, Some(2));
}

#[test]
fn a_first_row_is_opened_and_changes_are_laid_over() {
    let mut s = Session::new();
    let mut draft = NoteDraft::default();
    touch_nav(&mut draft, "a", "local", 5);
    let mut gone = nav("b", "root", 20, "");
    gone.is_delete = true;
    touch_nav_meta(&mut draft, &gone, 6);
    assert_eq!(
        s.take_in(outline(), Some("c"), true, None, None, &draft),
        None
    );
    assert_eq!(s.editing_id.as_deref(), Some("c"));
    assert_eq!(s.editing_value, "");
    assert_eq!(row(&s, "a").content, "local");
    assert!(row(&s, "b").is_delete);
    assert_eq!(row(&s, "b").content, "b1\nb22");
}

#[test]
fn focus_falls_back_to_the_first_shown_row() {
    let visible = vec!["a".to_string(), "b".to_string()];
    let saved = Some(("gone".to_string(), 3));
    assert_eq!(
        pick_editor_focus_target(&visible, saved, Some("  ")),
        Some(("a".to_string(), 0))
    );
    assert_eq!(
        pick_editor_focus_target(&visible, None, Some("\u{3000}b\n")),
        Some(("b".to_string(), 0))
    );
    assert_eq!(pick_editor_focus_target(&[], None, Some("a")), None);
}

#[test]
fn loading_begins_and_ends() {
    let mut l = LoadState::new();
    assert_eq!(l.begin(" ", true, true), LoadAction::Clear);
    assert_eq!(l.begin("n", true, false), LoadAction::Fetch);
    assert!(l.loading);
    l.fetched();
    assert!(!l.loading && !l.offline && l.error.is_none());
    assert_eq!(l.begin("n", false, true), LoadAction::ShowSnapshot);
    assert!(l.offline && !l.offline_missing_snapshot);
    assert_eq!(l.offline_notice(), OFFLINE_NOTICE);
    assert_eq!(l.begin("n", false, false), LoadAction::ShowNothing);
    assert_eq!(l.offline_notice(), OFFLINE_MISSING_NOTICE);
    l.begin("n", true, false);
    assert_eq!(l.failed(true, true, "bad"), LoadAction::Keep);
    assert_eq!(l.error.as_deref(), Some("bad"));
    assert!(!l.loading && !l.offline);
    assert_eq!(
        l.failed(false, true, "bad"),
        LoadAction::ShowSnapshotAsItIs
    );
    assert_eq!(l.error, None);
    assert_eq!(l.failed(false, false, "bad"), LoadAction::ShowNothing);
}

#[test]
fn restored_row_is_marked_once() {
    let mut l = LoadState::new();
    l.begin("n", true, false);
    assert_eq!(l.row_to_flash(None, "other", Some("a")), None);
    assert_eq!(l.row_to_flash(None, "n", None), None);
    assert_eq!(l.row_to_flash(Some("b"), "n", Some("a")).as_deref(), Some("a"));
    assert_eq!(l.row_to_flash(None, "n", Some("a")), None);
    l.begin("n", true, false);
    assert_eq!(l.row_to_flash(Some("a"), "n", Some("a")), None);
    assert_eq!(l.pending_focus_flash_note_id, None);
    assert_eq!(flash_step("a", 0, true), FlashStep::Mark);
    assert_eq!(flash_step("a", 240, false), FlashStep::Wait);
    assert_eq!(flash_step("a", 241, true), FlashStep::Stop);
    assert_eq!(flash_step(" ", 0, true), FlashStep::Stop);
}

#[test]
fn the_title_comes_before_the_rows() {
    assert!(may_focus_row(false, None, None, "n"));
    assert!(may_focus_row(false, Some("m"), Some("m"), "n"));
    assert!(!may_focus_row(true, None, None, "n"));
    assert!(!may_focus_row(false, Some("n"), None, "n"));
    assert!(!may_focus_row(false, None, Some("n"), "n"));
    assert!(can_keep_cursor("d", "n", "a"));
    assert!(!can_keep_cursor("d", "", "a"));
}

#[test]
fn clicks_outside_leave_the_row() {
    let none = Surroundings {
        in_outline: false,
        in_editor: false,
        in_row: false,
        in_control: false,
    };
    assert!(should_exit_edit_on_click_target(Some(none)));
    assert!(!should_exit_edit_on_click_target(None));
    assert!(!should_exit_edit_on_click_target(Some(Surroundings {
        in_control: true,
        ..none
    })));
    assert!(!should_exit_edit_on_click_target(Some(Surroundings {
        in_row: true,
        ..none
    })));
    assert!(should_exit_edit_on_focusout_related_target(Some(none)));
    assert!(!should_exit_edit_on_focusout_related_target(None));
    assert!(!should_exit_edit_on_focusout_related_target(Some(
        Surroundings {
            in_outline: true,
            ..none
        }
    )));
    assert!(is_external_control(Surroundings {
        in_control: true,
        ..none
    }));
    assert!(!is_external_control(Surroundings {
        in_control: true,
        in_outline: true,
        ..none
    }));
}

#[test]
fn looks_of_rows() {
    assert_eq!(
        outline_row_class(true, false, true, true, true),
        "group outline-row outline-row--editing -ml-10 pl-10 flex items-start gap-0.5 py-0"
    );
    assert!(outline_row_class(false, true, true, false, true).contains("ring-ring/40"));
    assert_eq!(
        outline_row_class(false, false, false, true, true),
        "group outline-row -ml-10 pl-10 flex items-start gap-0.5 py-0"
    );
    assert_eq!(shown_content(" \n "), ("".to_string(), 1));
    assert_eq!(shown_content("a\nb\n"), ("a\nb\n".to_string(), 3));
    let navs = outline();
    assert_eq!(hovered_parent(&navs, "a", true).as_deref(), Some("root"));
    assert_eq!(hovered_parent(&navs, "a", false), None);
    assert_eq!(hovered_parent(&navs, "gone", true), None);
}

#[test]
fn list_is_scrolled_as_little_as_it_takes() {
    assert_eq!(scroll_to_row(10, 5, 20, 50), 10);
    assert_eq!(scroll_to_row(80, 5, 20, 50), 35);
    assert_eq!(scroll_to_row(30, 5, 20, 50), 20);
}

#[test]
fn siblings_are_ranked_and_equals_stay_as_they_come() {
    let mut navs = vec![
        nav("c", "p", 3, ""),
        nav("b", "p", 1, ""),
        nav("a", "p", 1, ""),
        nav("d", "p", -2, ""),
    ];
    sort_navs_by_same_deep_order(&mut navs);
    let ids: Vec<&str> = navs.iter().map(|n| n.id.as_str()).collect();
    assert_eq!(ids, vec!["d", "b", "a", "c"]);
}
