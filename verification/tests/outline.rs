use hulunote_app::editor::autocomplete::{
    note_titles_signature_for_db, wiki_autocomplete_query_at_caret,
};
use hulunote_app::editor::focus::{
    pick_editor_focus_target, should_skip_focus_restore_for_visible_editing,
};
use hulunote_app::editor::lines::{
    has_any_text_content, outline_delete_state, should_treat_beforeinput_as_insert_text,
    split_nav_content_for_enter, OutlineDeleteState,
};
use hulunote_app::editor::links::resolve_wiki_link_target;
use hulunote_app::editor::load::should_skip_flash_when_same_row_already_highlighted;
use hulunote_app::editor::placement::{
    arrow_left_boundary_target_id, arrow_right_boundary_target,
};
use hulunote_app::editor::rows::{
    merge_server_with_pending_snapshot, row_display_content, should_clear_stale_editing_id,
};
use hulunote_app::editor::selection::split_at_utf16;
use hulunote_app::editor::tree::{
    can_soft_delete_empty_nav, collect_preview_lines, collect_visible_preorder_ids,
    collect_visible_top_level_nodes,
};
use hulunote_app::editor::view::outline_row_class;
use hulunote_app::editor::wiki::{
    should_navigate_wiki_link_click, wiki_highlight_html, BidirectionalToken,
};
use hulunote_app::models::{Nav, Note, ROOT_CONTAINER_PARENT_ID};

/// The rank of an order number among all order numbers.
fn rank(x: f32) -> i32 {
    let bits = x.to_bits();
    let size = (bits & 0x7fff_ffff) as i32;
    if bits >> 31 == 1 {
        -size
    } else {
        size
    }
}

/// The parts of a text, with links between double brackets.
fn tokens(s: &str) -> Vec<BidirectionalToken> {
    let mut out = Vec::new();
    let mut rest = s;
    while let Some(open) = rest.find("[[") {
        let Some(close) = rest[open..].find("]]") else {
            break;
        };
        if open > 0 {
            out.push(BidirectionalToken::Text(rest[..open].to_string()));
        }
        out.push(BidirectionalToken::Link(rest[open + 2..open + close].to_string()));
        rest = &rest[open + close + 2..];
    }
    if !rest.is_empty() {
        out.push(BidirectionalToken::Text(rest.to_string()));
    }
    out
}

fn titles(notes: &[Note]) -> Vec<String> {
    notes.iter().map(|n| n.title.clone()).collect()
}

fn test_nav(id: &str) -> Nav {
    Nav {
        id: id.to_string(),
        note_id: "note".to_string(),
        parid: "root".to_string(),
        same_deep_order: rank(1.0),
        content: String::new(),
        is_display: true,
        is_delete: false,
        properties: None,
    }
}

#[test]
fn should_clear_stale_editing_id_only_when_row_is_missing() {
    let navs = vec![test_nav("a"), test_nav("b")];

    assert!(!should_clear_stale_editing_id(None, &navs));
    assert!(!should_clear_stale_editing_id(Some("a"), &navs));
    assert!(should_clear_stale_editing_id(Some("missing"), &navs));
}

#[test]
fn collect_visible_preorder_ids_filters_deleted() {
    let note_id = "note".to_string();
    let root_parent = ROOT_CONTAINER_PARENT_ID.to_string();

    // Root container: parid == ROOT_CONTAINER_PARENT_ID
    let root = Nav {
        id: "root".to_string(),
        note_id: note_id.clone(),
        parid: root_parent,
        same_deep_order: rank(0.0),
        content: "ROOT".to_string(),
        is_display: true,
        is_delete: false,
        properties: None,
    };
    // a: top-level node under root
    let a = Nav {
        id: "a".to_string(),
        note_id: note_id.clone(),
        parid: "root".to_string(),
        same_deep_order: rank(1.0),
        content: "a".to_string(),
        is_display: true,
        is_delete: false,
        properties: None,
    };
    // b_deleted: deleted node under root
    let b_deleted = Nav {
        id: "b".to_string(),
        note_id: note_id.clone(),
        parid: "root".to_string(),
        same_deep_order: rank(2.0),
        content: "b".to_string(),
        is_display: true,
        is_delete: true,
        properties: None,
    };
    // c: child of a
    let c = Nav {
        id: "c".to_string(),
        note_id: note_id.clone(),
        parid: "a".to_string(),
        same_deep_order: rank(1.0),
        content: "c".to_string(),
        is_display: true,
        is_delete: false,
        properties: None,
    };

    let all = vec![b_deleted, c, a, root];
    let ids = collect_visible_preorder_ids(&all);

    // Deleted node is excluded; children of visible nodes are included.
    assert_eq!(ids, vec!["a".to_string(), "c".to_string()]);
}

#[test]
fn has_any_text_content_behavior() {
    assert!(!has_any_text_content(""));
    assert!(!has_any_text_content(" \n\t"));
    assert!(has_any_text_content("a"));
    assert!(has_any_text_content(" 爱 "));
}

#[test]
fn split_at_utf16_behavior() {
    assert_eq!(
        split_at_utf16("hello world", 5),
        ("hello".to_string(), " world".to_string())
    );

    // UTF-16 boundary safety with multi-byte chars.
    assert_eq!(
        split_at_utf16("a爱b", 2),
        ("a爱".to_string(), "b".to_string())
    );

    assert_eq!(
        split_at_utf16("abc", 99),
        ("abc".to_string(), "".to_string())
    );
}

#[test]
fn outline_delete_state_behavior() {
    assert_eq!(
        outline_delete_state(true, 0),
        OutlineDeleteState::HasContent
    );
    assert_eq!(
        outline_delete_state(true, 3),
        OutlineDeleteState::HasContent
    );

    assert_eq!(
        outline_delete_state(false, 2),
        OutlineDeleteState::OnlySoftBreaks
    );
    assert_eq!(
        outline_delete_state(false, 1),
        OutlineDeleteState::OnlySoftBreaks
    );

    assert_eq!(outline_delete_state(false, 0), OutlineDeleteState::Empty);
}

#[test]
fn can_soft_delete_empty_nav_blocks_only_unique_top_level() {
    let note_id = "n1".to_string();
    let root_parent = ROOT_CONTAINER_PARENT_ID.to_string();

    let root_container = Nav {
        id: "root-container".to_string(),
        note_id: note_id.clone(),
        parid: root_parent,
        same_deep_order: rank(0.0),
        content: "ROOT".to_string(),
        is_display: true,
        is_delete: false,
        properties: None,
    };

    let first = Nav {
        id: "first".to_string(),
        note_id: note_id.clone(),
        parid: "root-container".to_string(),
        same_deep_order: rank(1.0),
        content: "".to_string(),
        is_display: true,
        is_delete: false,
        properties: None,
    };

    let second = Nav {
        id: "second".to_string(),
        note_id,
        parid: "root-container".to_string(),
        same_deep_order: rank(2.0),
        content: "".to_string(),
        is_display: true,
        is_delete: false,
        properties: None,
    };

    let all = vec![root_container, first, second];

    assert!(can_soft_delete_empty_nav(&all, "first"));
    assert!(can_soft_delete_empty_nav(&all, "second"));
}

#[test]
fn can_soft_delete_empty_nav_blocks_unique_top_level() {
    let note_id = "n1".to_string();
    let root_parent = ROOT_CONTAINER_PARENT_ID.to_string();

    let root_container = Nav {
        id: "root-container".to_string(),
        note_id: note_id.clone(),
        parid: root_parent,
        same_deep_order: rank(0.0),
        content: "ROOT".to_string(),
        is_display: true,
        is_delete: false,
        properties: None,
    };

    let only = Nav {
        id: "only".to_string(),
        note_id,
        parid: "root-container".to_string(),
        same_deep_order: rank(1.0),
        content: "".to_string(),
        is_display: true,
        is_delete: false,
        properties: None,
    };

    let all = vec![root_container, only];

    assert!(!can_soft_delete_empty_nav(&all, "only"));
}

#[test]
fn can_soft_delete_empty_nav_blocks_parent_with_children() {
    let note_id = "n1".to_string();
    let root_parent = ROOT_CONTAINER_PARENT_ID.to_string();

    let root_container = Nav {
        id: "root-container".to_string(),
        note_id: note_id.clone(),
        parid: root_parent,
        same_deep_order: rank(0.0),
        content: "ROOT".to_string(),
        is_display: true,
        is_delete: false,
        properties: None,
    };

    let first = Nav {
        id: "first".to_string(),
        note_id: note_id.clone(),
        parid: "root-container".to_string(),
        same_deep_order: rank(1.0),
        content: "".to_string(),
        is_display: true,
        is_delete: false,
        properties: None,
    };

    let parent = Nav {
        id: "parent".to_string(),
        note_id: note_id.clone(),
        parid: "root-container".to_string(),
        same_deep_order: rank(2.0),
        content: "".to_string(),
        is_display: true,
        is_delete: false,
        properties: None,
    };

    let child = Nav {
        id: "child".to_string(),
        note_id,
        parid: "parent".to_string(),
        same_deep_order: rank(1.0),
        content: "".to_string(),
        is_display: true,
        is_delete: false,
        properties: None,
    };

    let all = vec![root_container, first, parent, child];

    assert!(!can_soft_delete_empty_nav(&all, "parent"));
}

#[test]
fn visible_preorder_ids_skip_root_container_row() {
    let root_parent = ROOT_CONTAINER_PARENT_ID.to_string();
    let note_id = "n1".to_string();

    let root_container = Nav {
        id: "root-container".to_string(),
        note_id: note_id.clone(),
        parid: root_parent,
        same_deep_order: rank(0.0),
        content: "ROOT".to_string(),
        is_display: true,
        is_delete: false,
        properties: None,
    };
    let top = Nav {
        id: "top-1".to_string(),
        note_id: note_id.clone(),
        parid: "root-container".to_string(),
        same_deep_order: rank(1.0),
        content: "Top".to_string(),
        is_display: true,
        is_delete: false,
        properties: None,
    };
    let child = Nav {
        id: "child-1".to_string(),
        note_id,
        parid: "top-1".to_string(),
        same_deep_order: rank(1.0),
        content: "Child".to_string(),
        is_display: true,
        is_delete: false,
        properties: None,
    };

    let ids = collect_visible_preorder_ids(&[root_container, top, child]);
    assert_eq!(ids, vec!["top-1".to_string(), "child-1".to_string()]);
}

#[test]
fn visible_top_level_nodes_skip_root_container() {
    let root_parent = ROOT_CONTAINER_PARENT_ID.to_string();
    let note_id = "n1".to_string();

    let root_container = Nav {
        id: "root-container".to_string(),
        note_id: note_id.clone(),
        parid: root_parent.clone(),
        same_deep_order: rank(0.0),
        content: "ROOT".to_string(),
        is_display: true,
        is_delete: false,
        properties: None,
    };
    let child = Nav {
        id: "child-1".to_string(),
        note_id: note_id.clone(),
        parid: "root-container".to_string(),
        same_deep_order: rank(1.0),
        content: "Hello".to_string(),
        is_display: true,
        is_delete: false,
        properties: None,
    };

    let out = collect_visible_top_level_nodes(&[root_container, child]);
    let ids: Vec<String> = out.into_iter().map(|n| n.id).collect();
    assert_eq!(ids, vec!["child-1".to_string()]);
}

#[test]
fn collect_preview_lines_skips_root_container_row() {
    let root_parent = ROOT_CONTAINER_PARENT_ID.to_string();
    let note_id = "n1".to_string();

    let root_container = Nav {
        id: "root-container".to_string(),
        note_id: note_id.clone(),
        parid: root_parent,
        same_deep_order: rank(0.0),
        content: "ROOT".to_string(),
        is_display: true,
        is_delete: false,
        properties: None,
    };
    let child = Nav {
        id: "child-1".to_string(),
        note_id,
        parid: "root-container".to_string(),
        same_deep_order: rank(1.0),
        content: "Hello".to_string(),
        is_display: true,
        is_delete: false,
        properties: None,
    };

    let lines = collect_preview_lines(&[root_container, child], 8);
    assert_eq!(lines, vec!["Hello".to_string()]);
}

#[test]
fn merge_server_with_pending_snapshot_keeps_only_pending_missing_navs() {
    let note_id = "n1".to_string();
    let server = vec![Nav {
        id: "aa".to_string(),
        note_id: note_id.clone(),
        parid: ROOT_CONTAINER_PARENT_ID.to_string(),
        same_deep_order: rank(1.0),
        content: "aa".to_string(),
        is_display: true,
        is_delete: false,
        properties: None,
    }];

    let snapshot = vec![
        Nav {
            id: "bb".to_string(),
            note_id: note_id.clone(),
            parid: ROOT_CONTAINER_PARENT_ID.to_string(),
            same_deep_order: rank(2.0),
            content: "bb".to_string(),
            is_display: true,
            is_delete: false,
            properties: None,
        },
        Nav {
            id: "cc".to_string(),
            note_id,
            parid: ROOT_CONTAINER_PARENT_ID.to_string(),
            same_deep_order: rank(3.0),
            content: "cc".to_string(),
            is_display: true,
            is_delete: false,
            properties: None,
        },
    ];

    let pending_ids = vec!["cc".to_string()];
    let merged = merge_server_with_pending_snapshot(server, Some(snapshot), &pending_ids);
    let ids: Vec<String> = merged.into_iter().map(|n| n.id).collect();

    assert_eq!(ids, vec!["aa".to_string(), "cc".to_string()]);
}

#[test]
fn split_nav_content_for_enter_keeps_lower_lines_on_first_line_split() {
    let src = "abc\nline2\nline3";
    // caret after "a" in first line
    let (left, right) = split_nav_content_for_enter(src, 1);
    assert_eq!(left, "a\nline2\nline3");
    assert_eq!(right, "bc");
}

#[test]
fn split_nav_content_for_enter_second_line_keeps_default_split() {
    let src = "abc\nline2\nline3";
    // caret in second line after "li" -> UTF-16 pos: 3 + 1 + 2 = 6
    let (left, right) = split_nav_content_for_enter(src, 6);
    assert_eq!(left, "abc\nli");
    assert_eq!(right, "ne2\nline3");
}

#[test]
fn row_display_content_prefers_latest_nav_value() {
    let navs = vec![Nav {
        id: "n1".to_string(),
        note_id: "note".to_string(),
        parid: "root".to_string(),
        same_deep_order: rank(1.0),
        content: "new-content".to_string(),
        is_display: true,
        is_delete: false,
        properties: None,
    }];
    let out = row_display_content(&navs, "n1", "stale-fallback");
    assert_eq!(out, "new-content");
}

#[test]
fn row_display_content_falls_back_when_missing() {
    let navs: Vec<Nav> = vec![];
    let out = row_display_content(&navs, "missing", "fallback");
    assert_eq!(out, "fallback");
}

#[test]
fn wiki_highlight_renders_markdown_when_caret_outside_token_range() {
    let html = wiki_highlight_html("a **bold** z", &tokens("a **bold** z"), Some(0), &|_title| false);
    assert!(html.contains("<strong>bold</strong>"));
}

#[test]
fn wiki_highlight_keeps_raw_markdown_when_caret_inside_token_range() {
    let html = wiki_highlight_html("a **bold** z", &tokens("a **bold** z"), Some(4), &|_title| false);
    assert!(html.contains("**bold**"));
    assert!(!html.contains("<strong>bold</strong>"));
}

#[test]
fn wiki_highlight_checks_validity_for_each_link() {
    let seen = std::cell::RefCell::new(Vec::<String>::new());
    let html = wiki_highlight_html("x [[Missing Page]] y [[Existing]]", &tokens("x [[Missing Page]] y [[Existing]]"), Some(0), &|title| {
        seen.borrow_mut().push(title.to_string());
        title == "Existing"
    });

    assert_eq!(
        seen.into_inner(),
        vec!["Missing Page".to_string(), "Existing".to_string()]
    );
    assert!(html.contains("Missing Page"));
    assert!(html.contains("Existing"));
}

#[test]
fn wiki_highlight_output_changes_with_link_validity() {
    let valid_html = wiki_highlight_html("[[Page]]", &tokens("[[Page]]"), Some(0), &|title| title == "Page");
    let invalid_html = wiki_highlight_html("[[Page]]", &tokens("[[Page]]"), Some(0), &|_title| false);
    assert_ne!(valid_html, invalid_html);
}

#[test]
fn wiki_highlight_uses_clickable_state_styles_when_caret_is_outside_link() {
    let html = wiki_highlight_html("x [[Page]]", &tokens("x [[Page]]"), Some(1), &|_title| true);
    assert!(html.contains(
        "data-wiki-bracket=\"1\" class=\"text-[0px] leading-none text-transparent select-none\""
    ));
    assert!(html.contains(
        "data-wiki-link-title=\"1\" class=\"text-primary underline underline-offset-2"
    ));
}

#[test]
fn wiki_highlight_uses_editing_state_styles_when_caret_is_inside_link() {
    let html = wiki_highlight_html("x [[Page]]", &tokens("x [[Page]]"), Some(2), &|_title| true);
    assert!(html.contains("data-wiki-bracket=\"1\" class=\"text-muted-foreground\""));
    assert!(!html.contains(
        "data-wiki-link-title=\"1\" class=\"text-primary underline underline-offset-2"
    ));
}

#[test]
fn wiki_highlight_defaults_to_clickable_state_styles_when_caret_is_unknown() {
    let html = wiki_highlight_html("x [[Page]]", &tokens("x [[Page]]"), None, &|_title| true);
    assert!(html.contains(
        "data-wiki-bracket=\"1\" class=\"text-[0px] leading-none text-transparent select-none\""
    ));
    assert!(html.contains(
        "data-wiki-link-title=\"1\" class=\"text-primary underline underline-offset-2"
    ));
}

#[test]
fn should_navigate_wiki_link_click_when_caret_is_outside_link() {
    assert!(should_navigate_wiki_link_click(1, 1, 2, 10));
    assert!(should_navigate_wiki_link_click(11, 11, 2, 10));
}

#[test]
fn should_not_navigate_wiki_link_click_when_caret_is_inside_link() {
    assert!(!should_navigate_wiki_link_click(2, 2, 2, 10));
    assert!(!should_navigate_wiki_link_click(9, 9, 2, 10));
    assert!(!should_navigate_wiki_link_click(10, 10, 2, 10));
}

#[test]
fn beforeinput_empty_type_with_text_is_treated_as_insert_text() {
    assert!(should_treat_beforeinput_as_insert_text("", "["));
}

#[test]
fn beforeinput_empty_type_without_text_is_not_insert_text() {
    assert!(!should_treat_beforeinput_as_insert_text("", ""));
}

#[test]
fn wiki_autocomplete_query_tracks_after_deletion() {
    let before = wiki_autocomplete_query_at_caret("[[ab", 4);
    let after = wiki_autocomplete_query_at_caret("[[a", 3);
    assert_eq!(before, Some((0, "ab".to_string())));
    assert_eq!(after, Some((0, "a".to_string())));
}

#[test]
fn wiki_autocomplete_query_closes_when_trigger_removed() {
    assert_eq!(wiki_autocomplete_query_at_caret("[", 1), None);
}

#[test]
fn resolve_wiki_link_target_detects_self_reference() {
    let notes = vec![Note {
        id: "n1".to_string(),
        database_id: "db1".to_string(),
        title: "Home".to_string(),
        content: "".to_string(),
        created_at: "".to_string(),
        updated_at: "".to_string(),
    }];
    assert_eq!(
        resolve_wiki_link_target(&notes, &titles(&notes), "db1", "n1", "Home"),
        (true, true)
    );
}

#[test]
fn resolve_wiki_link_target_detects_non_self_reference() {
    let notes = vec![
        Note {
            id: "n1".to_string(),
            database_id: "db1".to_string(),
            title: "Home".to_string(),
            content: "".to_string(),
            created_at: "".to_string(),
            updated_at: "".to_string(),
        },
        Note {
            id: "n2".to_string(),
            database_id: "db1".to_string(),
            title: "Other".to_string(),
            content: "".to_string(),
            created_at: "".to_string(),
            updated_at: "".to_string(),
        },
    ];
    assert_eq!(
        resolve_wiki_link_target(&notes, &titles(&notes), "db1", "n1", "Other"),
        (true, false)
    );
}

#[test]
fn arrow_left_boundary_targets_previous_sibling_not_descendant() {
    let note_id = "n1".to_string();
    let navs = vec![
        Nav {
            id: "parent".to_string(),
            note_id: note_id.clone(),
            parid: ROOT_CONTAINER_PARENT_ID.to_string(),
            same_deep_order: rank(1.0),
            content: "parent".to_string(),
            is_display: true,
            is_delete: false,
            properties: None,
        },
        Nav {
            id: "a".to_string(),
            note_id: note_id.clone(),
            parid: "parent".to_string(),
            same_deep_order: rank(1.0),
            content: "A".to_string(),
            is_display: true,
            is_delete: false,
            properties: None,
        },
        Nav {
            id: "a-child".to_string(),
            note_id: note_id.clone(),
            parid: "a".to_string(),
            same_deep_order: rank(1.0),
            content: "A child".to_string(),
            is_display: true,
            is_delete: false,
            properties: None,
        },
        Nav {
            id: "b".to_string(),
            note_id,
            parid: "parent".to_string(),
            same_deep_order: rank(2.0),
            content: "B".to_string(),
            is_display: true,
            is_delete: false,
            properties: None,
        },
    ];

    assert_eq!(
        arrow_left_boundary_target_id(&navs, "b"),
        Some("a".to_string())
    );
}

#[test]
fn arrow_left_boundary_falls_back_to_parent_for_first_sibling() {
    let note_id = "n1".to_string();
    let navs = vec![
        Nav {
            id: "root".to_string(),
            note_id: note_id.clone(),
            parid: ROOT_CONTAINER_PARENT_ID.to_string(),
            same_deep_order: rank(0.0),
            content: "".to_string(),
            is_display: true,
            is_delete: false,
            properties: None,
        },
        Nav {
            id: "parent".to_string(),
            note_id: note_id.clone(),
            parid: "root".to_string(),
            same_deep_order: rank(1.0),
            content: "parent".to_string(),
            is_display: true,
            is_delete: false,
            properties: None,
        },
        Nav {
            id: "first".to_string(),
            note_id,
            parid: "parent".to_string(),
            same_deep_order: rank(1.0),
            content: "first".to_string(),
            is_display: true,
            is_delete: false,
            properties: None,
        },
    ];

    assert_eq!(
        arrow_left_boundary_target_id(&navs, "first"),
        Some("parent".to_string())
    );
}

#[test]
fn arrow_left_boundary_returns_none_for_first_top_level_node() {
    let note_id = "n1".to_string();
    let navs = vec![
        Nav {
            id: "root".to_string(),
            note_id: note_id.clone(),
            parid: ROOT_CONTAINER_PARENT_ID.to_string(),
            same_deep_order: rank(0.0),
            content: "".to_string(),
            is_display: true,
            is_delete: false,
            properties: None,
        },
        Nav {
            id: "first".to_string(),
            note_id,
            parid: "root".to_string(),
            same_deep_order: rank(1.0),
            content: "first".to_string(),
            is_display: true,
            is_delete: false,
            properties: None,
        },
    ];

    assert_eq!(arrow_left_boundary_target_id(&navs, "first"), None);
}

#[test]
fn arrow_right_boundary_targets_first_child_and_requests_expand_when_collapsed() {
    let note_id = "n1".to_string();
    let navs = vec![
        Nav {
            id: "parent".to_string(),
            note_id: note_id.clone(),
            parid: ROOT_CONTAINER_PARENT_ID.to_string(),
            same_deep_order: rank(1.0),
            content: "parent".to_string(),
            is_display: false,
            is_delete: false,
            properties: None,
        },
        Nav {
            id: "child-1".to_string(),
            note_id: note_id.clone(),
            parid: "parent".to_string(),
            same_deep_order: rank(1.0),
            content: "child 1".to_string(),
            is_display: true,
            is_delete: false,
            properties: None,
        },
        Nav {
            id: "child-2".to_string(),
            note_id,
            parid: "parent".to_string(),
            same_deep_order: rank(2.0),
            content: "child 2".to_string(),
            is_display: true,
            is_delete: false,
            properties: None,
        },
    ];

    assert_eq!(
        arrow_right_boundary_target(&navs, "parent"),
        Some(("child-1".to_string(), true))
    );
}

#[test]
fn arrow_right_boundary_targets_first_child_without_expand_when_already_expanded() {
    let note_id = "n1".to_string();
    let navs = vec![
        Nav {
            id: "parent".to_string(),
            note_id: note_id.clone(),
            parid: ROOT_CONTAINER_PARENT_ID.to_string(),
            same_deep_order: rank(1.0),
            content: "parent".to_string(),
            is_display: true,
            is_delete: false,
            properties: None,
        },
        Nav {
            id: "child-1".to_string(),
            note_id,
            parid: "parent".to_string(),
            same_deep_order: rank(1.0),
            content: "child 1".to_string(),
            is_display: true,
            is_delete: false,
            properties: None,
        },
    ];

    assert_eq!(
        arrow_right_boundary_target(&navs, "parent"),
        Some(("child-1".to_string(), false))
    );
}

#[test]
fn arrow_right_boundary_returns_none_when_at_last_visible_without_children() {
    let note_id = "n1".to_string();
    let navs = vec![
        Nav {
            id: "root".to_string(),
            note_id: note_id.clone(),
            parid: ROOT_CONTAINER_PARENT_ID.to_string(),
            same_deep_order: rank(0.0),
            content: "".to_string(),
            is_display: true,
            is_delete: false,
            properties: None,
        },
        Nav {
            id: "only".to_string(),
            note_id,
            parid: "root".to_string(),
            same_deep_order: rank(1.0),
            content: "only".to_string(),
            is_display: true,
            is_delete: false,
            properties: None,
        },
    ];

    assert_eq!(arrow_right_boundary_target(&navs, "only"), None);
}

#[test]
fn note_titles_signature_changes_when_notes_change() {
    let notes1 = vec![Note {
        id: "n1".to_string(),
        database_id: "db1".to_string(),
        title: "A".to_string(),
        content: "".to_string(),
        created_at: "".to_string(),
        updated_at: "1".to_string(),
    }];
    let notes2 = vec![Note {
        id: "n1".to_string(),
        database_id: "db1".to_string(),
        title: "A2".to_string(),
        content: "".to_string(),
        created_at: "".to_string(),
        updated_at: "2".to_string(),
    }];
    assert_ne!(
        note_titles_signature_for_db(&notes1, "db1"),
        note_titles_signature_for_db(&notes2, "db1")
    );
}

#[test]
fn note_titles_signature_is_scoped_to_db() {
    let notes = vec![
        Note {
            id: "n1".to_string(),
            database_id: "db1".to_string(),
            title: "A".to_string(),
            content: "".to_string(),
            created_at: "".to_string(),
            updated_at: "1".to_string(),
        },
        Note {
            id: "n2".to_string(),
            database_id: "db2".to_string(),
            title: "B".to_string(),
            content: "".to_string(),
            created_at: "".to_string(),
            updated_at: "1".to_string(),
        },
    ];
    assert_ne!(
        note_titles_signature_for_db(&notes, "db1"),
        note_titles_signature_for_db(&notes, "db2")
    );
}

#[test]
fn pick_editor_focus_target_prefers_backlink_target_over_saved_cursor() {
    let visible_ids = vec!["a".to_string(), "b".to_string(), "c".to_string()];
    let picked = pick_editor_focus_target(&visible_ids, Some(("a".to_string(), 7)), Some("b"));
    assert_eq!(picked, Some(("b".to_string(), 0)));
}

#[test]
fn pick_editor_focus_target_falls_back_to_saved_cursor_when_no_target() {
    let visible_ids = vec!["a".to_string(), "b".to_string(), "c".to_string()];
    let picked = pick_editor_focus_target(&visible_ids, Some(("c".to_string(), 9)), None);
    assert_eq!(picked, Some(("c".to_string(), 9)));
}

#[test]
fn outline_row_class_applies_one_shot_focus_background() {
    assert!(outline_row_class(false, true, false, false, false)
        .contains("outline-row--focus-flash"));
    assert!(
        outline_row_class(true, true, false, false, false).contains("outline-row--focus-flash")
    );
    assert!(outline_row_class(false, false, true, true, false).contains("opacity-40"));
}

#[test]
fn should_skip_focus_restore_only_for_visible_current_editing_id() {
    let visible_ids = vec!["a".to_string(), "b".to_string()];
    assert!(should_skip_focus_restore_for_visible_editing(
        Some("a"),
        &visible_ids
    ));
    assert!(!should_skip_focus_restore_for_visible_editing(
        Some("x"),
        &visible_ids
    ));
    assert!(!should_skip_focus_restore_for_visible_editing(
        None,
        &visible_ids
    ));
}

#[test]
fn should_skip_flash_only_when_same_row_already_highlighted() {
    assert!(should_skip_flash_when_same_row_already_highlighted(
        Some("nav-1"),
        "nav-1"
    ));
    assert!(!should_skip_flash_when_same_row_already_highlighted(
        Some("nav-2"),
        "nav-1"
    ));
    assert!(!should_skip_flash_when_same_row_already_highlighted(
        None, "nav-1"
    ));
}
