use hulunote_app::editor::autocomplete::{
    build_ac_items, build_ac_items_from, insert_choice, note_titles_for_db, AcItem, AcKey,
    AutocompleteState,
};
use hulunote_app::editor::links::{
    find_note, follow_link, note_title, shows_edit_hint, take_up_created_note, wiki_link_exists,
    HoverAction, LinkAction, LinkPreview, PreviewReply, PREVIEW_OFFLINE,
};
use hulunote_app::models::Note;
use hulunote_app::text::is_blank_str;

fn note(id: &str, db: &str, title: &str) -> Note {
    Note {
        id: id.to_string(),
        database_id: db.to_string(),
        title: title.to_string(),
        content: String::new(),
        created_at: String::new(),
        updated_at: "1".to_string(),
    }
}

fn item(title: &str, is_new: bool) -> AcItem {
    AcItem {
        title: title.to_string(),
        is_new,
    }
}

fn strings(xs: &[&str]) -> Vec<String> {
    xs.iter().map(|s| s.to_string()).collect()
}

#[test]
fn white_space_is_what_it_is_taken_for() {
    for c in '\u{0}'..=char::MAX {
        let expected = matches!(
            c,
            '\u{9}'..='\u{D}'
                | ' '
                | '\u{85}'
                | '\u{A0}'
                | '\u{1680}'
                | '\u{2000}'..='\u{200A}'
                | '\u{2028}'
                | '\u{2029}'
                | '\u{202F}'
                | '\u{205F}'
                | '\u{3000}'
        );
        assert_eq!(is_blank_str(&c.to_string()), expected);
    }
}

#[test]
fn menu_matches_whatever_the_case() {
    let titles = strings(&["Alpha", "BETA", "Straße"]);
    assert_eq!(
        build_ac_items(&titles, "bEt"),
        vec![item("bEt", true), item("BETA", false)]
    );
    assert!(build_ac_items(&titles, "Alpha").is_empty());
    assert_eq!(build_ac_items(&titles, "STRAßE").len(), 2);
    assert_eq!(build_ac_items(&titles, "").len(), 3);
}

#[test]
fn menu_of_given_lower_case_titles() {
    let titles = strings(&["One", "Two"]);
    let lows = strings(&["one", "two"]);
    assert_eq!(
        build_ac_items_from(&titles, &lows, "T", "t"),
        vec![item("T", true), item("Two", false)]
    );
}

#[test]
fn titles_of_a_database_come_in_order_once() {
    let notes = vec![
        note("1", "d", "b"),
        note("2", "d", "a"),
        note("3", "e", "c"),
        note("4", "d", "b"),
        note("5", "d", "  "),
    ];
    assert_eq!(note_titles_for_db(&notes, "d"), strings(&["a", "b"]));
}

#[test]
fn menu_follows_the_caret() {
    let notes = vec![note("1", "d", "Apple"), note("2", "d", "Pear")];
    let mut ac = AutocompleteState::new();
    ac.update_wiki_autocomplete_state(&notes, "d", "x [[ap", 6);
    assert!(ac.open);
    assert_eq!(ac.start_utf16, Some(2));
    assert_eq!(ac.items, vec![item("ap", true), item("Apple", false)]);
    ac.on_key(AcKey::Down);
    ac.on_key(AcKey::Down);
    assert_eq!(ac.index, 1);
    ac.on_key(AcKey::Up);
    ac.on_key(AcKey::Up);
    assert_eq!(ac.index, 0);
    ac.on_key(AcKey::Escape);
    assert!(!ac.open);
    ac.recompute();
    assert!(ac.open);
    ac.update_wiki_autocomplete_state(&notes, "d", "x [", 3);
    assert!(!ac.open);
    assert_eq!(ac.start_utf16, None);
    ac.recompute();
    assert!(!ac.open);
}

#[test]
fn choice_closes_the_link() {
    let (text, caret) = insert_choice("x [[ap tail", Some(2), 6, "Apple😀");
    assert_eq!(text, "x [[Apple😀]] tail");
    assert_eq!(caret, 13);
}

#[test]
fn links_lead_to_notes_of_the_database() {
    let notes = vec![note("1", "e", "Home"), note("2", "d", "Home")];
    let keys = strings(&["home", "home"]);
    assert_eq!(find_note(&notes, &keys, "d", "home"), Some(1));
    assert_eq!(find_note(&notes, &keys, "d", "away"), None);
    assert!(wiki_link_exists(&notes, &keys, "d", "home"));
    assert!(!wiki_link_exists(&notes, &keys, " ", "home"));
    assert_eq!(
        follow_link(&notes, &keys, "d", "2", "home"),
        LinkAction::FlashSelf
    );
    assert_eq!(
        follow_link(&notes, &keys, "d", "1", "home"),
        LinkAction::Open("2".to_string())
    );
    assert_eq!(
        follow_link(&notes, &keys, "d", "1", "away"),
        LinkAction::Unknown
    );
    assert_eq!(note_title(&notes, "2").as_deref(), Some("Home"));
    assert_eq!(note_title(&notes, "9"), None);
}

#[test]
fn created_note_is_taken_up_once() {
    let mut notes = vec![note("1", "d", "A")];
    assert!(!take_up_created_note(&mut notes, note(" ", "d", "B")));
    assert!(take_up_created_note(&mut notes, note("2", "d", "B")));
    assert!(take_up_created_note(&mut notes, note("2", "d", "C")));
    assert_eq!(notes, vec![note("1", "d", "A"), note("2", "d", "B")]);
}

#[test]
fn preview_is_loaded_once() {
    let mut p = LinkPreview::new();
    assert_eq!(p.on_hover(false, false, "T", true), HoverAction::Ignore);
    assert_eq!(p.on_hover(true, true, "T", true), HoverAction::Ignore);
    assert_eq!(p.on_hover(true, false, "T", true), HoverAction::ShowAndLoad);
    assert!(p.loading);
    p.on_reply(PreviewReply::Lines(strings(&["x"])));
    assert!(!p.loading);
    assert_eq!(p.lines, strings(&["x"]));
    assert_eq!(p.on_hover(true, false, "T", true), HoverAction::Show);
    assert_eq!(p.on_hover(true, false, "U", false), HoverAction::Show);
    assert_eq!(p.lines, strings(&[PREVIEW_OFFLINE]));
    assert_eq!(p.on_hover(true, false, "V", true), HoverAction::ShowAndLoad);
    p.on_reply(PreviewReply::Failed("bad".to_string()));
    assert_eq!(p.error.as_deref(), Some("bad"));
    p.on_reply(PreviewReply::Missing);
    assert!(!p.loading);
    p.on_reply(PreviewReply::Offline);
    assert_eq!(p.error, None);
}

#[test]
fn hint_is_shown_where_a_click_leads_elsewhere() {
    assert!(shows_edit_hint("T", true, false));
    assert!(!shows_edit_hint(" ", true, false));
    assert!(!shows_edit_hint("T", false, false));
    assert!(!shows_edit_hint("T", true, true));
}

#[test]
fn of_two_notes_with_a_title_the_first_is_linked() {
    let notes = vec![
        note("n0", "other", "Home"),
        note("n1", "d", "Home"),
        note("n2", "d", "home"),
    ];
    let keys = vec!["home".to_string(), "home".to_string(), "home".to_string()];
    assert_eq!(find_note(&notes, &keys, "d", "home"), Some(1));
    assert_eq!(find_note(&notes, &keys, "other", "home"), Some(0));
}
